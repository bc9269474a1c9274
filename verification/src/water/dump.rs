//! Framing of the water forensic dump and the layout of texture readbacks.
//!
//! A dump is the magic header followed by sections. Each section is the
//! little-endian `u32` length of its name, the little-endian `u64` length of
//! its payload, the name's UTF-8 bytes and the payload.

use vstd::prelude::*;
use vstd::bytes::{spec_u32_to_le_bytes, spec_u64_to_le_bytes, u32_to_le_bytes, u64_to_le_bytes};
use vstd::string::StringSliceAdditionalSpecFns;

use crate::water::guard::{aligned_pitch, row_pitch};

verus! {

/// Length of the dump's magic header.
pub const MAGIC_LEN: usize = 18;

/// `b"DWEMER_WATER_DUMP\0"`: the dump's magic header.
pub const MAGIC: [u8; 18] = [
    0x44, 0x57, 0x45, 0x4d, 0x45, 0x52, 0x5f, 0x57, 0x41, 0x54, 0x45, 0x52, 0x5f, 0x44, 0x55, 0x4d,
    0x50, 0x00,
];

/// The magic header as a sequence.
pub open spec fn magic() -> Seq<u8> {
    MAGIC@
}

/// The bytes of one framed section.
pub open spec fn section_bytes(name: Seq<u8>, payload: Seq<u8>) -> Seq<u8> {
    spec_u32_to_le_bytes((name.len() as usize) as u32) + spec_u64_to_le_bytes(payload.len() as u64) + name
        + payload
}

/// A dump holding the given `(name, payload)` sections in order.
pub open spec fn dump_of(sections: Seq<(Seq<u8>, Seq<u8>)>) -> Seq<u8>
    decreases sections.len(),
{
    if sections.len() == 0 {
        magic()
    } else {
        let last = sections.last();
        dump_of(sections.drop_last()) + section_bytes(last.0, last.1)
    }
}

/// `needle` occurs in `hay` starting at `at`.
pub open spec fn occurs_at(hay: Seq<u8>, needle: Seq<u8>, at: int) -> bool {
    0 <= at && at + needle.len() <= hay.len() && hay.subrange(at, at + needle.len()) == needle
}

/// Append a byte slice to a byte vector.
pub fn append_bytes(blob: &mut Vec<u8>, bytes: &[u8])
    ensures
        final(blob)@ == old(blob)@ + bytes@,
{
    blob.extend_from_slice(bytes);
    proof {
        assert forall|i: int| 0 <= i < final(blob)@.len() implies #[trigger] final(blob)@[i] == (
        old(blob)@ + bytes@)[i] by {
            if i >= old(blob)@.len() {
                assert(cloned::<u8>(bytes@[i - old(blob)@.len()], final(blob)@[i]));
            }
        }
        assert(final(blob)@ =~= old(blob)@ + bytes@);
    }
}

/// Begin a dump: its magic header alone.
pub fn begin_dump() -> (blob: Vec<u8>)
    ensures
        blob@ == magic(),
{
    let mut blob: Vec<u8> = Vec::with_capacity(1024);
    append_bytes(&mut blob, MAGIC.as_slice());
    proof {
        assert(blob@ =~= magic());
    }
    blob
}

/// Append one named section to a dump.
pub fn section(blob: &mut Vec<u8>, name: &str, bytes: &[u8])
    ensures
        final(blob)@ == old(blob)@ + section_bytes(name.spec_bytes(), bytes@),
{
    let name_bytes = name.as_bytes();
    let name_len = (#[verifier::truncate] (name.len() as u32));
    let name_head = u32_to_le_bytes(name_len);
    let payload_head = u64_to_le_bytes(bytes.len() as u64);
    append_bytes(blob, name_head.as_slice());
    append_bytes(blob, payload_head.as_slice());
    append_bytes(blob, name_bytes);
    append_bytes(blob, bytes);
    proof {
        assert(name_bytes@ == name.spec_bytes());
        assert(payload_head@ == spec_u64_to_le_bytes(bytes@.len() as u64));
        assert(final(blob)@ =~= old(blob)@ + section_bytes(name.spec_bytes(), bytes@));
    }
}

/// The four fields of one section, located in a dump.
pub open spec fn framed_at(blob: Seq<u8>, name: Seq<u8>, payload: Seq<u8>, at: int) -> bool {
    &&& occurs_at(blob, spec_u32_to_le_bytes((name.len() as usize) as u32), at)
    &&& occurs_at(blob, spec_u64_to_le_bytes(payload.len() as u64), at + 4)
    &&& occurs_at(blob, name, at + 12)
    &&& occurs_at(blob, payload, at + 12 + name.len())
}

proof fn lemma_section_fields(prefix: Seq<u8>, name: Seq<u8>, payload: Seq<u8>)
    ensures
        framed_at(prefix + section_bytes(name, payload), name, payload, prefix.len() as int),
{
    let at = prefix.len() as int;
    let h32 = spec_u32_to_le_bytes((name.len() as usize) as u32);
    let h64 = spec_u64_to_le_bytes(payload.len() as u64);
    assert(h32.len() == 4) by {
        vstd::bytes::lemma_auto_spec_u32_to_from_le_bytes();
    }
    assert(h64.len() == 8) by {
        vstd::bytes::lemma_auto_spec_u64_to_from_le_bytes();
    }
    let whole = prefix + section_bytes(name, payload);
    assert(whole =~= prefix + h32 + h64 + name + payload);
    assert(whole.subrange(at, at + 4) =~= h32);
    assert(whole.subrange(at + 4, at + 12) =~= h64);
    assert(whole.subrange(at + 12, at + 12 + name.len()) =~= name);
    assert(whole.subrange(at + 12 + name.len(), at + 12 + name.len() + payload.len()) =~= payload);
}

proof fn lemma_framed_in_prefix(prefix: Seq<u8>, tail: Seq<u8>, name: Seq<u8>, payload: Seq<u8>, at: int)
    requires
        framed_at(prefix, name, payload, at),
    ensures
        framed_at(prefix + tail, name, payload, at),
{
    lemma_occurs_in_prefix(prefix, tail, spec_u32_to_le_bytes((name.len() as usize) as u32), at);
    lemma_occurs_in_prefix(prefix, tail, spec_u64_to_le_bytes(payload.len() as u64), at + 4);
    lemma_occurs_in_prefix(prefix, tail, name, at + 12);
    lemma_occurs_in_prefix(prefix, tail, payload, at + 12 + name.len());
}

/// Every dump begins with the magic header, and every section's name and
/// payload occur in it, each right after its two length fields.
pub proof fn lemma_dump_framing(sections: Seq<(Seq<u8>, Seq<u8>)>, i: int)
    requires
        0 <= i < sections.len(),
    ensures
        dump_of(sections).subrange(0, MAGIC_LEN as int) == magic(),
        exists|at: int| #[trigger] framed_at(dump_of(sections), sections[i].0, sections[i].1, at),
    decreases sections.len(),
{
    lemma_dump_prefix(sections);
    let inner = sections.drop_last();
    let prefix = dump_of(inner);
    let last = sections.last();
    if i == sections.len() - 1 {
        lemma_section_fields(prefix, last.0, last.1);
        assert(framed_at(dump_of(sections), sections[i].0, sections[i].1, prefix.len() as int));
    } else {
        lemma_dump_framing(inner, i);
        assert(inner[i] == sections[i]);
        let at = choose|at: int| #[trigger] framed_at(prefix, inner[i].0, inner[i].1, at);
        lemma_framed_in_prefix(prefix, section_bytes(last.0, last.1), inner[i].0, inner[i].1, at);
        assert(framed_at(dump_of(sections), sections[i].0, sections[i].1, at));
    }
}

proof fn lemma_dump_prefix(sections: Seq<(Seq<u8>, Seq<u8>)>)
    ensures
        dump_of(sections).len() >= MAGIC_LEN,
        dump_of(sections).subrange(0, MAGIC_LEN as int) == magic(),
    decreases sections.len(),
{
    if sections.len() == 0 {
        assert(magic().len() == MAGIC_LEN);
        assert(dump_of(sections).subrange(0, MAGIC_LEN as int) =~= magic());
    } else {
        lemma_dump_prefix(sections.drop_last());
        let prefix = dump_of(sections.drop_last());
        let last = sections.last();
        assert(dump_of(sections).subrange(0, MAGIC_LEN as int) =~= prefix.subrange(
            0,
            MAGIC_LEN as int,
        ));
    }
}

proof fn lemma_occurs_in_prefix(prefix: Seq<u8>, tail: Seq<u8>, needle: Seq<u8>, at: int)
    requires
        occurs_at(prefix, needle, at),
    ensures
        occurs_at(prefix + tail, needle, at),
{
    assert((prefix + tail).subrange(at, at + needle.len()) =~= prefix.subrange(
        at,
        at + needle.len(),
    ));
}

/// Texel layouts whose scene copies the dump knows how to read.
#[derive(Clone, Copy, Debug, PartialEq, Eq)]
pub enum SceneFormat {
    Rgba8Unorm,
    Rgba8UnormSrgb,
    Bgra8Unorm,
    Bgra8UnormSrgb,
    Rgba16Float,
    Rgba32Float,
    /// Any other render-target format: its scene is not dumped.
    Other,
}

/// Bytes per texel of a dumpable scene format.
pub open spec fn stride_of(format: SceneFormat) -> Option<u32> {
    match format {
        SceneFormat::Rgba8Unorm | SceneFormat::Rgba8UnormSrgb | SceneFormat::Bgra8Unorm
        | SceneFormat::Bgra8UnormSrgb => Some(4),
        SceneFormat::Rgba16Float => Some(8),
        SceneFormat::Rgba32Float => Some(16),
        SceneFormat::Other => None,
    }
}

/// Bytes per texel of a scene format, or `None` when the scene is not dumped.
pub fn format_stride(format: SceneFormat) -> (s: Option<u32>)
    ensures
        s == stride_of(format),
{
    match format {
        SceneFormat::Rgba8Unorm | SceneFormat::Rgba8UnormSrgb | SceneFormat::Bgra8Unorm
        | SceneFormat::Bgra8UnormSrgb => Some(4),
        SceneFormat::Rgba16Float => Some(8),
        SceneFormat::Rgba32Float => Some(16),
        SceneFormat::Other => None,
    }
}

/// Unpadded and padded row lengths of a texture copy: `width` texels of
/// `bytes_per_pixel` bytes, padded to the copy alignment.
pub fn copy_layout(width: u32, bytes_per_pixel: u32) -> (layout: (u32, u32))
    requires
        width * bytes_per_pixel + 255 <= u32::MAX,
    ensures
        layout.0 == width * bytes_per_pixel,
        layout.1 == aligned_pitch(width * bytes_per_pixel),
        layout.0 <= layout.1,
{
    let row = width * bytes_per_pixel;
    (row, row_pitch(row))
}

/// The first `rows` rows of a pitched copy, each cut to its first `row` bytes.
pub open spec fn unpadded(view: Seq<u8>, row: int, pitch: int, rows: int) -> Seq<u8>
    decreases rows,
{
    if rows <= 0 {
        Seq::empty()
    } else {
        unpadded(view, row, pitch, rows - 1) + view.subrange((rows - 1) * pitch, (rows - 1) * pitch
            + row)
    }
}

/// Strip the alignment padding from a mapped copy of `height` rows.
pub fn strip_row_padding(view: &[u8], row: u32, pitch: u32, height: u32) -> (bytes: Vec<u8>)
    requires
        row * height <= u32::MAX,
        height == 0 || (height - 1) * pitch <= u32::MAX,
        height == 0 || (height - 1) * pitch + row <= view@.len(),
    ensures
        bytes@ == unpadded(view@, row as int, pitch as int, height as int),
        bytes@.len() == row * height,
{
    let mut bytes: Vec<u8> = Vec::with_capacity((row * height) as usize);
    let len = view.len();
    let mut y: u32 = 0;
    while y < height
        invariant
            0 <= y <= height,
            height == 0 || (height - 1) * pitch <= u32::MAX,
            height == 0 || (height - 1) * pitch + row <= view@.len(),
            bytes@ == unpadded(view@, row as int, pitch as int, y as int),
            bytes@.len() == row * y,
            len == view@.len(),
        decreases height - y,
    {
        proof {
            assert(y * pitch <= (height - 1) * pitch) by (nonlinear_arith)
                requires
                    y < height,
            ;
            assert(row * (y + 1) == row * y + row) by (nonlinear_arith);
            assert(y * pitch + row <= view@.len());
        }
        let start = (y * pitch) as usize;
        let piece = &view[start..start + row as usize];
        append_bytes(&mut bytes, piece);
        proof {
            assert(bytes@ =~= unpadded(view@, row as int, pitch as int, (y + 1) as int));
        }
        y = y + 1;
    }
    bytes
}

} // verus!
