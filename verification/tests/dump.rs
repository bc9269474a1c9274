use dwemer_poolrooms::water::dump::{
    begin_dump, copy_layout, format_stride, section, strip_row_padding, SceneFormat, MAGIC,
};

fn contains(hay: &[u8], needle: &[u8]) -> bool {
    hay.windows(needle.len()).any(|window| window == needle)
}

#[test]
fn a_dump_begins_with_its_magic_header() {
    let blob = begin_dump();
    assert_eq!(blob.as_slice(), b"DWEMER_WATER_DUMP\0");
    assert_eq!(&MAGIC, b"DWEMER_WATER_DUMP\0");
}

#[test]
fn a_section_is_framed_by_its_two_lengths() {
    let mut blob = begin_dump();
    section(&mut blob, "meta.txt", b"abc");
    let body = &blob[18..];
    assert_eq!(&body[0..4], &8_u32.to_le_bytes());
    assert_eq!(&body[4..12], &3_u64.to_le_bytes());
    assert_eq!(&body[12..20], b"meta.txt");
    assert_eq!(&body[20..23], b"abc");
    assert_eq!(blob.len(), 18 + 4 + 8 + 8 + 3);
}

#[test]
fn dumped_sections_are_all_findable() {
    let mut blob = begin_dump();
    section(&mut blob, "meta.txt", b"version = 2\n");
    section(&mut blob, "uniforms.bin", &[0_u8; 16]);
    for slot in 0..2 {
        section(&mut blob, &format!("water{slot}.rg32f"), &[7_u8; 24]);
    }
    assert!(blob.starts_with(b"DWEMER_WATER_DUMP\0"));
    for needle in [b"meta.txt".as_slice(), b"water0.rg32f", b"water1.rg32f"] {
        assert!(contains(&blob, needle));
    }
}

#[test]
fn an_empty_section_still_carries_its_header() {
    let mut blob = Vec::new();
    section(&mut blob, "", &[]);
    assert_eq!(blob, vec![0_u8; 12]);
}

#[test]
fn scene_strides_follow_the_texel_layout() {
    assert_eq!(format_stride(SceneFormat::Rgba8Unorm), Some(4));
    assert_eq!(format_stride(SceneFormat::Rgba8UnormSrgb), Some(4));
    assert_eq!(format_stride(SceneFormat::Bgra8Unorm), Some(4));
    assert_eq!(format_stride(SceneFormat::Bgra8UnormSrgb), Some(4));
    assert_eq!(format_stride(SceneFormat::Rgba16Float), Some(8));
    assert_eq!(format_stride(SceneFormat::Rgba32Float), Some(16));
    assert_eq!(format_stride(SceneFormat::Other), None);
}

#[test]
fn copy_rows_are_padded_to_256_bytes() {
    assert_eq!(copy_layout(640, 8), (5120, 5120));
    assert_eq!(copy_layout(3, 4), (12, 256));
    assert_eq!(copy_layout(0, 4), (0, 0));
    assert_eq!(copy_layout(65, 4), (260, 512));
}

#[test]
fn row_padding_is_stripped_from_a_mapped_copy() {
    let row = 12_u32;
    let pitch = 256_u32;
    let mut view = vec![0xee_u8; (pitch * 3) as usize];
    for y in 0..3 {
        for i in 0..row {
            view[(y * pitch + i) as usize] = (y * 16 + i) as u8;
        }
    }
    let bytes = strip_row_padding(&view, row, pitch, 3);
    assert_eq!(bytes.len(), 36);
    for y in 0..3 {
        for i in 0..row {
            assert_eq!(bytes[(y * row + i) as usize], (y * 16 + i) as u8);
        }
    }
    assert!(strip_row_padding(&view, row, pitch, 0).is_empty());
}
