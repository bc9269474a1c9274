//! A square plunger whose one engraved glyph is its entire label.

use vstd::prelude::*;

use crate::chrome::mechanism::MechanismSize;

verus! {

/// Material and cutter treatment applied to a monoglyph's mark.
#[derive(Clone, Copy, Debug, Default, PartialEq, Eq, Hash, PartialOrd, Ord)]
pub enum MonoglyphFinish {
    /// A shallow action cut dominated by its illuminated fresh-bronze wall.
    #[default]
    BrightCut,
    /// A steep, flat-bottomed engraving whose floor is soot black.
    Void,
    /// A steep, flat-bottomed engraving filled with rough blood-ochre paint.
    Danger,
    /// A steep, flat-bottomed engraving filled with rough deep-pink paint.
    Love,
}

/// Whether a finish is cut flat-bottomed and steep (every finish but the
/// bright cut).
pub open spec fn is_flat_cut(finish: MonoglyphFinish) -> bool {
    finish != MonoglyphFinish::BrightCut
}

impl MonoglyphFinish {
    /// Complete finish register in stable gallery order.
    pub const ALL: [MonoglyphFinish; 4] = [
        MonoglyphFinish::BrightCut,
        MonoglyphFinish::Void,
        MonoglyphFinish::Danger,
        MonoglyphFinish::Love,
    ];

    /// Stable material name for galleries and instrumentation.
    pub fn name(self) -> (n: &'static str)
        ensures
            self == MonoglyphFinish::BrightCut ==> n@ == "BRIGHT CUT"@,
            self == MonoglyphFinish::Void ==> n@ == "VOID"@,
            self == MonoglyphFinish::Danger ==> n@ == "DANGER"@,
            self == MonoglyphFinish::Love ==> n@ == "LOVE"@,
    {
        match self {
            MonoglyphFinish::BrightCut => "BRIGHT CUT",
            MonoglyphFinish::Void => "VOID",
            MonoglyphFinish::Danger => "DANGER",
            MonoglyphFinish::Love => "LOVE",
        }
    }

    /// Whether the mark is a steep flat-bottomed engraving rather than the
    /// shallow bright cut.
    pub fn flat_cut(self) -> (f: bool)
        ensures
            f == is_flat_cut(self),
            f == (self != MonoglyphFinish::BrightCut),
    {
        match self {
            MonoglyphFinish::BrightCut => false,
            _ => true,
        }
    }
}

/// A square Poolrooms button carrying exactly one engraved glyph.
#[derive(Clone, Copy, Debug, PartialEq, Eq)]
pub struct Monoglyph {
    glyph: char,
    size: MechanismSize,
    finish: MonoglyphFinish,
    focusable: bool,
}

impl Monoglyph {
    pub closed spec fn spec_glyph(self) -> char {
        self.glyph
    }

    pub closed spec fn spec_size(self) -> MechanismSize {
        self.size
    }

    pub closed spec fn spec_finish(self) -> MonoglyphFinish {
        self.finish
    }

    pub closed spec fn spec_focusable(self) -> bool {
        self.focusable
    }

    /// This button with its gauge replaced by `size`.
    pub closed spec fn with_size(self, size: MechanismSize) -> Monoglyph {
        Monoglyph { size, ..self }
    }

    /// This button with its finish replaced by `finish`.
    pub closed spec fn with_finish(self, finish: MonoglyphFinish) -> Monoglyph {
        Monoglyph { finish, ..self }
    }

    /// This button with its focus setting replaced by `focusable`.
    pub closed spec fn with_focus(self, focusable: bool) -> Monoglyph {
        Monoglyph { focusable, ..self }
    }

    /// Forge a momentary button around one Unicode scalar: large gauge,
    /// bright cut, in the focus order.
    pub fn new(glyph: char) -> (m: Monoglyph)
        ensures
            m.spec_glyph() == glyph,
            m.spec_size() == MechanismSize::Large,
            m.spec_finish() == MonoglyphFinish::BrightCut,
            m.spec_focusable(),
    {
        Monoglyph {
            glyph,
            size: MechanismSize::Large,
            finish: MonoglyphFinish::BrightCut,
            focusable: true,
        }
    }

    /// Select a build-time forged square footprint.
    pub fn size(self, size: MechanismSize) -> (m: Monoglyph)
        ensures
            m == self.with_size(size),
            m.spec_size() == size,
            m.spec_glyph() == self.spec_glyph(),
            m.spec_finish() == self.spec_finish(),
            m.spec_focusable() == self.spec_focusable(),
    {
        Monoglyph { size, ..self }
    }

    /// Override the glyph's finish.
    pub fn finish(self, finish: MonoglyphFinish) -> (m: Monoglyph)
        ensures
            m == self.with_finish(finish),
            m.spec_finish() == finish,
            m.spec_glyph() == self.spec_glyph(),
            m.spec_size() == self.spec_size(),
            m.spec_focusable() == self.spec_focusable(),
    {
        Monoglyph { finish, ..self }
    }

    /// Include or omit this actuator from keyboard focus traversal.
    pub fn focusable(self, focusable: bool) -> (m: Monoglyph)
        ensures
            m == self.with_focus(focusable),
            m.spec_focusable() == focusable,
            m.spec_glyph() == self.spec_glyph(),
            m.spec_size() == self.spec_size(),
            m.spec_finish() == self.spec_finish(),
    {
        Monoglyph { focusable, ..self }
    }

    /// The engraved glyph.
    pub fn glyph(self) -> (c: char)
        ensures
            c == self.spec_glyph(),
    {
        self.glyph
    }

    /// The selected gauge.
    pub fn gauge(self) -> (s: MechanismSize)
        ensures
            s == self.spec_size(),
    {
        self.size
    }

    /// The selected finish.
    pub fn mark_finish(self) -> (f: MonoglyphFinish)
        ensures
            f == self.spec_finish(),
    {
        self.finish
    }

    /// Whether the actuator takes keyboard focus.
    pub fn takes_focus(self) -> (b: bool)
        ensures
            b == self.spec_focusable(),
    {
        self.focusable
    }
}

/// A button is its settings: two buttons with the same glyph, gauge, finish
/// and focus setting are the same button.
pub proof fn lemma_monoglyph_is_its_settings(a: Monoglyph, b: Monoglyph)
    ensures
        (a.spec_glyph() == b.spec_glyph() && a.spec_size() == b.spec_size() && a.spec_finish()
            == b.spec_finish() && a.spec_focusable() == b.spec_focusable()) <==> a == b,
{
}

/// Each builder replaces its own setting and keeps the others: the last
/// choice of a setting wins, choosing the setting a button already has
/// changes nothing, and builders of different settings commute.
pub proof fn lemma_builders_replace_one_setting(
    m: Monoglyph,
    s1: MechanismSize,
    s2: MechanismSize,
    f1: MonoglyphFinish,
    f2: MonoglyphFinish,
    b1: bool,
    b2: bool,
)
    ensures
        m.with_size(s1).spec_size() == s1,
        m.with_size(s1).spec_glyph() == m.spec_glyph(),
        m.with_size(s1).spec_finish() == m.spec_finish(),
        m.with_size(s1).spec_focusable() == m.spec_focusable(),
        m.with_finish(f1).spec_finish() == f1,
        m.with_finish(f1).spec_glyph() == m.spec_glyph(),
        m.with_finish(f1).spec_size() == m.spec_size(),
        m.with_finish(f1).spec_focusable() == m.spec_focusable(),
        m.with_focus(b1).spec_focusable() == b1,
        m.with_focus(b1).spec_glyph() == m.spec_glyph(),
        m.with_focus(b1).spec_size() == m.spec_size(),
        m.with_focus(b1).spec_finish() == m.spec_finish(),
        m.with_size(s1).with_size(s2) == m.with_size(s2),
        m.with_finish(f1).with_finish(f2) == m.with_finish(f2),
        m.with_focus(b1).with_focus(b2) == m.with_focus(b2),
        m.with_size(m.spec_size()) == m,
        m.with_finish(m.spec_finish()) == m,
        m.with_focus(m.spec_focusable()) == m,
        m.with_size(s1).with_finish(f1) == m.with_finish(f1).with_size(s1),
        m.with_size(s1).with_focus(b1) == m.with_focus(b1).with_size(s1),
        m.with_finish(f1).with_focus(b1) == m.with_focus(b1).with_finish(f1),
{
}

/// The void, danger and love finishes are the steep, flat-bottomed
/// engravings (soot, blood-ochre and deep-pink fills); the bright cut alone
/// is shallow. So three of the four finishes of the register are flat cuts.
pub proof fn lemma_filled_finishes_are_flat_cuts(f: MonoglyphFinish)
    ensures
        is_flat_cut(MonoglyphFinish::Void),
        is_flat_cut(MonoglyphFinish::Danger),
        is_flat_cut(MonoglyphFinish::Love),
        !is_flat_cut(MonoglyphFinish::BrightCut),
        is_flat_cut(f) <==> (f == MonoglyphFinish::Void || f == MonoglyphFinish::Danger || f
            == MonoglyphFinish::Love),
{
}

} // verus!