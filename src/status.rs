//! Per-edge fold state and the drawing styles of a document, with the
//! integer codes under which a saved document stores them.
use vstd::prelude::*;

verus! {

/// What the paper does at an edge.
#[derive(Debug, Clone, Copy, PartialEq, Eq, Structural)]
pub enum EdgeStatus {
    /// Never cut, joined or drawn: the edge splits one flat polygon.
    Hidden,
    /// A fold: both faces stay on one island.
    Joined,
    /// A cut; the flag tells on which face's side the glue tab goes.
    Cut(bool),
}

#[derive(Debug, Clone, Copy, PartialEq, Eq, Structural)]
pub enum TabStyle {
    Textured,
    HalfTextured,
    White,
    /// No tabs at all.
    NoTab,
}

#[derive(Debug, Clone, Copy, PartialEq, Eq, Structural)]
pub enum FoldStyle {
    Full,
    FullAndOut,
    Out,
    In,
    InAndOut,
    /// No fold lines at all.
    NoFold,
}

impl EdgeStatus {
    pub open spec fn code_spec(self) -> u32 {
        match self {
            EdgeStatus::Hidden => 0,
            EdgeStatus::Joined => 1,
            EdgeStatus::Cut(false) => 2,
            EdgeStatus::Cut(true) => 3,
        }
    }

    /// The stored code: Hidden 0, Joined 1, Cut(false) 2, Cut(true) 3.
    pub fn code(&self) -> (r: u32)
        ensures
            r == self.code_spec(),
    {
        match self {
            EdgeStatus::Hidden => 0,
            EdgeStatus::Joined => 1,
            EdgeStatus::Cut(false) => 2,
            EdgeStatus::Cut(true) => 3,
        }
    }

    /// The status of a stored code; `None` for a code out of the table.
    pub fn from_code(d: u32) -> (r: Option<EdgeStatus>)
        ensures
            r is Some <==> d < 4,
            r is Some ==> r->0.code_spec() == d,
    {
        match d {
            0 => Some(EdgeStatus::Hidden),
            1 => Some(EdgeStatus::Joined),
            2 => Some(EdgeStatus::Cut(false)),
            3 => Some(EdgeStatus::Cut(true)),
            _ => None,
        }
    }
}

impl TabStyle {
    pub open spec fn code_spec(self) -> u32 {
        match self {
            TabStyle::Textured => 0,
            TabStyle::HalfTextured => 1,
            TabStyle::White => 2,
            TabStyle::NoTab => 3,
        }
    }

    /// The stored code: Textured 0, HalfTextured 1, White 2, NoTab 3.
    pub fn code(&self) -> (r: u32)
        ensures
            r == self.code_spec(),
    {
        match self {
            TabStyle::Textured => 0,
            TabStyle::HalfTextured => 1,
            TabStyle::White => 2,
            TabStyle::NoTab => 3,
        }
    }

    /// The style of a stored code; `None` for a code out of the table.
    pub fn from_code(d: u32) -> (r: Option<TabStyle>)
        ensures
            r is Some <==> d < 4,
            r is Some ==> r->0.code_spec() == d,
    {
        match d {
            0 => Some(TabStyle::Textured),
            1 => Some(TabStyle::HalfTextured),
            2 => Some(TabStyle::White),
            3 => Some(TabStyle::NoTab),
            _ => None,
        }
    }

    /// The style of a document that does not say: Textured.
    pub fn default_style() -> (r: TabStyle)
        ensures
            r == TabStyle::Textured,
    {
        TabStyle::Textured
    }
}

impl FoldStyle {
    pub open spec fn code_spec(self) -> u32 {
        match self {
            FoldStyle::Full => 0,
            FoldStyle::FullAndOut => 1,
            FoldStyle::Out => 2,
            FoldStyle::In => 3,
            FoldStyle::InAndOut => 4,
            FoldStyle::NoFold => 5,
        }
    }

    /// The stored code: Full 0, FullAndOut 1, Out 2, In 3, InAndOut 4, NoFold 5.
    pub fn code(&self) -> (r: u32)
        ensures
            r == self.code_spec(),
    {
        match self {
            FoldStyle::Full => 0,
            FoldStyle::FullAndOut => 1,
            FoldStyle::Out => 2,
            FoldStyle::In => 3,
            FoldStyle::InAndOut => 4,
            FoldStyle::NoFold => 5,
        }
    }

    /// The style of a stored code; `None` for a code out of the table.
    pub fn from_code(d: u32) -> (r: Option<FoldStyle>)
        ensures
            r is Some <==> d < 6,
            r is Some ==> r->0.code_spec() == d,
    {
        match d {
            0 => Some(FoldStyle::Full),
            1 => Some(FoldStyle::FullAndOut),
            2 => Some(FoldStyle::Out),
            3 => Some(FoldStyle::In),
            4 => Some(FoldStyle::InAndOut),
            5 => Some(FoldStyle::NoFold),
            _ => None,
        }
    }

    /// The style of a document that does not say: Full.
    pub fn default_style() -> (r: FoldStyle)
        ensures
            r == FoldStyle::Full,
    {
        FoldStyle::Full
    }
}

/// Reading back the code of an edge status gives the same status, and a
/// code that reads as a status is that status's code.
pub proof fn lemma_edge_status_code_round_trip(s: EdgeStatus, d: u32)
    ensures
        s.code_spec() < 4,
        d < 4 ==> exists|t: EdgeStatus| #[trigger] t.code_spec() == d,
        forall|t: EdgeStatus| #[trigger] t.code_spec() == s.code_spec() ==> t == s,
{
    if d == 0 {
        assert(EdgeStatus::Hidden.code_spec() == d);
    } else if d == 1 {
        assert(EdgeStatus::Joined.code_spec() == d);
    } else if d == 2 {
        assert(EdgeStatus::Cut(false).code_spec() == d);
    } else if d == 3 {
        assert(EdgeStatus::Cut(true).code_spec() == d);
    }
}

} // verus!
