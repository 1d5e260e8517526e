//! Pitch accents.
use crate::chars::{copy_list, strs};
use vstd::prelude::*;

verus! {

/// Where a word's pitch falls.
#[derive(Debug, PartialEq, Eq)]
pub enum Position {
    Downstep(u32),
    Pattern(String),
}

/// What a position holds.
#[verifier::ext_equal]
pub enum PositionV {
    Downstep(u32),
    Pattern(Seq<char>),
}

impl Position {
    pub open spec fn v(self) -> PositionV {
        match self {
            Position::Downstep(n) => PositionV::Downstep(n),
            Position::Pattern(p) => PositionV::Pattern(p@),
        }
    }
}

impl Clone for Position {
    fn clone(&self) -> (r: Self)
        ensures
            r.v() == self.v(),
    {
        match self {
            Position::Downstep(n) => Position::Downstep(*n),
            Position::Pattern(p) => Position::Pattern(p.clone()),
        }
    }
}

pub fn same_position(a: &Position, b: &Position) -> (r: bool)
    ensures
        r == (a.v() == b.v()),
{
    match (a, b) {
        (Position::Downstep(x), Position::Downstep(y)) => *x == *y,
        (Position::Pattern(x), Position::Pattern(y)) => *x == *y,
        _ => false,
    }
}

/// One accent, with its nasal and devoiced moras and its tags.
#[derive(Debug, PartialEq, Eq)]
pub struct Accent {
    pub position: Position,
    pub nasal: Vec<u32>,
    pub devoice: Vec<u32>,
    pub tags: Vec<String>,
}

/// What an accent holds.
#[verifier::ext_equal]
pub struct AccentV {
    pub position: PositionV,
    pub nasal: Seq<u32>,
    pub devoice: Seq<u32>,
    pub tags: Seq<Seq<char>>,
}

impl Accent {
    pub open spec fn v(self) -> AccentV {
        AccentV {
            position: self.position.v(),
            nasal: self.nasal@,
            devoice: self.devoice@,
            tags: strs(self.tags@),
        }
    }
}

fn copy_moras(m: &Vec<u32>) -> (r: Vec<u32>)
    ensures
        r@ == m@,
{
    let mut r: Vec<u32> = Vec::new();
    let mut i: usize = 0;
    while i < m.len()
        invariant
            i <= m@.len(),
            r@ == m@.take(i as int),
        decreases m@.len() - i,
    {
        r.push(m[i]);
        i += 1;
    }
    assert(m@.take(i as int) =~= m@);
    r
}

impl Clone for Accent {
    fn clone(&self) -> (r: Self)
        ensures
            r.v() == self.v(),
    {
        Accent {
            position: self.position.clone(),
            nasal: copy_moras(&self.nasal),
            devoice: copy_moras(&self.devoice),
            tags: copy_list(&self.tags),
        }
    }
}

/// One Dictionary's claim for one headword and reading.
#[derive(Debug, PartialEq, Eq)]
pub struct PitchClaim {
    pub dict_id: i64,
    pub accent: Accent,
}

/// What a claim holds.
#[verifier::ext_equal]
pub struct ClaimV {
    pub dict_id: i64,
    pub accent: AccentV,
}

impl PitchClaim {
    pub open spec fn v(self) -> ClaimV {
        ClaimV { dict_id: self.dict_id, accent: self.accent.v() }
    }
}

impl Clone for PitchClaim {
    fn clone(&self) -> (r: Self)
        ensures
            r.v() == self.v(),
    {
        PitchClaim { dict_id: self.dict_id, accent: self.accent.clone() }
    }
}

pub open spec fn claims_v(s: Seq<PitchClaim>) -> Seq<ClaimV> {
    s.map_values(|c: PitchClaim| c.v())
}

} // verus!
