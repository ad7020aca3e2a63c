//! Half-edges of a triangle list: half-edge `3 * f + j` belongs to face `f`
//! and runs between the two corners other than corner `j`.
use vstd::prelude::*;

verus! {

/// The source vertex of half-edge `h` in the face list `faces`.
pub open spec fn src_of(faces: Seq<[usize; 3]>, h: int) -> int {
    faces[h / 3][(h + 1) % 3] as int
}

/// The target vertex of half-edge `h` in the face list `faces`.
pub open spec fn tgt_of(faces: Seq<[usize; 3]>, h: int) -> int {
    faces[h / 3][(h + 2) % 3] as int
}

/// The index of the half-edge that follows `h` inside its face.
pub open spec fn next_in_face(h: int) -> int {
    if h % 3 == 2 { h - 2 } else { h + 1 }
}

/// The index of the half-edge that precedes `h` inside its face.
pub open spec fn prev_in_face(h: int) -> int {
    if h % 3 == 0 { h + 2 } else { h - 1 }
}

/// Where a boundary half-edge whose `h_opp` is `opp` leads: `-opp - 1`.
pub open spec fn decode_next(opp: int) -> int {
    -opp - 1
}

/// One half-edge. `h_opp` is the index of the paired half-edge when it is
/// non-negative; a negative `h_opp` marks a boundary half-edge and encodes the
/// next boundary half-edge around the same hole as `-h_opp - 1`.
#[derive(Debug, PartialEq, Eq, Clone, Copy)]
pub struct Halfedge {
    pub index: usize,
    pub h_opp: isize,
}

impl Halfedge {
    pub fn new(he_idx: usize) -> (r: Halfedge)
        ensures
            r.index == he_idx,
            r.h_opp == 0,
    {
        Halfedge { index: he_idx, h_opp: 0 }
    }

    pub fn face(&self) -> (r: usize)
        ensures
            r == self.index / 3,
    {
        self.index / 3
    }

    pub fn h_next(&self) -> (r: usize)
        requires
            self.index < usize::MAX,
        ensures
            r == next_in_face(self.index as int),
    {
        if self.index % 3 == 2 {
            self.index - 2
        } else {
            self.index + 1
        }
    }

    pub fn h_prev(&self) -> (r: usize)
        requires
            self.index % 3 != 0 || self.index + 2 <= usize::MAX,
        ensures
            r == prev_in_face(self.index as int),
    {
        if self.index % 3 == 0 {
            self.index + 2
        } else {
            self.index - 1
        }
    }

    pub fn v_src(&self, faces: &Vec<[usize; 3]>) -> (r: usize)
        requires
            self.index < 3 * faces@.len(),
        ensures
            r == src_of(faces@, self.index as int),
    {
        faces[self.face()][(self.index % 3 + 1) % 3]
    }

    pub fn v_tgt(&self, faces: &Vec<[usize; 3]>) -> (r: usize)
        requires
            self.index < 3 * faces@.len(),
        ensures
            r == tgt_of(faces@, self.index as int),
    {
        faces[self.face()][(self.index % 3 + 2) % 3]
    }

    pub fn is_boundary(&self) -> (r: bool)
        ensures
            r == (self.h_opp < 0),
    {
        self.h_opp < 0
    }

    pub fn is_not_boundary(&self) -> (r: bool)
        ensures
            r == (self.h_opp >= 0),
    {
        !self.is_boundary()
    }

    /// The next boundary half-edge around the hole, for a boundary half-edge.
    pub fn next_boundary(&self) -> (r: usize)
        requires
            self.h_opp < 0,
        ensures
            r == decode_next(self.h_opp as int),
    {
        (-(self.h_opp + 1)) as usize
    }
}

} // verus!
