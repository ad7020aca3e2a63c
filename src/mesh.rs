//! The mesh topology and the half-edge builder.
use vstd::prelude::*;
use crate::halfedge::{Halfedge, src_of, tgt_of, decode_next, next_in_face, prev_in_face};
use crate::construct::{faces_fit, edge_buckets, pair_up, outgoing, encode};

verus! {

/// Why a face list cannot be given a half-edge structure.
#[derive(Debug, PartialEq, Eq, Clone, Copy)]
pub enum MeshError {
    /// A face names a vertex index that is not below the vertex count.
    VertexOutOfRange,
    /// More than two half-edges lie on one undirected edge.
    NonManifoldEdge,
    /// Boundary half-edges do not form simple chains through their vertices:
    /// a vertex starts or ends two boundary half-edges, or a boundary
    /// half-edge ends where no boundary half-edge starts.
    NonManifoldVertex,
    /// The mesh has no boundary half-edge at all.
    NoBoundary,
}

/// Every corner of every face is a vertex index below `n`.
pub open spec fn faces_in_range(faces: Seq<[usize; 3]>, n: int) -> bool {
    forall|f: int, k: int| 0 <= f < faces.len() && 0 <= k < 3 ==> (#[trigger] faces[f][k]) < n
}

/// The smaller end of half-edge `h`.
pub open spec fn edge_lo(faces: Seq<[usize; 3]>, h: int) -> int {
    if src_of(faces, h) <= tgt_of(faces, h) { src_of(faces, h) } else { tgt_of(faces, h) }
}

/// The larger end of half-edge `h`.
pub open spec fn edge_hi(faces: Seq<[usize; 3]>, h: int) -> int {
    if src_of(faces, h) <= tgt_of(faces, h) { tgt_of(faces, h) } else { src_of(faces, h) }
}

/// Half-edges `h` and `k` lie on the same undirected edge.
pub open spec fn same_edge(faces: Seq<[usize; 3]>, h: int, k: int) -> bool {
    edge_lo(faces, h) == edge_lo(faces, k) && edge_hi(faces, h) == edge_hi(faces, k)
}

/// Half-edge `h` shares its undirected edge with no other half-edge.
pub open spec fn unpaired(faces: Seq<[usize; 3]>, h: int) -> bool {
    forall|k: int| 0 <= k < 3 * faces.len() && k != h ==> !#[trigger] same_edge(faces, h, k)
}

/// No undirected edge carries three half-edges.
#[verifier::opaque]
pub open spec fn edge_manifold(faces: Seq<[usize; 3]>) -> bool {
    forall|a: int, b: int, c: int|
        0 <= a < 3 * faces.len() && 0 <= b < 3 * faces.len() && 0 <= c < 3 * faces.len()
            && a != b && a != c && b != c ==> !(#[trigger] same_edge(faces, a, b)
            && #[trigger] same_edge(faces, a, c))
}

/// No vertex starts two unpaired half-edges.
pub open spec fn boundary_src_unique(faces: Seq<[usize; 3]>) -> bool {
    forall|a: int, b: int|
        0 <= a < 3 * faces.len() && 0 <= b < 3 * faces.len() && unpaired(faces, a) && unpaired(
            faces,
            b,
        ) && #[trigger] src_of(faces, a) == #[trigger] src_of(faces, b) ==> a == b
}

/// No vertex ends two unpaired half-edges.
pub open spec fn boundary_tgt_unique(faces: Seq<[usize; 3]>) -> bool {
    forall|a: int, b: int|
        0 <= a < 3 * faces.len() && 0 <= b < 3 * faces.len() && unpaired(faces, a) && unpaired(
            faces,
            b,
        ) && #[trigger] tgt_of(faces, a) == #[trigger] tgt_of(faces, b) ==> a == b
}

/// Where an unpaired half-edge ends, an unpaired half-edge starts.
#[verifier::opaque]
pub open spec fn boundary_continues(faces: Seq<[usize; 3]>) -> bool {
    forall|a: int|
        0 <= a < 3 * faces.len() && #[trigger] unpaired(faces, a) ==> exists|b: int|
            0 <= b < 3 * faces.len() && unpaired(faces, b) && #[trigger] src_of(faces, b)
                == tgt_of(faces, a)
}

/// The unpaired half-edges form simple chains through their vertices.
pub open spec fn boundary_manifold(faces: Seq<[usize; 3]>) -> bool {
    &&& boundary_src_unique(faces)
    &&& boundary_tgt_unique(faces)
    &&& boundary_continues(faces)
}

/// What the builder guarantees of the opposite link of half-edge `h`.
pub open spec fn opp_ok(faces: Seq<[usize; 3]>, hs: Seq<Halfedge>, h: int) -> bool {
    let nh = 3 * faces.len();
    let o = hs[h].h_opp as int;
    &&& hs[h].index == h
    &&& (o < 0 <==> unpaired(faces, h))
    &&& o >= 0 ==> o < nh && o != h && same_edge(faces, h, o) && hs[o].h_opp == h
    &&& o < 0 ==> {
        let n = decode_next(o);
        0 <= n < nh && hs[n].h_opp < 0 && src_of(faces, n) == tgt_of(faces, h)
    }
}

/// What the builder guarantees of the outgoing entry of the source of `h`:
/// it starts there, and it is `h` itself when `h` is unpaired.
pub open spec fn out_ok(faces: Seq<[usize; 3]>, h_out: Seq<usize>, h: int) -> bool {
    let v = src_of(faces, h);
    let o = h_out[v];
    &&& o < 3 * faces.len()
    &&& src_of(faces, o as int) == v
    &&& unpaired(faces, h) ==> o == h
}

/// A triangle mesh's topology: the vertex count, the faces as vertex triples,
/// and once built, the half-edges and one outgoing half-edge per vertex.
/// `h_out[v]` leaves `v`; where a boundary half-edge leaves `v` it is that
/// one, so that the boundary chain runs from each boundary half-edge to the
/// `h_out` entry of its target.
pub struct Mesh {
    pub n_vertices: usize,
    pub faces: Vec<[usize; 3]>,
    pub halfedges: Vec<Halfedge>,
    pub h_out: Vec<usize>,
}

impl Mesh {
    /// The half-edge structure has been built for the current faces.
    pub open spec fn built(&self) -> bool {
        let faces = self.faces@;
        let hs = self.halfedges@;
        let nh = 3 * faces.len();
        &&& nh <= isize::MAX
        &&& faces_in_range(faces, self.n_vertices as int)
        &&& edge_manifold(faces)
        &&& boundary_manifold(faces)
        &&& hs.len() == nh
        &&& self.h_out@.len() == self.n_vertices
        &&& forall|h: int| 0 <= h < nh ==> #[trigger] opp_ok(faces, hs, h)
        &&& forall|h: int| 0 <= h < nh ==> #[trigger] out_ok(faces, self.h_out@, h)
    }

    /// Half-edge `h` is a boundary half-edge of a built mesh.
    pub open spec fn is_boundary_he(&self, h: int) -> bool {
        0 <= h < self.halfedges@.len() && self.halfedges@[h].h_opp < 0
    }

    /// The next boundary half-edge after boundary half-edge `h`.
    pub open spec fn next_b(&self, h: int) -> int {
        decode_next(self.halfedges@[h].h_opp as int)
    }

    /// An empty mesh.
    pub fn new() -> (r: Mesh)
        ensures
            r.n_vertices == 0,
            r.faces@.len() == 0,
            r.halfedges@.len() == 0,
            r.h_out@.len() == 0,
    {
        Mesh { n_vertices: 0, faces: Vec::new(), halfedges: Vec::new(), h_out: Vec::new() }
    }

    /// A mesh with `n_vertices` vertices and the given faces, not built yet.
    pub fn from_faces(n_vertices: usize, faces: Vec<[usize; 3]>) -> (r: Mesh)
        ensures
            r.n_vertices == n_vertices,
            r.faces@ == faces@,
            r.halfedges@.len() == 0,
            r.h_out@.len() == 0,
    {
        Mesh { n_vertices, faces, halfedges: Vec::new(), h_out: Vec::new() }
    }

    /// Builds the half-edges and the outgoing table from the faces.
    /// Half-edge `3 * f + j` of face `f` runs between its corners other than
    /// `j`; two half-edges on one undirected edge are each other's opposite,
    /// and an unpaired half-edge points to the next one around its hole.
    /// On failure the mesh is left as it was.
    pub fn construct_halfedge_list(&mut self) -> (r: Result<(), MeshError>)
        requires
            3 * old(self).faces@.len() <= isize::MAX,
        ensures
            final(self).n_vertices == old(self).n_vertices,
            final(self).faces@ == old(self).faces@,
            r is Ok <==> faces_in_range(old(self).faces@, old(self).n_vertices as int)
                && edge_manifold(old(self).faces@) && boundary_manifold(old(self).faces@),
            r matches Err(MeshError::VertexOutOfRange) <==> !faces_in_range(
                old(self).faces@,
                old(self).n_vertices as int,
            ),
            r matches Err(MeshError::NonManifoldEdge) <==> faces_in_range(
                old(self).faces@,
                old(self).n_vertices as int,
            ) && !edge_manifold(old(self).faces@),
            r matches Err(MeshError::NonManifoldVertex) <==> faces_in_range(
                old(self).faces@,
                old(self).n_vertices as int,
            ) && edge_manifold(old(self).faces@) && !boundary_manifold(old(self).faces@),
            r is Ok ==> final(self).built(),
            r is Ok ==> final(self).halfedges@.len() == 3 * old(self).faces@.len(),
            r is Ok ==> forall|h: int|
                0 <= h < final(self).halfedges@.len() && final(self).halfedges@[h].h_opp >= 0
                    ==> {
                    let o = #[trigger] final(self).halfedges@[h].h_opp as int;
                    &&& 0 <= o < final(self).halfedges@.len()
                    &&& o != h
                    &&& final(self).halfedges@[o].h_opp == h
                },
            r is Err ==> *final(self) == *old(self),
    {
        let n = self.n_vertices;
        if !faces_fit(&self.faces, n) {
            return Err(MeshError::VertexOutOfRange);
        }
        let buckets = edge_buckets(&self.faces, n);
        let opp = match pair_up(&self.faces, n, &buckets) {
            Some(o) => o,
            None => {
                return Err(MeshError::NonManifoldEdge);
            },
        };
        let (ho, bout) = match outgoing(&self.faces, n, &opp) {
            Some(x) => x,
            None => {
                return Err(MeshError::NonManifoldVertex);
            },
        };
        let hs = match encode(&self.faces, n, &opp, &ho, &bout) {
            Some(x) => x,
            None => {
                return Err(MeshError::NonManifoldVertex);
            },
        };
        self.halfedges = hs;
        self.h_out = ho;
        proof {
            assert forall|h: int|
                0 <= h < self.halfedges@.len() && self.halfedges@[h].h_opp >= 0 implies {
                let o = #[trigger] self.halfedges@[h].h_opp as int;
                &&& 0 <= o < self.halfedges@.len()
                &&& o != h
                &&& self.halfedges@[o].h_opp == h
            } by {
                assert(opp_ok(self.faces@, self.halfedges@, h));
            }
        }
        Ok(())
    }

    /// Turns clockwise about the source of half-edge `index`: the half-edge
    /// after its opposite, or the boundary link where it has no opposite. A
    /// negative `index` is handed back unchanged.
    pub fn h_cw(&self, index: isize) -> (r: isize)
        requires
            self.built(),
            index < self.halfedges@.len(),
        ensures
            index < 0 ==> r == index,
            index >= 0 && self.halfedges@[index as int].h_opp < 0 ==> r
                == self.halfedges@[index as int].h_opp,
            index >= 0 && self.halfedges@[index as int].h_opp >= 0 ==> r == next_in_face(
                self.halfedges@[index as int].h_opp as int,
            ),
    {
        if index < 0 {
            index
        } else if self.halfedges[index as usize].h_opp < 0 {
            self.halfedges[index as usize].h_opp
        } else {
            let o = self.halfedges[index as usize].h_opp as usize;
            assert(opp_ok(self.faces@, self.halfedges@, index as int));
            assert(opp_ok(self.faces@, self.halfedges@, o as int));
            self.halfedges[o].h_next() as isize
        }
    }

    /// Turns counter-clockwise about the source of half-edge `index`: the
    /// opposite link of the half-edge before it in its face. A negative
    /// `index` is handed back unchanged.
    pub fn h_ccw(&self, index: isize) -> (r: isize)
        requires
            self.built(),
            index < self.halfedges@.len(),
        ensures
            index < 0 ==> r == index,
            index >= 0 ==> r == self.halfedges@[prev_in_face(index as int)].h_opp,
    {
        if index < 0 {
            index
        } else {
            let i = index as usize;
            assert(opp_ok(self.faces@, self.halfedges@, i as int));
            let ghost nf = self.faces@.len() as int;
            assert(prev_in_face(i as int) < 3 * nf) by (nonlinear_arith)
                requires
                    0 <= i < 3 * nf,
                    prev_in_face(i as int) == if i % 3 == 0 { i + 2 } else { i - 1 },
            ;
            let p = self.halfedges[i].h_prev();
            self.halfedges[p].h_opp
        }
    }
}

} // verus!
