//! The parts of the Tutte embedding that do not touch coordinates: vertex
//! degrees, boundary loops, the choice of the longest loop, the sparse
//! Laplacian's entries and the place of each loop vertex on the circle.
use vstd::prelude::*;
use crate::halfedge::{src_of, tgt_of};
use crate::mesh::{Mesh, MeshError, unpaired, opp_ok, faces_in_range};
use crate::construct::lemma_ends_in_range;
use crate::boundary::{is_loop_from_min, lemma_loop_vertices_distinct};

verus! {

/// How many of the first `k` half-edges start at `v`, plus how many of the
/// unpaired ones among them end at `v`.
pub open spec fn degree_upto(faces: Seq<[usize; 3]>, v: int, k: int) -> int
    decreases k,
{
    if k <= 0 {
        0
    } else {
        degree_upto(faces, v, k - 1) + (if src_of(faces, k - 1) == v { 1int } else { 0 }) + (
        if unpaired(faces, k - 1) && tgt_of(faces, k - 1) == v {
            1int
        } else {
            0
        })
    }
}

/// The degree of vertex `v`: the half-edges that leave it, with each unpaired
/// half-edge that enters it counted once more.
pub open spec fn vertex_degree(faces: Seq<[usize; 3]>, v: int) -> int {
    degree_upto(faces, v, 3 * faces.len() as int)
}

proof fn lemma_degree_bound(faces: Seq<[usize; 3]>, v: int, k: int)
    requires
        0 <= k,
    ensures
        0 <= degree_upto(faces, v, k) <= 2 * k,
    decreases k,
{
    if k > 0 {
        lemma_degree_bound(faces, v, k - 1);
    }
}

/// The degree of every vertex of a built mesh.
pub fn calc_vertices_degree(mesh: &Mesh) -> (r: Vec<usize>)
    requires
        mesh.built(),
    ensures
        r@.len() == mesh.n_vertices,
        forall|v: int| 0 <= v < mesh.n_vertices ==> #[trigger] r@[v] == vertex_degree(mesh.faces@, v),
{
    let n = mesh.n_vertices;
    let nh = mesh.halfedges.len();
    let mut degree: Vec<usize> = Vec::new();
    while degree.len() < n
        invariant
            degree@.len() <= n,
            forall|v: int| 0 <= v < degree@.len() ==> #[trigger] degree@[v] == 0,
        decreases n - degree.len(),
    {
        degree.push(0);
    }
    proof {
        assert forall|h: int| 0 <= h < nh implies ((#[trigger] mesh.halfedges@[h]).h_opp < 0
            <==> unpaired(mesh.faces@, h)) && mesh.halfedges@[h].index == h by {
            assert(opp_ok(mesh.faces@, mesh.halfedges@, h));
        }
    }
    let mut h: usize = 0;
    while h < nh
        invariant
            faces_in_range(mesh.faces@, mesh.n_vertices as int),
            mesh.halfedges@.len() == nh,
            nh <= isize::MAX,
            forall|k: int|
                0 <= k < nh ==> ((#[trigger] mesh.halfedges@[k]).h_opp < 0 <==> unpaired(
                    mesh.faces@,
                    k,
                )) && mesh.halfedges@[k].index == k,
            n == mesh.n_vertices,
            nh == 3 * mesh.faces@.len(),
            h <= nh,
            degree@.len() == n,
            forall|v: int|
                0 <= v < n ==> #[trigger] degree@[v] == degree_upto(mesh.faces@, v, h as int),
        decreases nh - h,
    {
        proof {
            lemma_ends_in_range(mesh.faces@, n as int, h as int);
        }
        let he = mesh.halfedges[h];
        let s = he.v_src(&mesh.faces);
        let t = he.v_tgt(&mesh.faces);
        proof {
            lemma_degree_bound(mesh.faces@, s as int, h as int);
            lemma_degree_bound(mesh.faces@, t as int, h as int);
        }
        let ghost bnd = unpaired(mesh.faces@, h as int);
        assert((he.h_opp < 0) == bnd);
        let ghost before = degree@;
        degree.set(s, degree[s] + 1);
        if he.is_boundary() {
            degree.set(t, degree[t] + 1);
        }
        assert forall|v: int| 0 <= v < n implies #[trigger] degree@[v] == degree_upto(
            mesh.faces@,
            v,
            h + 1,
        ) by {
            assert(degree_upto(mesh.faces@, v, h + 1) == degree_upto(mesh.faces@, v, h as int) + (
            if s == v {
                1int
            } else {
                0
            }) + (if bnd && t == v {
                1int
            } else {
                0
            }));
            assert(before[v] == degree_upto(mesh.faces@, v, h as int));
        }
        h += 1;
    }
    degree
}

/// Whether each vertex below `n` lies on the loop.
pub fn loop_membership(n: usize, loop_vertices: &Vec<usize>) -> (r: Vec<bool>)
    requires
        forall|i: int| 0 <= i < loop_vertices@.len() ==> #[trigger] loop_vertices@[i] < n,
    ensures
        r@.len() == n,
        forall|v: int| 0 <= v < n ==> #[trigger] r@[v] == loop_vertices@.contains(v as usize),
{
    let mut r: Vec<bool> = Vec::new();
    while r.len() < n
        invariant
            r@.len() <= n,
            forall|v: int| 0 <= v < r@.len() ==> !#[trigger] r@[v],
        decreases n - r.len(),
    {
        r.push(false);
    }
    let mut i: usize = 0;
    while i < loop_vertices.len()
        invariant
            i <= loop_vertices@.len(),
            r@.len() == n,
            forall|j: int| 0 <= j < loop_vertices@.len() ==> #[trigger] loop_vertices@[j] < n,
            forall|v: int|
                0 <= v < n ==> #[trigger] r@[v] == loop_vertices@.subrange(0, i as int).contains(
                    v as usize,
                ),
        decreases loop_vertices.len() - i,
    {
        let v = loop_vertices[i];
        r.set(v, true);
        assert forall|w: int| 0 <= w < n implies #[trigger] r@[w] == loop_vertices@.subrange(
            0,
            i + 1,
        ).contains(w as usize) by {
            let s = loop_vertices@.subrange(0, i as int);
            let s1 = loop_vertices@.subrange(0, i + 1);
            assert(s1 == s.push(v));
            if s.contains(w as usize) {
                let j = choose|j: int| 0 <= j < s.len() && s[j] == w as usize;
                assert(s1[j] == w as usize);
            }
            if w == v {
                assert(s1[i as int] == v);
            }
        }
        i += 1;
    }
    assert(loop_vertices@.subrange(0, loop_vertices@.len() as int) == loop_vertices@);
    r
}

/// `s` is the last position of vertex `v` in the loop, or `None` where `v`
/// is not on it.
pub open spec fn slot_ok(loop_vertices: Seq<usize>, v: int, s: Option<usize>) -> bool {
    match s {
        Some(i) => i < loop_vertices.len() && loop_vertices[i as int] == v && forall|j: int|
            i < j < loop_vertices.len() ==> loop_vertices[j] != v,
        None => !loop_vertices.contains(v as usize),
    }
}

/// For each vertex below `n`, its position `i` in the loop, where the solver
/// places it at angle `2 * pi * i / L` on the unit circle (`L` the loop's
/// length); `None` for a vertex off the loop, whose right-hand side is zero.
pub fn circle_slots(n: usize, loop_vertices: &Vec<usize>) -> (r: Vec<Option<usize>>)
    requires
        forall|i: int| 0 <= i < loop_vertices@.len() ==> #[trigger] loop_vertices@[i] < n,
    ensures
        r@.len() == n,
        forall|v: int| 0 <= v < n ==> slot_ok(loop_vertices@, v, #[trigger] r@[v]),
{
    let mut r: Vec<Option<usize>> = Vec::new();
    while r.len() < n
        invariant
            r@.len() <= n,
            forall|v: int| 0 <= v < r@.len() ==> #[trigger] r@[v] is None,
        decreases n - r.len(),
    {
        r.push(None);
    }
    let mut i: usize = 0;
    while i < loop_vertices.len()
        invariant
            i <= loop_vertices@.len(),
            r@.len() == n,
            forall|j: int| 0 <= j < loop_vertices@.len() ==> #[trigger] loop_vertices@[j] < n,
            forall|v: int|
                0 <= v < n ==> match #[trigger] r@[v] {
                    Some(p) => p < i && loop_vertices@[p as int] == v && forall|j: int|
                        p < j < i ==> loop_vertices@[j] != v,
                    None => forall|j: int| 0 <= j < i ==> loop_vertices@[j] != v,
                },
        decreases loop_vertices.len() - i,
    {
        let v = loop_vertices[i];
        r.set(v, Some(i));
        i += 1;
    }
    assert forall|v: int| 0 <= v < n && r@[v] is None implies !loop_vertices@.contains(
        v as usize,
    ) by {
        if loop_vertices@.contains(v as usize) {
            let j = choose|j: int| 0 <= j < loop_vertices@.len() && loop_vertices@[j] == v as usize;
            assert(loop_vertices@[j] == v);
        }
    }
    r
}

/// A coefficient of the Laplacian: one, or minus the reciprocal of a degree.
#[derive(Debug, PartialEq, Eq, Clone, Copy)]
pub enum Coeff {
    Unit,
    NegReciprocal(usize),
}

/// One summand of the sparse Laplacian: `coeff` added at (`row`, `col`).
#[derive(Debug, PartialEq, Eq, Clone, Copy)]
pub struct Triplet {
    pub row: usize,
    pub col: usize,
    pub coeff: Coeff,
}

/// The unit diagonal of an `n` by `n` matrix.
pub open spec fn diagonal_entries(n: nat) -> Seq<Triplet> {
    Seq::new(n, |i: int| Triplet { row: i as usize, col: i as usize, coeff: Coeff::Unit })
}

/// For each of the first `k` half-edges, in order, whose source is off the
/// loop: minus one over the source's degree at (source, target).
pub open spec fn offdiagonal_entries(
    faces: Seq<[usize; 3]>,
    in_loop: Seq<bool>,
    degree: Seq<usize>,
    k: int,
) -> Seq<Triplet>
    decreases k,
{
    if k <= 0 {
        seq![]
    } else {
        let p = offdiagonal_entries(faces, in_loop, degree, k - 1);
        let v = src_of(faces, k - 1);
        if in_loop[v] {
            p
        } else {
            p.push(
                Triplet {
                    row: v as usize,
                    col: tgt_of(faces, k - 1) as usize,
                    coeff: Coeff::NegReciprocal(degree[v]),
                },
            )
        }
    }
}

/// The uniform Laplacian of the mesh with the loop's rows pinned: a unit
/// diagonal, and in each row off the loop, minus one over the row's degree
/// for each half-edge leaving that vertex. Entries at one place add up.
pub fn make_laplacian_triplets(mesh: &Mesh, in_loop: &Vec<bool>, degree: &Vec<usize>) -> (r: Vec<
    Triplet,
>)
    requires
        mesh.built(),
        in_loop@.len() == mesh.n_vertices,
        degree@.len() == mesh.n_vertices,
    ensures
        r@ == diagonal_entries(mesh.n_vertices as nat) + offdiagonal_entries(
            mesh.faces@,
            in_loop@,
            degree@,
            3 * mesh.faces@.len() as int,
        ),
{
    let n = mesh.n_vertices;
    let nh = mesh.halfedges.len();
    let mut r: Vec<Triplet> = Vec::new();
    let mut i: usize = 0;
    while i < n
        invariant
            i <= n,
            r@ == diagonal_entries(i as nat),
        decreases n - i,
    {
        r.push(Triplet { row: i, col: i, coeff: Coeff::Unit });
        assert(r@ =~= diagonal_entries((i + 1) as nat));
        i += 1;
    }
    proof {
        assert forall|h: int| 0 <= h < nh implies (#[trigger] mesh.halfedges@[h]).index == h by {
            assert(opp_ok(mesh.faces@, mesh.halfedges@, h));
        }
    }
    let mut h: usize = 0;
    while h < nh
        invariant
            faces_in_range(mesh.faces@, n as int),
            mesh.halfedges@.len() == nh,
            nh == 3 * mesh.faces@.len(),
            forall|k: int| 0 <= k < nh ==> (#[trigger] mesh.halfedges@[k]).index == k,
            in_loop@.len() == n,
            degree@.len() == n,
            h <= nh,
            r@ == diagonal_entries(n as nat) + offdiagonal_entries(
                mesh.faces@,
                in_loop@,
                degree@,
                h as int,
            ),
        decreases nh - h,
    {
        proof {
            lemma_ends_in_range(mesh.faces@, n as int, h as int);
        }
        let he = mesh.halfedges[h];
        let s = he.v_src(&mesh.faces);
        if !in_loop[s] {
            let t = he.v_tgt(&mesh.faces);
            r.push(Triplet { row: s, col: t, coeff: Coeff::NegReciprocal(degree[s]) });
        }
        proof {
            let d = diagonal_entries(n as nat);
            let p = offdiagonal_entries(mesh.faces@, in_loop@, degree@, h as int);
            let q = offdiagonal_entries(mesh.faces@, in_loop@, degree@, h + 1);
            if !in_loop@[s as int] {
                assert((d + p).push(q.last()) =~= d + q);
            } else {
                assert(q == p);
            }
        }
        h += 1;
    }
    r
}

/// The vertices at which the half-edges of `c` start, in order.
pub open spec fn cycle_vertices(faces: Seq<[usize; 3]>, c: Seq<usize>) -> Seq<usize> {
    Seq::new(c.len(), |t: int| src_of(faces, c[t] as int) as usize)
}

/// `j` is the first position of a largest value in `ls`.
pub open spec fn first_longest(ls: Seq<u64>, j: int) -> bool {
    &&& 0 <= j < ls.len()
    &&& forall|i: int| 0 <= i < ls.len() ==> #[trigger] ls[i] <= ls[j]
    &&& forall|i: int| 0 <= i < j ==> #[trigger] ls[i] < ls[j]
}

/// The first position of a largest length; `None` for no lengths.
pub fn select_longest(lengths: &Vec<u64>) -> (r: Option<usize>)
    ensures
        r is None <==> lengths@.len() == 0,
        r matches Some(j) ==> first_longest(lengths@, j as int),
{
    if lengths.len() == 0 {
        return None;
    }
    let mut best: usize = 0;
    let mut i: usize = 1;
    while i < lengths.len()
        invariant
            1 <= i <= lengths@.len(),
            best < i,
            forall|k: int| 0 <= k < i ==> #[trigger] lengths@[k] <= lengths@[best as int],
            forall|k: int| 0 <= k < best ==> #[trigger] lengths@[k] < lengths@[best as int],
        decreases lengths.len() - i,
    {
        if lengths[i] > lengths[best] {
            best = i;
        }
        i += 1;
    }
    Some(best)
}

/// The vertices at which the given half-edges start, in order.
pub fn cycle_vertex_list(mesh: &Mesh, c: &Vec<usize>) -> (r: Vec<usize>)
    requires
        mesh.built(),
        forall|t: int| 0 <= t < c@.len() ==> #[trigger] c@[t] < mesh.halfedges@.len(),
    ensures
        r@ == cycle_vertices(mesh.faces@, c@),
{
    let mut r: Vec<usize> = Vec::new();
    let mut t: usize = 0;
    while t < c.len()
        invariant
            mesh.built(),
            forall|s: int| 0 <= s < c@.len() ==> #[trigger] c@[s] < mesh.halfedges@.len(),
            t <= c@.len(),
            r@ == cycle_vertices(mesh.faces@, c@.subrange(0, t as int)),
        decreases c.len() - t,
    {
        let h = c[t];
        assert(opp_ok(mesh.faces@, mesh.halfedges@, h as int));
        let v = mesh.halfedges[h].v_src(&mesh.faces);
        r.push(v);
        assert(r@ =~= cycle_vertices(mesh.faces@, c@.subrange(0, t + 1)));
        t += 1;
    }
    assert(c@.subrange(0, c@.len() as int) == c@);
    r
}

/// The vertex sequence of the boundary loop with the largest length, the
/// first such loop where several tie. `lengths[i]` is the length of
/// `cycles[i]` as an order-preserving key. Fails with `NoBoundary` when
/// there is no loop.
pub fn compute_longest_boundary_cycle(
    mesh: &Mesh,
    cycles: &Vec<Vec<usize>>,
    lengths: &Vec<u64>,
) -> (r: Result<Vec<usize>, MeshError>)
    requires
        mesh.built(),
        lengths@.len() == cycles@.len(),
        forall|i: int, t: int|
            0 <= i < cycles@.len() && 0 <= t < cycles@[i]@.len() ==> #[trigger] cycles@[i]@[t]
                < mesh.halfedges@.len(),
    ensures
        r is Err <==> cycles@.len() == 0,
        r is Err ==> r == Err::<Vec<usize>, MeshError>(MeshError::NoBoundary),
        r matches Ok(vs) ==> exists|j: int|
            first_longest(lengths@, j) && vs@ == cycle_vertices(mesh.faces@, cycles@[j]@),
        cycles@.len() == 1 ==> (r matches Ok(vs) && vs@ == cycle_vertices(
            mesh.faces@,
            cycles@[0]@,
        )),
{
    match select_longest(lengths) {
        None => Err(MeshError::NoBoundary),
        Some(j) => {
            let vs = cycle_vertex_list(mesh, &cycles[j]);
            Ok(vs)
        },
    }
}

/// The linear system of the embedding, without its numbers: the Laplacian's
/// summands, the circle slot of each vertex, and the loop's length `L`.
/// Vertex `v` with slot `Some(i)` has right-hand side
/// `(cos(2 * pi * i / L), sin(2 * pi * i / L))`; the others have zero.
pub struct TutteSystem {
    pub triplets: Vec<Triplet>,
    pub slots: Vec<Option<usize>>,
    pub loop_len: usize,
}

/// Builds the system for the longest boundary loop (the first among equals):
/// that loop's vertices are pinned to the circle in loop order, and every
/// other vertex is the mean of its neighbours. `lengths[i]` is the length of
/// `cycles[i]` as an order-preserving key. Fails with `NoBoundary` when there
/// is no loop.
pub fn assemble_system(mesh: &Mesh, cycles: &Vec<Vec<usize>>, lengths: &Vec<u64>) -> (r: Result<
    TutteSystem,
    MeshError,
>)
    requires
        mesh.built(),
        lengths@.len() == cycles@.len(),
        forall|i: int, t: int|
            0 <= i < cycles@.len() && 0 <= t < cycles@[i]@.len() ==> #[trigger] cycles@[i]@[t]
                < mesh.halfedges@.len(),
    ensures
        r is Err <==> cycles@.len() == 0,
        r is Err ==> r == Err::<TutteSystem, MeshError>(MeshError::NoBoundary),
        r matches Ok(sys) ==> exists|j: int|
            #![trigger first_longest(lengths@, j)]
            {
                let lv = cycle_vertices(mesh.faces@, cycles@[j]@);
                &&& first_longest(lengths@, j)
                &&& sys.loop_len == lv.len()
                &&& sys.slots@.len() == mesh.n_vertices
                &&& forall|v: int|
                    0 <= v < mesh.n_vertices ==> slot_ok(lv, v, #[trigger] sys.slots@[v])
                &&& sys.triplets@ == diagonal_entries(mesh.n_vertices as nat)
                    + offdiagonal_entries(
                    mesh.faces@,
                    Seq::new(mesh.n_vertices as nat, |v: int| lv.contains(v as usize)),
                    Seq::new(
                        mesh.n_vertices as nat,
                        |v: int| vertex_degree(mesh.faces@, v) as usize,
                    ),
                    3 * mesh.faces@.len() as int,
                )
            },
{
    let lv = match compute_longest_boundary_cycle(mesh, cycles, lengths) {
        Ok(lv) => lv,
        Err(e) => {
            return Err(e);
        },
    };
    let n = mesh.n_vertices;
    proof {
        assert forall|t: int| 0 <= t < lv@.len() implies #[trigger] lv@[t] < n by {
            let j = choose|j: int|
                first_longest(lengths@, j) && lv@ == cycle_vertices(mesh.faces@, cycles@[j]@);
            lemma_ends_in_range(mesh.faces@, n as int, cycles@[j]@[t] as int);
        }
    }
    let degree = calc_vertices_degree(mesh);
    let in_loop = loop_membership(n, &lv);
    let triplets = make_laplacian_triplets(mesh, &in_loop, &degree);
    let slots = circle_slots(n, &lv);
    proof {
        assert(in_loop@ =~= Seq::new(n as nat, |v: int| lv@.contains(v as usize)));
        assert(degree@ =~= Seq::new(n as nat, |v: int| vertex_degree(mesh.faces@, v) as usize));
    }
    Ok(TutteSystem { triplets, slots, loop_len: lv.len() })
}

/// How many entries of `es` lie in row `v`.
pub open spec fn row_count(es: Seq<Triplet>, v: int) -> int
    decreases es.len(),
{
    if es.len() == 0 {
        0
    } else {
        row_count(es.drop_last(), v) + if es.last().row == v {
            1int
        } else {
            0
        }
    }
}

/// How many of the first `k` half-edges start at `v`.
pub open spec fn out_upto(faces: Seq<[usize; 3]>, v: int, k: int) -> int
    decreases k,
{
    if k <= 0 {
        0
    } else {
        out_upto(faces, v, k - 1) + if src_of(faces, k - 1) == v {
            1int
        } else {
            0
        }
    }
}

proof fn lemma_row_prefix(
    faces: Seq<[usize; 3]>,
    in_loop: Seq<bool>,
    degree: Seq<usize>,
    v: int,
    k: int,
)
    requires
        0 <= k <= 3 * faces.len(),
        faces_in_range(faces, in_loop.len() as int),
        degree.len() == in_loop.len(),
        0 <= v < in_loop.len(),
        !in_loop[v],
        forall|h: int| 0 <= h < 3 * faces.len() && unpaired(faces, h) ==> tgt_of(faces, h) != v,
    ensures
        row_count(offdiagonal_entries(faces, in_loop, degree, k), v) == out_upto(faces, v, k),
        out_upto(faces, v, k) == degree_upto(faces, v, k),
        forall|t: int|
            0 <= t < offdiagonal_entries(faces, in_loop, degree, k).len() && (
            #[trigger] offdiagonal_entries(faces, in_loop, degree, k)[t]).row == v
                ==> offdiagonal_entries(faces, in_loop, degree, k)[t].coeff
                == Coeff::NegReciprocal(degree[v]),
    decreases k,
{
    if k > 0 {
        lemma_row_prefix(faces, in_loop, degree, v, k - 1);
        lemma_ends_in_range(faces, in_loop.len() as int, k - 1);
        let p = offdiagonal_entries(faces, in_loop, degree, k - 1);
        let q = offdiagonal_entries(faces, in_loop, degree, k);
        if !in_loop[src_of(faces, k - 1)] {
            assert(q.drop_last() == p);
            assert forall|t: int| 0 <= t < q.len() && (#[trigger] q[t]).row == v implies q[t].coeff
                == Coeff::NegReciprocal(degree[v]) by {
                if t < p.len() {
                    assert(q[t] == p[t]);
                }
            }
        }
    }
}

/// In the Laplacian, the row of a vertex that is off the pinned loop and
/// that no boundary half-edge enters holds one off-diagonal summand per
/// half-edge leaving it, as many as its degree, each minus one over that
/// degree: with the unit diagonal, the row says that the vertex is the mean
/// of its neighbours.
pub proof fn lemma_interior_row_is_mean(
    faces: Seq<[usize; 3]>,
    in_loop: Seq<bool>,
    degree: Seq<usize>,
    v: int,
)
    requires
        3 * faces.len() <= isize::MAX,
        faces_in_range(faces, in_loop.len() as int),
        degree.len() == in_loop.len(),
        forall|w: int| 0 <= w < degree.len() ==> #[trigger] degree[w] == vertex_degree(faces, w),
        0 <= v < in_loop.len(),
        !in_loop[v],
        forall|h: int| 0 <= h < 3 * faces.len() && unpaired(faces, h) ==> tgt_of(faces, h) != v,
    ensures
        row_count(offdiagonal_entries(faces, in_loop, degree, 3 * faces.len() as int), v)
            == degree[v],
        forall|t: int|
            0 <= t < offdiagonal_entries(faces, in_loop, degree, 3 * faces.len() as int).len() && (
            #[trigger] offdiagonal_entries(faces, in_loop, degree, 3 * faces.len() as int)[t]).row
                == v ==> offdiagonal_entries(faces, in_loop, degree, 3 * faces.len() as int)[t].coeff
                == Coeff::NegReciprocal(degree[v]),
{
    lemma_row_prefix(faces, in_loop, degree, v, 3 * faces.len() as int);
}

/// A vertex at position `i` of a boundary loop stands nowhere else on it,
/// so its circle slot is `i`: the loop's vertices go round the circle in
/// traversal order.
pub proof fn lemma_loop_slot_is_position(m: Mesh, c: Seq<usize>, i: int, s: Option<usize>)
    requires
        m.built(),
        is_loop_from_min(m, c),
        0 <= i < c.len(),
        slot_ok(cycle_vertices(m.faces@, c), src_of(m.faces@, c[i] as int), s),
    ensures
        s == Some(i as usize),
{
    lemma_loop_vertices_distinct(m, c);
    let lv = cycle_vertices(m.faces@, c);
    assert(lv[i] == src_of(m.faces@, c[i] as int));
    match s {
        Some(p) => {
            if (p as int) < i {
                assert(lv[p as int] == lv[i]);
            }
        },
        None => {
            assert(lv.contains(lv[i]));
        },
    }
}

} // verus!
