//! Boundary loops: following the chain of boundary half-edges, the proof
//! that it always comes back to where it started, and the extraction of all
//! loops of a built mesh.
use vstd::prelude::*;
use vstd::set_lib::{set_int_range, lemma_int_range, lemma_len_subset};
use crate::halfedge::{src_of, tgt_of};
use crate::mesh::{Mesh, opp_ok, unpaired};

verus! {

/// The half-edge reached from `h` after `k` steps along the boundary chain.
pub open spec fn iter_next(m: Mesh, h: int, k: nat) -> int
    decreases k,
{
    if k == 0 {
        h
    } else {
        m.next_b(iter_next(m, h, (k - 1) as nat))
    }
}

/// One step from a boundary half-edge leads to a boundary half-edge that
/// starts where the first one ends.
pub proof fn lemma_next_step(m: Mesh, h: int)
    requires
        m.built(),
        m.is_boundary_he(h),
    ensures
        m.is_boundary_he(m.next_b(h)),
        src_of(m.faces@, m.next_b(h)) == tgt_of(m.faces@, h),
        unpaired(m.faces@, h),
{
    assert(opp_ok(m.faces@, m.halfedges@, h));
}

/// Any number of steps from a boundary half-edge stays on the boundary.
pub proof fn lemma_iter_boundary(m: Mesh, h: int, k: nat)
    requires
        m.built(),
        m.is_boundary_he(h),
    ensures
        m.is_boundary_he(iter_next(m, h, k)),
    decreases k,
{
    if k > 0 {
        lemma_iter_boundary(m, h, (k - 1) as nat);
        lemma_next_step(m, iter_next(m, h, (k - 1) as nat));
    }
}

/// Two boundary half-edges with the same successor are the same.
pub proof fn lemma_next_injective(m: Mesh, a: int, b: int)
    requires
        m.built(),
        m.is_boundary_he(a),
        m.is_boundary_he(b),
        m.next_b(a) == m.next_b(b),
    ensures
        a == b,
{
    lemma_next_step(m, a);
    lemma_next_step(m, b);
    assert(tgt_of(m.faces@, a) == tgt_of(m.faces@, b));
}

/// Walking `a` steps and then `b` steps is walking `a + b` steps.
pub proof fn lemma_iter_add(m: Mesh, h: int, a: nat, b: nat)
    ensures
        iter_next(m, iter_next(m, h, a), b) == iter_next(m, h, a + b),
    decreases b,
{
    if b > 0 {
        lemma_iter_add(m, h, a, (b - 1) as nat);
    }
}

/// Where the walk from `h` meets itself, it meets `h`.
pub proof fn lemma_iter_cancel(m: Mesh, h: int, i: nat, j: nat)
    requires
        m.built(),
        m.is_boundary_he(h),
        i <= j,
        iter_next(m, h, i) == iter_next(m, h, j),
    ensures
        iter_next(m, h, (j - i) as nat) == h,
    decreases i,
{
    if i > 0 {
        lemma_iter_boundary(m, h, (i - 1) as nat);
        lemma_iter_boundary(m, h, (j - 1) as nat);
        lemma_next_injective(m, iter_next(m, h, (i - 1) as nat), iter_next(m, h, (j - 1) as nat));
        lemma_iter_cancel(m, h, (i - 1) as nat, (j - 1) as nat);
    }
}

/// The walk from a boundary half-edge comes back to it within as many steps
/// as there are half-edges.
proof fn lemma_returns(m: Mesh, h: int)
    requires
        m.built(),
        m.is_boundary_he(h),
    ensures
        exists|k: nat| 1 <= k <= m.halfedges@.len() && iter_next(m, h, k) == h,
{
    let nh = m.halfedges@.len() as int;
    if forall|k: nat| 1 <= k <= nh ==> iter_next(m, h, k) != h {
        let s = Seq::new((nh + 1) as nat, |i: int| iter_next(m, h, i as nat));
        assert forall|i: int, j: int| 0 <= i < s.len() && 0 <= j < s.len() && i != j implies s[i]
            != s[j] by {
            if s[i] == s[j] {
                if i < j {
                    lemma_iter_cancel(m, h, i as nat, j as nat);
                    assert(iter_next(m, h, (j - i) as nat) != h);
                } else {
                    lemma_iter_cancel(m, h, j as nat, i as nat);
                    assert(iter_next(m, h, (i - j) as nat) != h);
                }
            }
        }
        assert(s.no_duplicates());
        s.unique_seq_to_set();
        assert forall|x: int| s.to_set().contains(x) implies set_int_range(0, nh).contains(x) by {
            let i = choose|i: int| 0 <= i < s.len() && s[i] == x;
            lemma_iter_boundary(m, h, i as nat);
        }
        lemma_int_range(0, nh);
        lemma_len_subset(s.to_set(), set_int_range(0, nh));
    }
}

/// The first return of the walk from `h`, searched from step `k` on.
proof fn lemma_first_return(m: Mesh, h: int, k: nat, bound: nat) -> (r: nat)
    requires
        1 <= k <= bound,
        iter_next(m, h, bound) == h,
        forall|j: nat| 0 < j < k ==> #[trigger] iter_next(m, h, j) != h,
    ensures
        k <= r <= bound,
        iter_next(m, h, r) == h,
        forall|j: nat| 0 < j < r ==> #[trigger] iter_next(m, h, j) != h,
    decreases bound - k,
{
    if iter_next(m, h, k) == h {
        k
    } else {
        lemma_first_return(m, h, k + 1, bound)
    }
}

/// The chain of boundary half-edges through `h` is a closed loop: after some
/// `k` steps, and not before, the walk is back at `h`; every half-edge on the
/// way is a boundary half-edge, and the `k` half-edges start at `k` distinct
/// vertices, so `k` is the loop's vertex count.
pub proof fn lemma_boundary_loop_closes(m: Mesh, h: int) -> (k: nat)
    requires
        m.built(),
        m.is_boundary_he(h),
    ensures
        1 <= k <= m.halfedges@.len(),
        iter_next(m, h, k) == h,
        forall|j: nat| 0 < j < k ==> #[trigger] iter_next(m, h, j) != h,
        forall|j: nat| #[trigger] m.is_boundary_he(iter_next(m, h, j)),
        forall|i: nat, j: nat|
            i < j < k ==> src_of(m.faces@, #[trigger] iter_next(m, h, i)) != src_of(
                m.faces@,
                #[trigger] iter_next(m, h, j),
            ),
{
    lemma_returns(m, h);
    let bound = choose|k: nat| 1 <= k <= m.halfedges@.len() && iter_next(m, h, k) == h;
    let k = lemma_first_return(m, h, 1, bound);
    assert forall|j: nat| #[trigger] m.is_boundary_he(iter_next(m, h, j)) by {
        lemma_iter_boundary(m, h, j);
    }
    assert forall|i: nat, j: nat| i < j < k implies src_of(m.faces@, #[trigger] iter_next(m, h, i))
        != src_of(m.faces@, #[trigger] iter_next(m, h, j)) by {
        let a = iter_next(m, h, i);
        let b = iter_next(m, h, j);
        lemma_iter_boundary(m, h, i);
        lemma_iter_boundary(m, h, j);
        lemma_next_step(m, a);
        lemma_next_step(m, b);
        if src_of(m.faces@, a) == src_of(m.faces@, b) {
            assert(a == b);
            lemma_iter_cancel(m, h, i, j);
            assert(iter_next(m, h, (j - i) as nat) != h);
        }
    }
    k
}

/// `c` is the loop of boundary half-edges that starts at `c[0]`, followed
/// once around, and `c[0]` is its smallest index.
pub open spec fn is_loop_from_min(m: Mesh, c: Seq<usize>) -> bool {
    &&& c.len() >= 1
    &&& m.is_boundary_he(c[0] as int)
    &&& iter_next(m, c[0] as int, c.len()) == c[0]
    &&& forall|t: int| 0 <= t < c.len() ==> #[trigger] c[t] == iter_next(m, c[0] as int, t as nat)
    &&& forall|t: int| 0 < t < c.len() ==> #[trigger] c[t] != c[0]
    &&& forall|t: int| 0 <= t < c.len() ==> c[0] <= #[trigger] c[t]
}

/// `cs` holds every boundary loop of `m` once, each from its smallest
/// half-edge, ordered by that smallest half-edge.
pub open spec fn all_boundary_loops(m: Mesh, cs: Seq<Vec<usize>>) -> bool {
    &&& forall|i: int| 0 <= i < cs.len() ==> is_loop_from_min(m, #[trigger] cs[i]@)
    &&& forall|i: int, j: int| 0 <= i < j < cs.len() ==> #[trigger] cs[i]@[0] < #[trigger] cs[j]@[0]
    &&& forall|h: int|
        #[trigger] m.is_boundary_he(h) ==> exists|i: int, t: int|
            0 <= i < cs.len() && 0 <= t < cs[i]@.len() && #[trigger] cs[i]@[t] == h
}

/// A set of half-edges, given by flags, that the chain never leaves.
pub open spec fn chain_closed(m: Mesh, visited: Seq<bool>) -> bool {
    forall|x: int|
        0 <= x < visited.len() && #[trigger] visited[x] ==> m.is_boundary_he(x) && m.is_boundary_he(
            m.next_b(x),
        ) && visited[m.next_b(x)]
}

proof fn lemma_closed_iter(m: Mesh, visited: Seq<bool>, x: int, d: nat)
    requires
        chain_closed(m, visited),
        visited.len() == m.halfedges@.len(),
        0 <= x < visited.len(),
        visited[x],
        m.built(),
    ensures
        0 <= iter_next(m, x, d) < visited.len(),
        visited[iter_next(m, x, d)],
    decreases d,
{
    if d > 0 {
        lemma_closed_iter(m, visited, x, (d - 1) as nat);
        lemma_next_step(m, iter_next(m, x, (d - 1) as nat));
    }
}

/// Follows the boundary chain from `h`, an unvisited boundary half-edge
/// past every visited one below it, once around; marks the loop visited.
fn follow_loop(mesh: &Mesh, h: usize, visited: &mut Vec<bool>) -> (c: Vec<usize>)
    requires
        mesh.built(),
        old(visited)@.len() == mesh.halfedges@.len(),
        chain_closed(*mesh, old(visited)@),
        mesh.is_boundary_he(h as int),
        !old(visited)@[h as int],
        forall|x: int| 0 <= x < h && #[trigger] mesh.is_boundary_he(x) ==> old(visited)@[x],
    ensures
        is_loop_from_min(*mesh, c@),
        c@[0] == h,
        final(visited)@.len() == old(visited)@.len(),
        chain_closed(*mesh, final(visited)@),
        forall|x: int|
            0 <= x < old(visited)@.len() ==> #[trigger] final(visited)@[x] == (old(visited)@[x]
                || c@.contains(x as usize)),
{
    let nh = mesh.halfedges.len();
    let ghost m = *mesh;
    let ghost old_v = visited@;
    let ghost k = lemma_boundary_loop_closes(m, h as int);
    assert(chain_closed(m, old_v));
    let mut c: Vec<usize> = Vec::new();
    c.push(h);
    visited.set(h, true);
    let mut cur = mesh.halfedges[h].next_boundary();
    assert(iter_next(m, h as int, 0) == h);
    assert(cur == iter_next(m, h as int, 1));
    assert forall|x: int| 0 <= x < nh implies #[trigger] visited@[x] == (old_v[x]
        || c@.contains(x as usize)) by {
        if x == h {
            assert(c@[0] == h);
        }
    }
    while cur != h
        invariant
            m == *mesh,
            mesh.built(),
            nh == mesh.halfedges@.len(),
            h < nh,
            !old_v[h as int],
            visited@.len() == nh,
            old_v.len() == nh,
            1 <= k <= nh,
            iter_next(m, h as int, k) == h,
            forall|j: nat| 0 < j < k ==> #[trigger] iter_next(m, h as int, j) != h,
            forall|j: nat| #[trigger] m.is_boundary_he(iter_next(m, h as int, j)),
            1 <= c@.len() <= k,
            cur == iter_next(m, h as int, c@.len()),
            forall|t: int|
                0 <= t < c@.len() ==> #[trigger] c@[t] == iter_next(m, h as int, t as nat),
            forall|x: int|
                0 <= x < nh ==> #[trigger] visited@[x] == (old_v[x] || c@.contains(
                    x as usize,
                )),
        decreases k - c@.len(),
    {
        assert(c@.len() < k);
        assert(m.is_boundary_he(iter_next(m, h as int, c@.len())));
        let ghost before = c@;
        c.push(cur);
        visited.set(cur, true);
        proof {
            assert forall|x: int| 0 <= x < nh implies #[trigger] visited@[x] == (old_v[x]
                || c@.contains(x as usize)) by {
                if before.contains(x as usize) {
                    let t = choose|t: int| 0 <= t < before.len() && before[t] == x as usize;
                    assert(c@[t] == x as usize);
                }
                if x == cur {
                    assert(c@[before.len() as int] == cur);
                }
            }
        }
        cur = mesh.halfedges[cur].next_boundary();
    }
    proof {
        let len = c@.len();
        assert(len == k);
        assert forall|t: int| 0 <= t < c@.len() implies c@[0] <= #[trigger] c@[t] by {
            let x = iter_next(m, h as int, t as nat);
            assert(m.is_boundary_he(x));
            if x < h {
                assert(old_v[x]);
                lemma_closed_iter(m, old_v, x, (k - t) as nat);
                lemma_iter_add(m, h as int, t as nat, (k - t) as nat);
            }
        }
        assert forall|x: int|
            0 <= x < nh && #[trigger] visited@[x] implies m.is_boundary_he(x) && m.is_boundary_he(
            m.next_b(x),
        ) && visited@[m.next_b(x)] by {
            if old_v[x] {
                assert(m.is_boundary_he(x) && old_v[m.next_b(x)]);
            } else {
                let t = choose|t: int| 0 <= t < c@.len() && c@[t] == x as usize;
                lemma_next_step(m, x);
                assert(m.next_b(x) == iter_next(m, h as int, (t + 1) as nat));
                if t + 1 < k {
                    assert(c@[t + 1] == m.next_b(x));
                } else {
                    assert(c@[0] == m.next_b(x));
                }
            }
        }
    }
    c
}

/// All boundary loops of the mesh as sequences of half-edge indices. Each
/// loop starts at its smallest half-edge and follows the boundary chain;
/// the loops come in the order of their smallest half-edge.
pub fn boundary_cycles(mesh: &Mesh) -> (r: Vec<Vec<usize>>)
    requires
        mesh.built(),
    ensures
        all_boundary_loops(*mesh, r@),
{
    let ghost m = *mesh;
    let nh = mesh.halfedges.len();
    let mut visited: Vec<bool> = Vec::new();
    while visited.len() < nh
        invariant
            visited@.len() <= nh,
            forall|x: int| 0 <= x < visited@.len() ==> !#[trigger] visited@[x],
        decreases nh - visited.len(),
    {
        visited.push(false);
    }
    let mut cycles: Vec<Vec<usize>> = Vec::new();
    let mut h: usize = 0;
    while h < nh
        invariant
            m == *mesh,
            mesh.built(),
            nh == mesh.halfedges@.len(),
            h <= nh,
            visited@.len() == nh,
            chain_closed(m, visited@),
            forall|x: int| 0 <= x < h && #[trigger] m.is_boundary_he(x) ==> visited@[x],
            forall|x: int|
                0 <= x < nh && #[trigger] visited@[x] ==> exists|i: int, t: int|
                    0 <= i < cycles@.len() && 0 <= t < cycles@[i]@.len() && #[trigger] cycles@[i]@[t]
                        == x,
            forall|i: int| 0 <= i < cycles@.len() ==> is_loop_from_min(m, #[trigger] cycles@[i]@),
            forall|i: int| 0 <= i < cycles@.len() ==> #[trigger] cycles@[i]@[0] < h,
            forall|i: int, j: int|
                0 <= i < j < cycles@.len() ==> #[trigger] cycles@[i]@[0] < #[trigger] cycles@[j]@[0],
        decreases nh - h,
    {
        if mesh.halfedges[h].is_boundary() && !visited[h] {
            let ghost old_v = visited@;
            let c = follow_loop(mesh, h, &mut visited);
            let ghost cs = c@;
            let ghost prev = cycles@;
            cycles.push(c);
            proof {
                assert(cycles@[prev.len() as int]@ == cs);
                assert forall|x: int| 0 <= x < nh && #[trigger] visited@[x] implies exists|
                    i: int,
                    t: int,
                |
                    0 <= i < cycles@.len() && 0 <= t < cycles@[i]@.len() && #[trigger] cycles@[i]@[t]
                        == x by {
                    if old_v[x] {
                        let (i, t) = choose|i: int, t: int|
                            0 <= i < prev.len() && 0 <= t < prev[i]@.len() && #[trigger] prev[i]@[t]
                                == x;
                        assert(cycles@[i] == prev[i]);
                    } else {
                        let t = choose|t: int| 0 <= t < cs.len() && cs[t] == x as usize;
                        assert(cycles@[prev.len() as int]@[t] == x);
                    }
                }
                assert forall|i: int| 0 <= i < cycles@.len() implies is_loop_from_min(
                    m,
                    #[trigger] cycles@[i]@,
                ) by {
                    if i < prev.len() {
                        assert(cycles@[i] == prev[i]);
                    }
                }
            }
        }
        proof {
            assert forall|i: int| 0 <= i < cycles@.len() implies #[trigger] cycles@[i]@[0] < h + 1 by {
            }
        }
        h += 1;
    }
    proof {
        assert forall|x: int| #[trigger] m.is_boundary_he(x) implies exists|i: int, t: int|
            0 <= i < cycles@.len() && 0 <= t < cycles@[i]@.len() && #[trigger] cycles@[i]@[t]
                == x by {
            assert(visited@[x]);
        }
    }
    cycles
}

/// The half-edges of a boundary loop start at pairwise distinct vertices.
pub proof fn lemma_loop_vertices_distinct(m: Mesh, c: Seq<usize>)
    requires
        m.built(),
        is_loop_from_min(m, c),
    ensures
        forall|i: int, j: int|
            0 <= i < j < c.len() ==> src_of(m.faces@, #[trigger] c[i] as int) != src_of(
                m.faces@,
                #[trigger] c[j] as int,
            ),
{
    let h = c[0] as int;
    let k = lemma_boundary_loop_closes(m, h);
    if k < c.len() {
        assert(c[k as int] == iter_next(m, h, k));
    }
    if k > c.len() {
        assert(iter_next(m, h, c.len()) != h);
    }
    assert forall|i: int, j: int| 0 <= i < j < c.len() implies src_of(
        m.faces@,
        #[trigger] c[i] as int,
    ) != src_of(m.faces@, #[trigger] c[j] as int) by {
        assert(c[i] == iter_next(m, h, i as nat));
        assert(c[j] == iter_next(m, h, j as nat));
    }
}

} // verus!
