//! The steps of the half-edge builder: range check, grouping half-edges by
//! undirected edge, pairing, and the outgoing table with the boundary chain.
use vstd::prelude::*;
use crate::halfedge::{Halfedge, src_of, tgt_of, decode_next};
use crate::mesh::{
    faces_in_range, edge_lo, edge_hi, same_edge, unpaired, edge_manifold, boundary_src_unique,
    boundary_tgt_unique, boundary_continues, out_ok, opp_ok,
};

verus! {

/// Both ends of half-edge `h` are vertices below `n`.
pub proof fn lemma_ends_in_range(faces: Seq<[usize; 3]>, n: int, h: int)
    requires
        faces_in_range(faces, n),
        0 <= h < 3 * faces.len(),
    ensures
        0 <= src_of(faces, h) < n,
        0 <= tgt_of(faces, h) < n,
        0 <= edge_lo(faces, h) < n,
        0 <= edge_hi(faces, h) < n,
{
    assert(0 <= h / 3 < faces.len());
    assert(faces[h / 3][(h + 1) % 3] < n);
    assert(faces[h / 3][(h + 2) % 3] < n);
}

/// The smaller and the larger end of half-edge `h`.
pub fn edge_key(faces: &Vec<[usize; 3]>, h: usize) -> (r: (usize, usize))
    requires
        h < 3 * faces@.len(),
    ensures
        r.0 == edge_lo(faces@, h as int),
        r.1 == edge_hi(faces@, h as int),
{
    let he = Halfedge::new(h);
    let s = he.v_src(faces);
    let t = he.v_tgt(faces);
    if s <= t {
        (s, t)
    } else {
        (t, s)
    }
}

/// Whether every corner of every face is below `n`.
pub fn faces_fit(faces: &Vec<[usize; 3]>, n: usize) -> (r: bool)
    ensures
        r == faces_in_range(faces@, n as int),
{
    let mut f: usize = 0;
    while f < faces.len()
        invariant
            f <= faces@.len(),
            forall|g: int, k: int| 0 <= g < f && 0 <= k < 3 ==> #[trigger] faces@[g][k] < n,
        decreases faces.len() - f,
    {
        let tri = faces[f];
        if tri[0] >= n || tri[1] >= n || tri[2] >= n {
            return false;
        }
        assert(forall|k: int| 0 <= k < 3 ==> #[trigger] faces@[f as int][k] < n);
        f += 1;
    }
    true
}

/// The half-edges grouped by the smaller end of their undirected edge.
pub open spec fn buckets_ok(faces: Seq<[usize; 3]>, n: int, b: Seq<Vec<usize>>) -> bool {
    &&& b.len() == n
    &&& forall|v: int, t: int|
        0 <= v < n && 0 <= t < b[v]@.len() ==> #[trigger] b[v]@[t] < 3 * faces.len()
            && edge_lo(faces, b[v]@[t] as int) == v
    &&& forall|k: int|
        0 <= k < 3 * faces.len() ==> #[trigger] b[edge_lo(faces, k)]@.contains(k as usize)
}

pub fn edge_buckets(faces: &Vec<[usize; 3]>, n: usize) -> (b: Vec<Vec<usize>>)
    requires
        faces_in_range(faces@, n as int),
        3 * faces@.len() <= usize::MAX,
    ensures
        buckets_ok(faces@, n as int, b@),
{
    let mut b: Vec<Vec<usize>> = Vec::new();
    while b.len() < n
        invariant
            b@.len() <= n,
            forall|v: int| 0 <= v < b@.len() ==> (#[trigger] b@[v])@.len() == 0,
        decreases n - b.len(),
    {
        b.push(Vec::new());
    }
    let nh = 3 * faces.len();
    let mut h: usize = 0;
    while h < nh
        invariant
            nh == 3 * faces@.len(),
            faces_in_range(faces@, n as int),
            h <= nh,
            b@.len() == n,
            forall|v: int, t: int|
                0 <= v < n && 0 <= t < b@[v]@.len() ==> #[trigger] b@[v]@[t] < h
                    && edge_lo(faces@, b@[v]@[t] as int) == v,
            forall|k: int| 0 <= k < h ==> #[trigger] b@[edge_lo(faces@, k)]@.contains(k as usize),
        decreases nh - h,
    {
        proof {
            lemma_ends_in_range(faces@, n as int, h as int);
        }
        let (lo, _hi) = edge_key(faces, h);
        let ghost before = b@;
        b[lo].push(h);
        assert forall|k: int| 0 <= k < h + 1 implies #[trigger] b@[edge_lo(faces@, k)]@.contains(
            k as usize,
        ) by {
            if k < h {
                lemma_ends_in_range(faces@, n as int, k);
                assert(before[edge_lo(faces@, k)]@.contains(k as usize));
                let t = choose|t: int|
                    0 <= t < before[edge_lo(faces@, k)]@.len() && before[edge_lo(
                        faces@,
                        k,
                    )]@[t] == k as usize;
                assert(b@[edge_lo(faces@, k)]@[t] == k as usize);
            } else {
                assert(b@[lo as int]@[before[lo as int]@.len() as int] == h);
            }
        }
        h += 1;
    }
    b
}

/// What pairing found for half-edge `h`: its partner and the fact that no
/// third half-edge shares the edge, or -1 and that it is unpaired.
pub open spec fn pair_ok(faces: Seq<[usize; 3]>, opp: Seq<isize>, h: int) -> bool {
    let o = opp[h] as int;
    &&& o >= 0 ==> o < 3 * faces.len() && o != h && same_edge(faces, h, o) && forall|k: int|
        0 <= k < 3 * faces.len() && #[trigger] same_edge(faces, h, k) ==> k == h || k == o
    &&& o < 0 ==> o == -1 && unpaired(faces, h)
}

/// The partner of each half-edge, or -1 where it has none; `None` when some
/// undirected edge carries three half-edges.
pub fn pair_up(faces: &Vec<[usize; 3]>, n: usize, b: &Vec<Vec<usize>>) -> (r: Option<Vec<isize>>)
    requires
        faces_in_range(faces@, n as int),
        buckets_ok(faces@, n as int, b@),
        3 * faces@.len() <= isize::MAX,
    ensures
        r is Some <==> edge_manifold(faces@),
        r matches Some(opp) ==> opp@.len() == 3 * faces@.len() && forall|h: int|
            0 <= h < 3 * faces@.len() ==> #[trigger] pair_ok(faces@, opp@, h),
{
    let nh = 3 * faces.len();
    let mut opp: Vec<isize> = Vec::new();
    let mut h: usize = 0;
    while h < nh
        invariant
            nh == 3 * faces@.len(),
            nh <= isize::MAX,
            faces_in_range(faces@, n as int),
            buckets_ok(faces@, n as int, b@),
            h <= nh,
            opp@.len() == h,
            forall|j: int| 0 <= j < h ==> #[trigger] pair_ok(faces@, opp@, j),
        decreases nh - h,
    {
        proof {
            lemma_ends_in_range(faces@, n as int, h as int);
        }
        let (lo, hi) = edge_key(faces, h);
        let bucket = &b[lo];
        let mut found: bool = false;
        let mut first: usize = 0;
        let mut t: usize = 0;
        while t < bucket.len()
            invariant
                nh == 3 * faces@.len(),
                h < nh,
                lo == edge_lo(faces@, h as int),
                hi == edge_hi(faces@, h as int),
                bucket@ == b@[lo as int]@,
                lo < n,
                buckets_ok(faces@, n as int, b@),
                t <= bucket@.len(),
                found ==> first < nh && first != h && same_edge(faces@, h as int, first as int),
                forall|s: int|
                    0 <= s < t && #[trigger] bucket@[s] != h && same_edge(
                        faces@,
                        h as int,
                        bucket@[s] as int,
                    ) ==> found && bucket@[s] == first,
            decreases bucket.len() - t,
        {
            let k = bucket[t];
            assert(k < nh && edge_lo(faces@, k as int) == lo) by {
                assert(b@[lo as int]@[t as int] == k);
            }
            if k != h {
                let (klo, khi) = edge_key(faces, k);
                if klo == lo && khi == hi {
                    if !found {
                        found = true;
                        first = k;
                    } else if k != first {
                        assert(same_edge(faces@, h as int, first as int) && same_edge(
                            faces@,
                            h as int,
                            k as int,
                        ));
                        proof {
                            reveal(edge_manifold);
                        }
                        return None;
                    }
                }
            }
            t += 1;
        }
        assert forall|k: int| 0 <= k < nh && k != h && #[trigger] same_edge(faces@, h as int, k)
            implies found && k == first by {
            assert(b@[edge_lo(faces@, k)]@.contains(k as usize));
            let s = choose|s: int| 0 <= s < bucket@.len() && bucket@[s] == k as usize;
            assert(bucket@[s] == k as usize);
        }
        let ghost prev = opp@;
        if found {
            opp.push(first as isize);
        } else {
            opp.push(-1);
        }
        assert forall|j: int| 0 <= j < h + 1 implies #[trigger] pair_ok(faces@, opp@, j) by {
            if j < h {
                assert(pair_ok(faces@, prev, j));
                assert(opp@[j] == prev[j]);
            }
        }
        h += 1;
    }
    reveal(edge_manifold);
    assert forall|a: int, bb: int, c: int|
        0 <= a < nh && 0 <= bb < nh && 0 <= c < nh && a != bb && a != c && bb != c implies !(
    #[trigger] same_edge(faces@, a, bb) && #[trigger] same_edge(faces@, a, c)) by {
        assert(pair_ok(faces@, opp@, a));
        if same_edge(faces@, a, bb) && same_edge(faces@, a, c) {
            assert(!unpaired(faces@, a));
        }
    }
    Some(opp)
}

} // verus!

verus! {

/// Pairing is an involution: a half-edge's partner has it as partner.
pub proof fn lemma_pair_involution(faces: Seq<[usize; 3]>, opp: Seq<isize>, h: int)
    requires
        opp.len() == 3 * faces.len(),
        forall|j: int| 0 <= j < 3 * faces.len() ==> #[trigger] pair_ok(faces, opp, j),
        0 <= h < 3 * faces.len(),
        opp[h] >= 0,
    ensures
        opp[opp[h] as int] == h,
{
    let o = opp[h] as int;
    assert(pair_ok(faces, opp, h));
    assert(pair_ok(faces, opp, o));
    assert(same_edge(faces, o, h));
    assert(!unpaired(faces, o));
}

/// The outgoing table: for each vertex, its unpaired outgoing half-edge if it
/// has one, else the first half-edge that leaves it (0 for a vertex no
/// half-edge leaves); beside it, whether the vertex starts an unpaired one.
/// `None` when a vertex starts or ends two unpaired half-edges.
pub fn outgoing(faces: &Vec<[usize; 3]>, n: usize, opp: &Vec<isize>) -> (r: Option<
    (Vec<usize>, Vec<bool>),
>)
    requires
        faces_in_range(faces@, n as int),
        3 * faces@.len() <= isize::MAX,
        opp@.len() == 3 * faces@.len(),
        forall|j: int| 0 <= j < 3 * faces@.len() ==> #[trigger] pair_ok(faces@, opp@, j),
    ensures
        r is Some <==> boundary_src_unique(faces@) && boundary_tgt_unique(faces@),
        r matches Some((ho, bout)) ==> {
            &&& ho@.len() == n
            &&& bout@.len() == n
            &&& forall|h: int| 0 <= h < 3 * faces@.len() ==> #[trigger] out_ok(faces@, ho@, h)
            &&& forall|h: int|
                0 <= h < 3 * faces@.len() && #[trigger] unpaired(faces@, h) ==> bout@[src_of(
                    faces@,
                    h,
                )]
            &&& forall|v: int|
                0 <= v < n && #[trigger] bout@[v] ==> ho@[v] < 3 * faces@.len() && unpaired(
                    faces@,
                    ho@[v] as int,
                ) && src_of(faces@, ho@[v] as int) == v
        },
{
    let nh = 3 * faces.len();
    let mut ho: Vec<usize> = Vec::new();
    let mut set: Vec<bool> = Vec::new();
    let mut bout: Vec<bool> = Vec::new();
    let mut bin: Vec<bool> = Vec::new();
    let mut inc: Vec<usize> = Vec::new();
    while ho.len() < n
        invariant
            ho@.len() <= n,
            set@.len() == ho@.len(),
            bout@.len() == ho@.len(),
            bin@.len() == ho@.len(),
            inc@.len() == ho@.len(),
            forall|v: int| 0 <= v < ho@.len() ==> !(#[trigger] set@[v]),
            forall|v: int| 0 <= v < ho@.len() ==> !(#[trigger] bout@[v]),
            forall|v: int| 0 <= v < ho@.len() ==> !(#[trigger] bin@[v]),
        decreases n - ho.len(),
    {
        ho.push(0);
        set.push(false);
        bout.push(false);
        bin.push(false);
        inc.push(0);
    }
    let mut h: usize = 0;
    while h < nh
        invariant
            nh == 3 * faces@.len(),
            faces_in_range(faces@, n as int),
            opp@.len() == nh,
            forall|j: int| 0 <= j < nh ==> #[trigger] pair_ok(faces@, opp@, j),
            h <= nh,
            ho@.len() == n,
            set@.len() == n,
            bout@.len() == n,
            bin@.len() == n,
            inc@.len() == n,
            forall|v: int|
                0 <= v < n && #[trigger] set@[v] ==> ho@[v] < h && src_of(faces@, ho@[v] as int)
                    == v,
            forall|k: int| 0 <= k < h ==> #[trigger] set@[src_of(faces@, k)],
            forall|k: int|
                0 <= k < h && #[trigger] unpaired(faces@, k) ==> bout@[src_of(faces@, k)]
                    && ho@[src_of(faces@, k)] == k && bin@[tgt_of(faces@, k)] && inc@[tgt_of(
                    faces@,
                    k,
                )] == k,
            forall|v: int|
                0 <= v < n && #[trigger] bout@[v] ==> set@[v] && unpaired(faces@, ho@[v] as int),
            forall|v: int|
                0 <= v < n && #[trigger] bin@[v] ==> inc@[v] < h && unpaired(
                    faces@,
                    inc@[v] as int,
                ) && tgt_of(faces@, inc@[v] as int) == v,
        decreases nh - h,
    {
        proof {
            lemma_ends_in_range(faces@, n as int, h as int);
        }
        let he = Halfedge::new(h);
        let v = he.v_src(faces);
        let t = he.v_tgt(faces);
        assert(pair_ok(faces@, opp@, h as int));
        assert(opp@[h as int] < 0 <==> unpaired(faces@, h as int));
        if opp[h] < 0 {
            if bout[v] {
                assert(src_of(faces@, ho@[v as int] as int) == src_of(faces@, h as int));
                return None;
            }
            if bin[t] {
                assert(tgt_of(faces@, inc@[t as int] as int) == tgt_of(faces@, h as int));
                return None;
            }
            ho.set(v, h);
            set.set(v, true);
            bout.set(v, true);
            bin.set(t, true);
            inc.set(t, h);
        } else if !set[v] {
            ho.set(v, h);
            set.set(v, true);
        }
        proof {
            assert forall|k: int| 0 <= k < h + 1 implies #[trigger] set@[src_of(faces@, k)] by {
                if k < h {
                    lemma_ends_in_range(faces@, n as int, k);
                }
            }
            assert forall|k: int|
                0 <= k < h + 1 && #[trigger] unpaired(faces@, k) implies bout@[src_of(faces@, k)]
                && ho@[src_of(faces@, k)] == k && bin@[tgt_of(faces@, k)] && inc@[tgt_of(
                faces@,
                k,
            )] == k by {
                lemma_ends_in_range(faces@, n as int, k);
            }
        }
        h += 1;
    }
    proof {
        assert forall|h: int| 0 <= h < nh implies #[trigger] out_ok(faces@, ho@, h) by {
            lemma_ends_in_range(faces@, n as int, h);
            assert(set@[src_of(faces@, h)]);
        }
        assert forall|a: int, b: int|
            0 <= a < nh && 0 <= b < nh && unpaired(faces@, a) && unpaired(faces@, b)
                && #[trigger] src_of(faces@, a) == #[trigger] src_of(faces@, b) implies a == b by {
            lemma_ends_in_range(faces@, n as int, a);
        }
        assert forall|a: int, b: int|
            0 <= a < nh && 0 <= b < nh && unpaired(faces@, a) && unpaired(faces@, b)
                && #[trigger] tgt_of(faces@, a) == #[trigger] tgt_of(faces@, b) implies a == b by {
            lemma_ends_in_range(faces@, n as int, a);
        }
    }
    Some((ho, bout))
}

/// The half-edges with their opposite links, each unpaired one pointing to
/// the outgoing entry of its target; `None` when some unpaired half-edge ends
/// where no unpaired half-edge starts.
pub fn encode(
    faces: &Vec<[usize; 3]>,
    n: usize,
    opp: &Vec<isize>,
    ho: &Vec<usize>,
    bout: &Vec<bool>,
) -> (r: Option<Vec<Halfedge>>)
    requires
        faces_in_range(faces@, n as int),
        3 * faces@.len() <= isize::MAX,
        opp@.len() == 3 * faces@.len(),
        forall|j: int| 0 <= j < 3 * faces@.len() ==> #[trigger] pair_ok(faces@, opp@, j),
        ho@.len() == n,
        bout@.len() == n,
        forall|h: int|
            0 <= h < 3 * faces@.len() && #[trigger] unpaired(faces@, h) ==> bout@[src_of(
                faces@,
                h,
            )],
        forall|v: int|
            0 <= v < n && #[trigger] bout@[v] ==> ho@[v] < 3 * faces@.len() && unpaired(
                faces@,
                ho@[v] as int,
            ) && src_of(faces@, ho@[v] as int) == v,
    ensures
        r is Some <==> boundary_continues(faces@),
        r matches Some(hs) ==> hs@.len() == 3 * faces@.len() && forall|h: int|
            0 <= h < 3 * faces@.len() ==> #[trigger] opp_ok(faces@, hs@, h),
{
    let nh = 3 * faces.len();
    let mut hs: Vec<Halfedge> = Vec::new();
    let mut h: usize = 0;
    while h < nh
        invariant
            nh == 3 * faces@.len(),
            nh <= isize::MAX,
            faces_in_range(faces@, n as int),
            opp@.len() == nh,
            forall|j: int| 0 <= j < nh ==> #[trigger] pair_ok(faces@, opp@, j),
            ho@.len() == n,
            bout@.len() == n,
            forall|k: int|
                0 <= k < nh && #[trigger] unpaired(faces@, k) ==> bout@[src_of(faces@, k)],
            forall|v: int|
                0 <= v < n && #[trigger] bout@[v] ==> ho@[v] < nh && unpaired(
                    faces@,
                    ho@[v] as int,
                ) && src_of(faces@, ho@[v] as int) == v,
            h <= nh,
            hs@.len() == h,
            forall|k: int|
                0 <= k < h ==> {
                    let e = #[trigger] hs@[k];
                    &&& e.index == k
                    &&& opp@[k] >= 0 ==> e.h_opp == opp@[k]
                    &&& opp@[k] < 0 ==> e.h_opp < 0 && 0 <= decode_next(e.h_opp as int) < nh
                        && unpaired(faces@, decode_next(e.h_opp as int)) && src_of(
                        faces@,
                        decode_next(e.h_opp as int),
                    ) == tgt_of(faces@, k)
                },
        decreases nh - h,
    {
        proof {
            lemma_ends_in_range(faces@, n as int, h as int);
        }
        assert(pair_ok(faces@, opp@, h as int));
        if opp[h] >= 0 {
            hs.push(Halfedge { index: h, h_opp: opp[h] });
        } else {
            let t = Halfedge::new(h).v_tgt(faces);
            if !bout[t] {
                reveal(boundary_continues);
                assert(unpaired(faces@, h as int));
                assert forall|b: int|
                    0 <= b < nh && unpaired(faces@, b) implies #[trigger] src_of(faces@, b)
                    != tgt_of(faces@, h as int) by {
                    lemma_ends_in_range(faces@, n as int, b);
                }
                return None;
            }
            let nx = ho[t];
            hs.push(Halfedge { index: h, h_opp: -(nx as isize) - 1 });
        }
        h += 1;
    }
    proof {
        assert forall|h: int| 0 <= h < nh implies #[trigger] opp_ok(faces@, hs@, h) by {
            assert(pair_ok(faces@, opp@, h));
            let e = hs@[h];
            if opp@[h] >= 0 {
                lemma_pair_involution(faces@, opp@, h);
                assert(hs@[opp@[h] as int].h_opp == h);
            } else {
                let nx = decode_next(e.h_opp as int);
                assert(pair_ok(faces@, opp@, nx));
                assert(hs@[nx].h_opp < 0);
            }
        }
        reveal(boundary_continues);
        assert forall|a: int| 0 <= a < nh && #[trigger] unpaired(faces@, a) implies exists|b: int|
            0 <= b < nh && unpaired(faces@, b) && #[trigger] src_of(faces@, b) == tgt_of(
                faces@,
                a,
            ) by {
            assert(pair_ok(faces@, opp@, a));
            let b = decode_next(hs@[a].h_opp as int);
            assert(src_of(faces@, b) == tgt_of(faces@, a));
        }
    }
    Some(hs)
}

} // verus!
