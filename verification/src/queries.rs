//! The query aggregator: groups opening queries by the exact set of
//! evaluation points they share.
//!
//! Each distinct evaluation point receives a stable index in first-seen
//! order; each distinct polynomial handle accumulates the indices of the
//! points it is queried at; handles whose index sets are equal as sets --
//! regardless of insertion order -- fall into the same group, and each
//! distinct canonical (sorted) index set receives a stable group index in
//! first-seen order. Evaluations are re-aligned to the canonical order.

use vstd::prelude::*;

use crate::field::Scalar;
use crate::poly::Blind;
use crate::poly::scalar_seq;
use crate::poly::wf_scalars;

verus! {

/// No element of the sequence occurs twice.
pub open spec fn distinct<T>(s: Seq<T>) -> bool {
    forall|i: int, j: int| 0 <= i < j < s.len() ==> s[i] != s[j]
}

/// The distinct elements of a sequence, in first-seen order.
pub open spec fn firsts<T>(s: Seq<T>) -> Seq<T>
    decreases s.len(),
{
    if s.len() == 0 {
        Seq::empty()
    } else {
        let rest = firsts(s.drop_last());
        if rest.contains(s.last()) {
            rest
        } else {
            rest.push(s.last())
        }
    }
}

/// The index of the first occurrence of `x` in `s`.
pub open spec fn first_index_of<T>(s: Seq<T>, x: T) -> int
    decreases s.len(),
{
    if s.len() == 0 {
        0
    } else if s[0] == x {
        0
    } else {
        1 + first_index_of(s.subrange(1, s.len() as int), x)
    }
}

/// For a contained element, `first_index_of` is the least index holding it.
pub proof fn lemma_first_index_of_works<T>(s: Seq<T>, x: T)
    requires
        s.contains(x),
    ensures
        0 <= first_index_of(s, x) < s.len(),
        s[first_index_of(s, x)] == x,
        forall|j: int| 0 <= j < first_index_of(s, x) ==> s[j] != x,
    decreases s.len(),
{
    if s.len() > 0 && s[0] != x {
        let tail = s.subrange(1, s.len() as int);
        assert(tail.contains(x)) by {
            let w = choose|w: int| 0 <= w < s.len() && s[w] == x;
            assert(tail[w - 1] == x);
        }
        lemma_first_index_of_works(tail, x);
        let f = first_index_of(s, x);
        assert(s[f] == tail[f - 1]);
        assert forall|j: int| 0 <= j < f implies s[j] != x by {
            if j > 0 {
                assert(s[j] == tail[j - 1]);
            }
        }
    }
}

/// The first index of an element of a prefix is the same in any extension.
pub proof fn lemma_first_index_of_prefix<T>(s: Seq<T>, t: Seq<T>, x: T)
    requires
        s.is_prefix_of(t),
        s.contains(x),
    ensures
        t.contains(x),
        first_index_of(t, x) == first_index_of(s, x),
    decreases s.len(),
{
    lemma_first_index_of_works(s, x);
    assert(t[first_index_of(s, x)] == x);
    if s[0] != x {
        let stail = s.subrange(1, s.len() as int);
        let ttail = t.subrange(1, t.len() as int);
        assert(stail.is_prefix_of(ttail));
        assert(stail.contains(x)) by {
            let w = choose|w: int| 0 <= w < s.len() && s[w] == x;
            assert(stail[w - 1] == x);
        }
        lemma_first_index_of_prefix(stail, ttail, x);
    }
}

/// In a duplicate-free sequence, the first index of `s[i]` is `i`.
pub proof fn lemma_first_index_of_distinct<T>(s: Seq<T>, i: int)
    requires
        distinct(s),
        0 <= i < s.len(),
    ensures
        first_index_of(s, s[i]) == i,
{
    assert(s.contains(s[i]));
    lemma_first_index_of_works(s, s[i]);
}

/// Membership in the first-seen distinct elements is membership in the
/// sequence itself.
pub proof fn lemma_firsts_contains<T>(s: Seq<T>, x: T)
    ensures
        firsts(s).contains(x) <==> s.contains(x),
    decreases s.len(),
{
    if s.len() > 0 {
        let rest = firsts(s.drop_last());
        lemma_firsts_contains(s.drop_last(), x);
        if s.contains(x) {
            let w = choose|w: int| 0 <= w < s.len() && s[w] == x;
            if w < s.len() - 1 {
                assert(s.drop_last()[w] == x);
                assert(s.drop_last().contains(x));
                assert(rest.contains(x));
                if !rest.contains(s.last()) {
                    let w2 = choose|w2: int| 0 <= w2 < rest.len() && rest[w2] == x;
                    assert(rest.push(s.last())[w2] == x);
                }
            } else {
                assert(s.last() == x);
                if !rest.contains(x) {
                    assert(rest.push(x)[rest.len() as int] == x);
                }
            }
            assert(firsts(s).contains(x));
        }
        if firsts(s).contains(x) {
            if rest.contains(x) {
                let w = choose|w: int| 0 <= w < s.drop_last().len() && s.drop_last()[w] == x;
                assert(s[w] == x);
            } else {
                let w = choose|w: int| 0 <= w < firsts(s).len() && firsts(s)[w] == x;
                assert(rest.push(s.last())[w] == x);
                if w < rest.len() {
                    assert(rest.contains(x));
                } else {
                    assert(s.last() == x);
                    assert(s[s.len() - 1] == x);
                }
            }
            assert(s.contains(x));
        }
    }
}

/// The first-seen distinct elements are duplicate-free.
pub proof fn lemma_firsts_distinct<T>(s: Seq<T>)
    ensures
        distinct(firsts(s)),
    decreases s.len(),
{
    if s.len() > 0 {
        let rest = firsts(s.drop_last());
        lemma_firsts_distinct(s.drop_last());
        if !rest.contains(s.last()) {
            let f = rest.push(s.last());
            assert forall|i: int, j: int| 0 <= i < j < f.len() implies f[i] != f[j] by {
                if j == f.len() - 1 {
                    assert(rest[i] == f[i]);
                    if f[i] == s.last() {
                        assert(rest.contains(s.last()));
                    }
                }
            }
        }
    }
}

/// A prefix of the input yields a prefix of its first-seen elements.
pub proof fn lemma_firsts_prefix<T>(s: Seq<T>, n: int)
    requires
        0 <= n <= s.len(),
    ensures
        firsts(s.take(n)).is_prefix_of(firsts(s)),
    decreases s.len() - n,
{
    if n == s.len() {
        assert(s.take(n) =~= s);
    } else {
        lemma_firsts_prefix(s, n + 1);
        let t = s.take(n + 1);
        assert(t.drop_last() =~= s.take(n));
        assert(firsts(s.take(n)).is_prefix_of(firsts(t)));
    }
}

/// A sequence of machine indices, as mathematical integers.
pub open spec fn usize_ints(s: Seq<usize>) -> Seq<int> {
    s.map_values(|u: usize| u as int)
}

/// One opening query: an explicit handle for the polynomial being opened --
/// two distinct polynomials may coincide numerically, so identity is never
/// by value -- with the queried point, the claimed evaluation there, and the
/// blinding factor of the polynomial's commitment.
pub struct ProverQuery {
    pub poly: usize,
    pub point: Scalar,
    pub eval: Scalar,
    pub blind: Blind,
}

/// Per distinct polynomial handle: its group index, its blinding factor,
/// the point indices of its queries in query order, and its claimed
/// evaluations aligned to the canonical (sorted) order of its point-index
/// set.
pub struct CommitmentData {
    pub poly: usize,
    pub set_index: usize,
    pub blind: Blind,
    pub point_indices: Vec<usize>,
    pub evals: Vec<Scalar>,
}

/// The queried point values, in query order.
pub open spec fn pmap(qs: Seq<ProverQuery>) -> Seq<nat> {
    qs.map_values(|q: ProverQuery| q.point@)
}

/// The queried handles, in query order.
pub open spec fn hmap(qs: Seq<ProverQuery>) -> Seq<usize> {
    qs.map_values(|q: ProverQuery| q.poly)
}

/// The distinct queried points, in first-seen order: point index `i` names
/// `points_of(qs)[i]`.
pub open spec fn points_of(qs: Seq<ProverQuery>) -> Seq<nat> {
    firsts(pmap(qs))
}

/// The distinct queried handles, in first-seen order.
pub open spec fn handles_of(qs: Seq<ProverQuery>) -> Seq<usize> {
    firsts(hmap(qs))
}

/// The point indices at which handle `h` is queried, in query order, with
/// one entry per query; each entry is the index its point holds in the
/// first-seen point list at the time of that query, which later queries do
/// not change.
pub open spec fn pidx_of(qs: Seq<ProverQuery>, h: usize) -> Seq<int>
    decreases qs.len(),
{
    if qs.len() == 0 {
        Seq::empty()
    } else {
        let rest = pidx_of(qs.drop_last(), h);
        if qs.last().poly == h {
            rest.push(first_index_of(points_of(qs), qs.last().point@))
        } else {
            rest
        }
    }
}

/// The members of `s` below `bound`, in ascending order and without
/// duplicates: the canonical form of a point-index collection.
pub open spec fn canon_upto(s: Seq<int>, bound: int) -> Seq<int>
    decreases bound,
{
    if bound <= 0 {
        Seq::empty()
    } else if s.contains(bound - 1) {
        canon_upto(s, bound - 1).push(bound - 1)
    } else {
        canon_upto(s, bound - 1)
    }
}

/// The canonical point-index set of handle `h`: its queried point indices,
/// sorted and deduplicated. Two handles group together exactly when these
/// are equal.
pub open spec fn canon_of(qs: Seq<ProverQuery>, h: usize) -> Seq<int> {
    canon_upto(pidx_of(qs, h), points_of(qs).len() as int)
}

/// The canonical point-index sets of all handles, in handle order.
pub open spec fn canons_of(qs: Seq<ProverQuery>) -> Seq<Seq<int>> {
    handles_of(qs).map_values(|h: usize| canon_of(qs, h))
}

/// The distinct canonical point-index sets, in first-seen handle order:
/// group index `g` names `sets_of(qs)[g]`.
pub open spec fn sets_of(qs: Seq<ProverQuery>) -> Seq<Seq<int>> {
    firsts(canons_of(qs))
}

/// The group index of handle `h`.
pub open spec fn group_of(qs: Seq<ProverQuery>, h: usize) -> int {
    first_index_of(sets_of(qs), canon_of(qs, h))
}

/// The blinding factor of the first query made for handle `h`.
pub open spec fn first_blind_of(qs: Seq<ProverQuery>, h: usize) -> nat
    decreases qs.len(),
{
    if qs.len() == 0 {
        0
    } else if hmap(qs.drop_last()).contains(h) {
        first_blind_of(qs.drop_last(), h)
    } else if qs.last().poly == h {
        qs.last().blind.0@
    } else {
        0
    }
}

/// The claimed evaluation of handle `h` at point value `ptv`: the one from
/// the last query for that pair, or zero if there is none.
pub open spec fn last_eval_of(qs: Seq<ProverQuery>, h: usize, ptv: nat) -> nat
    decreases qs.len(),
{
    if qs.len() == 0 {
        0
    } else if qs.last().poly == h && qs.last().point@ == ptv {
        qs.last().eval@
    } else {
        last_eval_of(qs.drop_last(), h, ptv)
    }
}

/// Every scalar carried by the queries is well formed.
pub open spec fn wf_queries(qs: Seq<ProverQuery>) -> bool {
    forall|i: int|
        0 <= i < qs.len() ==> (#[trigger] qs[i]).point.wf() && qs[i].eval.wf()
            && qs[i].blind.0.wf()
}

/// Canonical sets hold exactly the members of the input below the bound.
pub proof fn lemma_canon_contains(s: Seq<int>, bound: int, v: int)
    ensures
        canon_upto(s, bound).contains(v) <==> (s.contains(v) && 0 <= v < bound),
    decreases bound,
{
    if bound > 0 {
        lemma_canon_contains(s, bound - 1, v);
        let rest = canon_upto(s, bound - 1);
        if s.contains(bound - 1) {
            if v == bound - 1 {
                assert(rest.push(bound - 1)[rest.len() as int] == v);
            } else {
                if rest.contains(v) {
                    let w = choose|w: int| 0 <= w < rest.len() && rest[w] == v;
                    assert(rest.push(bound - 1)[w] == v);
                }
                if rest.push(bound - 1).contains(v) {
                    let w = choose|w: int|
                        0 <= w < rest.push(bound - 1).len() && #[trigger] rest.push(bound - 1)[w]
                            == v;
                    assert(rest[w] == v);
                }
            }
        }
    }
}

/// Canonical sets are strictly increasing, so duplicate-free, and their
/// entries lie below the bound.
pub proof fn lemma_canon_entries(s: Seq<int>, bound: int)
    ensures
        forall|e: int|
            0 <= e < canon_upto(s, bound).len() ==> 0 <= #[trigger] canon_upto(s, bound)[e]
                < bound,
        forall|e1: int, e2: int|
            0 <= e1 < e2 < canon_upto(s, bound).len() ==> canon_upto(s, bound)[e1] < canon_upto(
                s,
                bound,
            )[e2],
    decreases bound,
{
    if bound > 0 {
        lemma_canon_entries(s, bound - 1);
        let rest = canon_upto(s, bound - 1);
        if s.contains(bound - 1) {
            assert(forall|e: int|
                0 <= e < rest.len() ==> rest.push(bound - 1)[e] == #[trigger] rest[e]);
        }
    }
}

/// A handle that no query names has no point indices.
pub proof fn lemma_pidx_absent(qs: Seq<ProverQuery>, h: usize)
    requires
        !hmap(qs).contains(h),
    ensures
        pidx_of(qs, h) == Seq::<int>::empty(),
    decreases qs.len(),
{
    if qs.len() > 0 {
        assert(hmap(qs)[qs.len() - 1] == qs.last().poly);
        assert(forall|w: int| 0 <= w < qs.len() - 1 ==> hmap(qs.drop_last())[w] == hmap(qs)[w]);
        assert(!hmap(qs.drop_last()).contains(h)) by {
            if hmap(qs.drop_last()).contains(h) {
                let w = choose|w: int|
                    0 <= w < hmap(qs.drop_last()).len() && hmap(qs.drop_last())[w] == h;
                assert(hmap(qs)[w] == h);
            }
        }
        lemma_pidx_absent(qs.drop_last(), h);
    }
}

/// A point seen in a prefix of the queries keeps its first-seen index in
/// the whole query list.
pub proof fn lemma_point_index_stable(qs: Seq<ProverQuery>, n: int, v: nat)
    requires
        0 <= n <= qs.len(),
        points_of(qs.take(n)).contains(v),
    ensures
        points_of(qs).contains(v),
        first_index_of(points_of(qs), v) == first_index_of(points_of(qs.take(n)), v),
{
    assert(pmap(qs.take(n)) =~= pmap(qs).take(n));
    lemma_firsts_prefix(pmap(qs), n);
    lemma_first_index_of_prefix(points_of(qs.take(n)), points_of(qs), v);
}

/// Every query contributes the first-seen index of its point to the point
/// indices of its handle.
pub proof fn lemma_pidx_has_query(qs: Seq<ProverQuery>, qi: int)
    requires
        0 <= qi < qs.len(),
    ensures
        pidx_of(qs, qs[qi].poly).contains(first_index_of(points_of(qs), qs[qi].point@)),
    decreases qs.len(),
{
    let h = qs[qi].poly;
    let whole = pidx_of(qs, h);
    let rest = pidx_of(qs.drop_last(), h);
    if qi == qs.len() - 1 {
        assert(qs.last() == qs[qi]);
        let e = first_index_of(points_of(qs), qs[qi].point@);
        assert(rest.push(e)[rest.len() as int] == e);
    } else {
        assert(qs.drop_last()[qi] == qs[qi]);
        lemma_pidx_has_query(qs.drop_last(), qi);
        let ep = first_index_of(points_of(qs.drop_last()), qs[qi].point@);
        assert(points_of(qs.drop_last()).contains(qs[qi].point@)) by {
            assert(pmap(qs.drop_last())[qi] == qs[qi].point@);
            lemma_firsts_contains(pmap(qs.drop_last()), qs[qi].point@);
        }
        assert(qs.take(qs.len() - 1) =~= qs.drop_last());
        lemma_point_index_stable(qs, qs.len() - 1, qs[qi].point@);
        let e = first_index_of(points_of(qs), qs[qi].point@);
        assert(e == ep);
        assert(rest.contains(e));
        let w = choose|w: int| 0 <= w < rest.len() && rest[w] == e;
        if qs.last().poly == h {
            assert(rest.push(first_index_of(points_of(qs), qs.last().point@))[w] == e);
            assert(whole.contains(e));
        } else {
            assert(whole.contains(e));
        }
    }
}

/// Find the first entry of `pts` holding the value of `x`.
fn find_point(pts: &Vec<Scalar>, x: &Scalar) -> (r: Option<usize>)
    ensures
        r.is_some() == scalar_seq(pts@).contains(x@),
        r.is_some() ==> r.unwrap() as int == first_index_of(scalar_seq(pts@), x@) && r.unwrap()
            < pts@.len(),
{
    let mut i: usize = 0;
    while i < pts.len()
        invariant
            i <= pts@.len(),
            forall|j: int| 0 <= j < i ==> scalar_seq(pts@)[j] != x@,
        decreases pts@.len() - i,
    {
        if pts[i].eq_val(x) {
            proof {
                assert(scalar_seq(pts@)[i as int] == x@);
                assert(scalar_seq(pts@).contains(x@));
                lemma_first_index_of_works(scalar_seq(pts@), x@);
            }
            return Some(i);
        }
        i = i + 1;
    }
    proof {
        assert(forall|j: int| 0 <= j < pts@.len() ==> scalar_seq(pts@)[j] != x@);
        if scalar_seq(pts@).contains(x@) {
            let w = choose|w: int|
                0 <= w < scalar_seq(pts@).len() && scalar_seq(pts@)[w] == x@;
        }
    }
    None
}

/// Find the first entry of `hs` equal to `x`.
fn find_usize(hs: &Vec<usize>, x: usize) -> (r: Option<usize>)
    ensures
        r.is_some() == hs@.contains(x),
        r.is_some() ==> r.unwrap() as int == first_index_of(hs@, x) && r.unwrap() < hs@.len(),
{
    let mut i: usize = 0;
    while i < hs.len()
        invariant
            i <= hs@.len(),
            forall|j: int| 0 <= j < i ==> hs@[j] != x,
        decreases hs@.len() - i,
    {
        if hs[i] == x {
            proof {
                assert(hs@.contains(x));
                lemma_first_index_of_works(hs@, x);
            }
            return Some(i);
        }
        i = i + 1;
    }
    None
}

/// Whether two index vectors hold the same sequence.
fn eq_usize_vec(a: &Vec<usize>, b: &Vec<usize>) -> (r: bool)
    ensures
        r == (a@ == b@),
{
    if a.len() != b.len() {
        return false;
    }
    let mut i: usize = 0;
    while i < a.len()
        invariant
            i <= a@.len(),
            a@.len() == b@.len(),
            forall|j: int| 0 <= j < i ==> a@[j] == b@[j],
        decreases a@.len() - i,
    {
        if a[i] != b[i] {
            return false;
        }
        i = i + 1;
    }
    proof {
        assert(a@ =~= b@);
    }
    true
}

/// A copy of an index vector.
fn copy_usize_vec(a: &Vec<usize>) -> (r: Vec<usize>)
    ensures
        r@ == a@,
{
    let mut out: Vec<usize> = Vec::new();
    let mut i: usize = 0;
    while i < a.len()
        invariant
            i <= a@.len(),
            out@ == a@.subrange(0, i as int),
        decreases a@.len() - i,
    {
        out.push(a[i]);
        proof {
            assert(a@.subrange(0, i as int).push(a@[i as int]) =~= a@.subrange(0, i as int + 1));
        }
        i = i + 1;
    }
    proof {
        assert(a@.subrange(0, a@.len() as int) =~= a@);
    }
    out
}

/// First pass over the queries: the distinct points and handles in
/// first-seen order, each handle's first blind, and each handle's point
/// indices in query order.
fn build_tables(queries: &Vec<ProverQuery>) -> (r: (
    Vec<Scalar>,
    Vec<usize>,
    Vec<Blind>,
    Vec<Vec<usize>>,
))
    requires
        wf_queries(queries@),
    ensures
        scalar_seq(r.0@) == points_of(queries@),
        wf_scalars(r.0@),
        r.1@ == handles_of(queries@),
        r.2@.len() == r.1@.len(),
        forall|k: int|
            0 <= k < r.1@.len() ==> (#[trigger] r.2@[k]).0@ == first_blind_of(
                queries@,
                r.1@[k],
            ) && r.2@[k].0.wf(),
        r.3@.len() == r.1@.len(),
        forall|k: int|
            0 <= k < r.1@.len() ==> usize_ints((#[trigger] r.3@[k])@) == pidx_of(
                queries@,
                r.1@[k],
            ),
        forall|k: int, e: int|
            0 <= k < r.3@.len() && 0 <= e < r.3@[k]@.len() ==> (#[trigger] r.3@[k]@[e])
                < r.0@.len(),
{
    let mut pts: Vec<Scalar> = Vec::new();
    let mut hs: Vec<usize> = Vec::new();
    let mut hblinds: Vec<Blind> = Vec::new();
    let mut hindices: Vec<Vec<usize>> = Vec::new();
    let mut i: usize = 0;
    proof {
        assert(queries@.take(0) =~= Seq::<ProverQuery>::empty());
        assert(pmap(queries@.take(0)) =~= Seq::<nat>::empty());
        assert(hmap(queries@.take(0)) =~= Seq::<usize>::empty());
    }
    while i < queries.len()
        invariant
            i <= queries@.len(),
            wf_queries(queries@),
            scalar_seq(pts@) == points_of(queries@.take(i as int)),
            wf_scalars(pts@),
            hs@ == handles_of(queries@.take(i as int)),
            hblinds@.len() == hs@.len(),
            forall|k: int|
                0 <= k < hs@.len() ==> (#[trigger] hblinds@[k]).0@ == first_blind_of(
                    queries@.take(i as int),
                    hs@[k],
                ) && hblinds@[k].0.wf(),
            hindices@.len() == hs@.len(),
            forall|k: int|
                0 <= k < hs@.len() ==> usize_ints((#[trigger] hindices@[k])@) == pidx_of(
                    queries@.take(i as int),
                    hs@[k],
                ),
            forall|k: int, e: int|
                0 <= k < hindices@.len() && 0 <= e < hindices@[k]@.len() ==> (
                #[trigger] hindices@[k]@[e]) < pts@.len(),
        decreases queries@.len() - i,
    {
        let ghost pref = queries@.take(i as int);
        let ghost prefn = queries@.take(i as int + 1);
        proof {
            assert(prefn.drop_last() =~= pref);
            assert(prefn.last() == queries@[i as int]);
            assert(pmap(prefn) =~= pmap(pref).push(queries@[i as int].point@));
            assert(hmap(prefn) =~= hmap(pref).push(queries@[i as int].poly));
            assert(pmap(prefn).drop_last() =~= pmap(pref));
            assert(hmap(prefn).drop_last() =~= hmap(pref));
            assert(pmap(prefn).last() == queries@[i as int].point@);
            assert(hmap(prefn).last() == queries@[i as int].poly);
        }
        let q_point = queries[i].point;
        let q_poly = queries[i].poly;
        let q_eval = queries[i].eval;
        let q_blind = queries[i].blind;
        // Assign the point its first-seen index, inserting it if new.
        let pi: usize = match find_point(&pts, &q_point) {
            Some(pi) => {
                proof {
                    assert(points_of(prefn) == points_of(pref));
                }
                pi
            },
            None => {
                pts.push(q_point);
                proof {
                    assert(scalar_seq(pts@) =~= points_of(pref).push(q_point@));
                    assert(points_of(prefn) == scalar_seq(pts@));
                    lemma_firsts_distinct(pmap(prefn));
                    lemma_first_index_of_distinct(
                        points_of(prefn),
                        points_of(prefn).len() - 1,
                    );
                }
                pts.len() - 1
            },
        };
        proof {
            assert(pi as int == first_index_of(points_of(prefn), queries@[i as int].point@));
            assert(pi < pts@.len());
        }
        // Assign the handle its first-seen slot, inserting it if new, and
        // record the point index for this query.
        match find_usize(&hs, q_poly) {
            Some(hi) => {
                proof {
                    assert(hs@.contains(q_poly));
                    lemma_firsts_contains(hmap(pref), q_poly);
                    assert(handles_of(prefn) == handles_of(pref));
                    lemma_firsts_distinct(hmap(pref));
                    lemma_first_index_of_works(hs@, q_poly);
                    assert(hs@[hi as int] == q_poly);
                    assert(forall|k: int|
                        0 <= k < hs@.len() && k != hi ==> hs@[k] != q_poly);
                }
                let ghost before = hindices@;
                let slot = vstd::std_specs::vec::vec_index_mut(&mut hindices, hi);
                slot.push(pi);
                proof {
                    assert(hindices@[hi as int]@ == before[hi as int]@.push(pi));
                    assert(forall|k: int|
                        0 <= k < before.len() && k != hi ==> hindices@[k] == #[trigger] before[k]);
                    assert(usize_ints(hindices@[hi as int]@) =~= usize_ints(
                        before[hi as int]@,
                    ).push(pi as int));
                    assert(usize_ints(hindices@[hi as int]@) =~= pidx_of(prefn, q_poly));
                }
            },
            None => {
                proof {
                    assert(!hs@.contains(q_poly));
                    lemma_firsts_contains(hmap(pref), q_poly);
                    assert(!hmap(pref).contains(q_poly));
                    lemma_pidx_absent(pref, q_poly);
                }
                hs.push(q_poly);
                hblinds.push(q_blind);
                let mut fresh: Vec<usize> = Vec::new();
                fresh.push(pi);
                hindices.push(fresh);
                proof {
                    assert(hs@ =~= handles_of(prefn));
                    assert(usize_ints(hindices@[hs@.len() - 1]@) =~= pidx_of(prefn, q_poly));
                }
            },
        }
        proof {
            assert(forall|k: int|
                0 <= k < hs@.len() && hs@[k] != q_poly ==> pidx_of(prefn, #[trigger] hs@[k])
                    == pidx_of(pref, hs@[k]));
            assert(forall|k: int|
                0 <= k < hs@.len() && hmap(pref).contains(#[trigger] hs@[k])
                    ==> first_blind_of(prefn, hs@[k]) == first_blind_of(pref, hs@[k]));
            assert(forall|k: int|
                0 <= k < hs@.len() ==> hmap(pref).contains(#[trigger] hs@[k])
                    || hs@[k] == q_poly) by {
                assert forall|k: int|
                    0 <= k < hs@.len() && hs@[k] != q_poly implies hmap(pref).contains(
                    hs@[k],
                ) by {
                    assert(handles_of(prefn).contains(hs@[k])) by {
                        assert(handles_of(prefn)[k] == hs@[k]);
                    }
                    lemma_firsts_contains(hmap(prefn), hs@[k]);
                    let w = choose|w: int|
                        0 <= w < hmap(prefn).len() && hmap(prefn)[w] == hs@[k];
                    assert(hmap(pref)[w] == hs@[k]);
                }
            }
        }
        i = i + 1;
    }
    proof {
        assert(queries@.take(queries@.len() as int) =~= queries@);
    }
    (pts, hs, hblinds, hindices)
}

/// The canonical sets a vector of index vectors holds.
pub open spec fn setviews(s: Seq<Vec<usize>>) -> Seq<Seq<int>> {
    s.map_values(|v: Vec<usize>| usize_ints(v@))
}

/// The members of `idxs` below `bound`, ascending and deduplicated.
fn canonical_set(idxs: &Vec<usize>, bound: usize) -> (r: Vec<usize>)
    ensures
        usize_ints(r@) == canon_upto(usize_ints(idxs@), bound as int),
        forall|e: int| 0 <= e < r@.len() ==> (#[trigger] r@[e]) < bound,
{
    let mut out: Vec<usize> = Vec::new();
    let mut v: usize = 0;
    proof {
        assert(usize_ints(out@) =~= canon_upto(usize_ints(idxs@), 0));
    }
    while v < bound
        invariant
            v <= bound,
            usize_ints(out@) == canon_upto(usize_ints(idxs@), v as int),
            forall|e: int| 0 <= e < out@.len() ==> (#[trigger] out@[e]) < v,
        decreases bound - v,
    {
        proof {
            if idxs@.contains(v) {
                let w = choose|w: int| 0 <= w < idxs@.len() && idxs@[w] == v;
                assert(usize_ints(idxs@)[w] == v as int);
            }
            if usize_ints(idxs@).contains(v as int) {
                let w = choose|w: int|
                    0 <= w < usize_ints(idxs@).len() && usize_ints(idxs@)[w] == v as int;
                assert(idxs@[w] == v);
            }
        }
        if find_usize(idxs, v).is_some() {
            out.push(v);
            proof {
                assert(usize_ints(out@) =~= canon_upto(usize_ints(idxs@), v as int).push(
                    v as int,
                ));
            }
        }
        v = v + 1;
    }
    out
}

/// Find the first entry of `sets` holding the same index sequence as `c`.
fn find_set(sets: &Vec<Vec<usize>>, c: &Vec<usize>) -> (r: Option<usize>)
    ensures
        r.is_some() == setviews(sets@).contains(usize_ints(c@)),
        r.is_some() ==> r.unwrap() as int == first_index_of(setviews(sets@), usize_ints(c@))
            && r.unwrap() < sets@.len(),
{
    let mut i: usize = 0;
    while i < sets.len()
        invariant
            i <= sets@.len(),
            forall|j: int| 0 <= j < i ==> (#[trigger] setviews(sets@)[j]) != usize_ints(c@),
        decreases sets@.len() - i,
    {
        if eq_usize_vec(&sets[i], c) {
            proof {
                assert(setviews(sets@)[i as int] == usize_ints(c@));
                assert(setviews(sets@).contains(usize_ints(c@)));
                lemma_first_index_of_works(setviews(sets@), usize_ints(c@));
            }
            return Some(i);
        }
        proof {
            assert(setviews(sets@)[i as int] == usize_ints(sets@[i as int]@));
            if usize_ints(sets@[i as int]@) == usize_ints(c@) {
                assert forall|j: int| 0 <= j < c@.len() implies sets@[i as int]@[j] == c@[j] by {
                    assert(usize_ints(sets@[i as int]@)[j] == usize_ints(c@)[j]);
                }
                assert(sets@[i as int]@ =~= c@);
            }
        }
        i = i + 1;
    }
    proof {
        if setviews(sets@).contains(usize_ints(c@)) {
            let w = choose|w: int|
                0 <= w < setviews(sets@).len() && setviews(sets@)[w] == usize_ints(c@);
        }
    }
    None
}

/// Group the queries: one record per distinct polynomial handle, with its
/// first-seen point indices, group index, first blind, and evaluations
/// aligned to the canonical order of its point-index set; and the distinct
/// point sets themselves, as point values in canonical order, indexed by
/// group.
pub fn construct_intermediate_sets(queries: &Vec<ProverQuery>) -> (r: (
    Vec<CommitmentData>,
    Vec<Vec<Scalar>>,
))
    requires
        wf_queries(queries@),
    ensures
        r.0@.len() == handles_of(queries@).len(),
        forall|k: int|
            0 <= k < r.0@.len() ==> (#[trigger] r.0@[k]).poly == handles_of(queries@)[k],
        forall|k: int|
            0 <= k < r.0@.len() ==> (#[trigger] r.0@[k]).blind.0@ == first_blind_of(
                queries@,
                handles_of(queries@)[k],
            ) && r.0@[k].blind.0.wf(),
        forall|k: int|
            0 <= k < r.0@.len() ==> usize_ints((#[trigger] r.0@[k]).point_indices@) == pidx_of(
                queries@,
                handles_of(queries@)[k],
            ),
        forall|k: int|
            0 <= k < r.0@.len() ==> (#[trigger] r.0@[k]).set_index as int == group_of(
                queries@,
                handles_of(queries@)[k],
            ),
        forall|k: int|
            0 <= k < r.0@.len() ==> (#[trigger] r.0@[k]).evals@.len() == canon_of(
                queries@,
                handles_of(queries@)[k],
            ).len() && wf_scalars(r.0@[k].evals@),
        forall|k: int, j: int|
            0 <= k < r.0@.len() && 0 <= j < r.0@[k].evals@.len() ==> (
            #[trigger] r.0@[k].evals@[j])@ == last_eval_of(
                queries@,
                handles_of(queries@)[k],
                points_of(queries@)[canon_of(queries@, handles_of(queries@)[k])[j]],
            ),
        r.1@.len() == sets_of(queries@).len(),
        forall|s2: int|
            0 <= s2 < r.1@.len() ==> (#[trigger] r.1@[s2])@.len() == sets_of(queries@)[s2].len()
                && wf_scalars(r.1@[s2]@),
        forall|s2: int, j: int|
            0 <= s2 < r.1@.len() && 0 <= j < r.1@[s2]@.len() ==> (#[trigger] r.1@[s2]@[j])@
                == points_of(queries@)[sets_of(queries@)[s2][j]],
{
    let (pts, hs, hblinds, hindices) = build_tables(queries);
    let ghost qs = queries@;
    let mut cds: Vec<CommitmentData> = Vec::new();
    let mut sets: Vec<Vec<usize>> = Vec::new();
    let mut k: usize = 0;
    proof {
        assert(canons_of(qs).take(0) =~= Seq::<Seq<int>>::empty());
        assert(setviews(sets@) =~= firsts(canons_of(qs).take(0)));
    }
    while k < hs.len()
        invariant
            k <= hs@.len(),
            wf_queries(qs),
            qs == queries@,
            scalar_seq(pts@) == points_of(qs),
            wf_scalars(pts@),
            hs@ == handles_of(qs),
            hblinds@.len() == hs@.len(),
            forall|k2: int|
                0 <= k2 < hs@.len() ==> (#[trigger] hblinds@[k2]).0@ == first_blind_of(
                    qs,
                    hs@[k2],
                ) && hblinds@[k2].0.wf(),
            hindices@.len() == hs@.len(),
            forall|k2: int|
                0 <= k2 < hs@.len() ==> usize_ints((#[trigger] hindices@[k2])@) == pidx_of(
                    qs,
                    hs@[k2],
                ),
            setviews(sets@) == firsts(canons_of(qs).take(k as int)),
            forall|s2: int, e: int|
                0 <= s2 < sets@.len() && 0 <= e < sets@[s2]@.len() ==> (
                #[trigger] sets@[s2]@[e]) < pts@.len(),
            cds@.len() == k,
            forall|k2: int|
                0 <= k2 < k ==> (#[trigger] cds@[k2]).poly == hs@[k2],
            forall|k2: int|
                0 <= k2 < k ==> (#[trigger] cds@[k2]).blind.0@ == first_blind_of(qs, hs@[k2])
                    && cds@[k2].blind.0.wf(),
            forall|k2: int|
                0 <= k2 < k ==> usize_ints((#[trigger] cds@[k2]).point_indices@) == pidx_of(
                    qs,
                    hs@[k2],
                ),
            forall|k2: int|
                0 <= k2 < k ==> (#[trigger] cds@[k2]).set_index as int == group_of(qs, hs@[k2]),
            forall|k2: int|
                0 <= k2 < k ==> (#[trigger] cds@[k2]).evals@.len() == canon_of(
                    qs,
                    hs@[k2],
                ).len() && wf_scalars(cds@[k2].evals@),
            forall|k2: int, j: int|
                0 <= k2 < k && 0 <= j < cds@[k2].evals@.len() ==> (
                #[trigger] cds@[k2].evals@[j])@ == last_eval_of(
                    qs,
                    hs@[k2],
                    points_of(qs)[canon_of(qs, hs@[k2])[j]],
                ),
        decreases hs@.len() - k,
    {
        let h = hs[k];
        let canon = canonical_set(&hindices[k], pts.len());
        let ghost cspec = canon_of(qs, h);
        proof {
            assert(usize_ints(canon@) == cspec);
            assert(canons_of(qs)[k as int] == cspec);
        }
        // Group index: first-seen index of this canonical set.
        let ghost canons = canons_of(qs);
        proof {
            assert(canons.take(k as int + 1).drop_last() =~= canons.take(k as int));
            assert(canons.take(k as int + 1).last() == cspec);
        }
        let set_index: usize = match find_set(&sets, &canon) {
            Some(si) => {
                proof {
                    assert(firsts(canons.take(k as int + 1)) == setviews(sets@));
                    lemma_firsts_prefix(canons, k as int);
                    lemma_first_index_of_prefix(
                        firsts(canons.take(k as int)),
                        firsts(canons),
                        cspec,
                    );
                }
                si
            },
            None => {
                let cc = copy_usize_vec(&canon);
                sets.push(cc);
                proof {
                    assert(setviews(sets@) =~= firsts(canons.take(k as int)).push(cspec));
                    assert(setviews(sets@) == firsts(canons.take(k as int + 1)));
                    lemma_firsts_distinct(canons.take(k as int + 1));
                    lemma_first_index_of_distinct(
                        firsts(canons.take(k as int + 1)),
                        firsts(canons.take(k as int + 1)).len() - 1,
                    );
                    assert(firsts(canons.take(k as int + 1)).last() == cspec) by {
                        assert(setviews(sets@)[sets@.len() - 1] == cspec);
                    }
                    lemma_firsts_prefix(canons, k as int + 1);
                    lemma_first_index_of_prefix(
                        firsts(canons.take(k as int + 1)),
                        firsts(canons),
                        cspec,
                    );
                }
                sets.len() - 1
            },
        };
        proof {
            assert(set_index as int == group_of(qs, h));
        }
        // Evaluations, aligned to the canonical order: the last query for
        // each (handle, point) pair wins.
        let mut evals: Vec<Scalar> = Vec::new();
        let mut z: usize = 0;
        while z < canon.len()
            invariant
                z <= canon@.len(),
                evals@.len() == z,
                forall|j: int| 0 <= j < z ==> (#[trigger] evals@[j])@ == 0 && evals@[j].wf(),
            decreases canon@.len() - z,
        {
            evals.push(Scalar::zero());
            z = z + 1;
        }
        proof {
            assert(qs.take(0) =~= Seq::<ProverQuery>::empty());
            lemma_canon_entries(pidx_of(qs, h), pts@.len() as int);
            lemma_firsts_distinct(pmap(qs));
        }
        let mut qi: usize = 0;
        while qi < queries.len()
            invariant
                qi <= qs.len(),
                qs == queries@,
                wf_queries(qs),
                scalar_seq(pts@) == points_of(qs),
                wf_scalars(pts@),
                hs@ == handles_of(qs),
                k < hs@.len(),
                h == hs@[k as int],
                hindices@.len() == hs@.len(),
                usize_ints(hindices@[k as int]@) == pidx_of(qs, h),
                usize_ints(canon@) == cspec,
                cspec == canon_of(qs, h),
                forall|e: int| 0 <= e < canon@.len() ==> (#[trigger] canon@[e]) < pts@.len(),
                evals@.len() == canon@.len(),
                distinct(points_of(qs)),
                forall|e1: int, e2: int|
                    0 <= e1 < e2 < cspec.len() ==> cspec[e1] < cspec[e2],
                forall|j: int|
                    0 <= j < evals@.len() ==> (#[trigger] evals@[j])@ == last_eval_of(
                        qs.take(qi as int),
                        h,
                        points_of(qs)[cspec[j]],
                    ) && evals@[j].wf(),
            decreases qs.len() - qi,
        {
            let ghost pref = qs.take(qi as int);
            let ghost prefn = qs.take(qi as int + 1);
            proof {
                assert(prefn.drop_last() =~= pref);
                assert(prefn.last() == qs[qi as int]);
            }
            if queries[qi].poly == h {
                let pi = match find_point(&pts, &queries[qi].point) {
                    Some(pi) => pi,
                    None => {
                        proof {
                            assert(pmap(qs)[qi as int] == qs[qi as int].point@);
                            lemma_firsts_contains(pmap(qs), qs[qi as int].point@);
                            assert(false);
                        }
                        0
                    },
                };
                proof {
                    lemma_first_index_of_works(points_of(qs), qs[qi as int].point@);
                    lemma_pidx_has_query(qs, qi as int);
                    lemma_canon_contains(pidx_of(qs, h), pts@.len() as int, pi as int);
                    assert(cspec.contains(pi as int));
                    let w = choose|w: int| 0 <= w < cspec.len() && cspec[w] == pi as int;
                    assert(canon@[w] == pi);
                    assert(canon@.contains(pi));
                }
                let pos = match find_usize(&canon, pi) {
                    Some(pos) => pos,
                    None => {
                        proof {
                            assert(false);
                        }
                        0
                    },
                };
                proof {
                    lemma_first_index_of_works(canon@, pi);
                    assert(canon@[pos as int] == pi);
                    assert(cspec[pos as int] == pi as int);
                }
                let q_eval = queries[qi].eval;
                evals[pos] = q_eval;
                proof {
                    assert(points_of(qs)[pi as int] == qs[qi as int].point@);
                    assert forall|j: int| 0 <= j < evals@.len() implies (
                    #[trigger] evals@[j])@ == last_eval_of(
                        prefn,
                        h,
                        points_of(qs)[cspec[j]],
                    ) && evals@[j].wf() by {
                        if j != pos {
                            assert(cspec[j] != pi as int);
                            assert(points_of(qs)[cspec[j]] != qs[qi as int].point@);
                        }
                    }
                }
            } else {
                proof {
                    assert(forall|j: int|
                        0 <= j < evals@.len() ==> last_eval_of(
                            prefn,
                            h,
                            points_of(qs)[cspec[j]],
                        ) == last_eval_of(pref, h, #[trigger] points_of(qs)[cspec[j]]));
                }
            }
            qi = qi + 1;
        }
        proof {
            assert(qs.take(qs.len() as int) =~= qs);
        }
        let point_indices = copy_usize_vec(&hindices[k]);
        let blind = hblinds[k];
        cds.push(CommitmentData { poly: h, set_index, blind, point_indices, evals });
        k = k + 1;
    }
    proof {
        assert(canons_of(qs).take(canons_of(qs).len() as int) =~= canons_of(qs));
    }
    // The actual points of each distinct point set, in canonical order.
    let mut point_sets: Vec<Vec<Scalar>> = Vec::new();
    let mut s2: usize = 0;
    while s2 < sets.len()
        invariant
            s2 <= sets@.len(),
            scalar_seq(pts@) == points_of(qs),
            wf_scalars(pts@),
            setviews(sets@) == sets_of(qs),
            forall|t: int, e: int|
                0 <= t < sets@.len() && 0 <= e < sets@[t]@.len() ==> (#[trigger] sets@[t]@[e])
                    < pts@.len(),
            point_sets@.len() == s2,
            forall|t: int|
                0 <= t < s2 ==> (#[trigger] point_sets@[t])@.len() == sets_of(qs)[t].len()
                    && wf_scalars(point_sets@[t]@),
            forall|t: int, j: int|
                0 <= t < s2 && 0 <= j < point_sets@[t]@.len() ==> (
                #[trigger] point_sets@[t]@[j])@ == points_of(qs)[sets_of(qs)[t][j]],
        decreases sets@.len() - s2,
    {
        let mut ps: Vec<Scalar> = Vec::new();
        let mut e: usize = 0;
        while e < sets[s2].len()
            invariant
                s2 < sets@.len(),
                e <= sets@[s2 as int]@.len(),
                scalar_seq(pts@) == points_of(qs),
                wf_scalars(pts@),
                setviews(sets@) == sets_of(qs),
                forall|t: int, e2: int|
                    0 <= t < sets@.len() && 0 <= e2 < sets@[t]@.len() ==> (
                    #[trigger] sets@[t]@[e2]) < pts@.len(),
                ps@.len() == e,
                forall|j: int|
                    0 <= j < e ==> (#[trigger] ps@[j])@ == points_of(qs)[sets_of(qs)[s2 as int][j]]
                        && ps@[j].wf(),
            decreases sets@[s2 as int]@.len() - e,
        {
            let idx = sets[s2][e];
            ps.push(pts[idx]);
            proof {
                assert(sets_of(qs)[s2 as int][e as int] == sets@[s2 as int]@[e as int] as int);
            }
            e = e + 1;
        }
        point_sets.push(ps);
        proof {
            assert(sets_of(qs)[s2 as int].len() == sets@[s2 as int]@.len());
        }
        s2 = s2 + 1;
    }
    (cds, point_sets)
}

/// Grouping is by point-index set and by nothing else: two queried handles
/// share a group index exactly when their canonical point-index sets are
/// equal, whatever the order their queries were made in.
pub proof fn lemma_grouping_by_point_set(qs: Seq<ProverQuery>, h1: usize, h2: usize)
    requires
        hmap(qs).contains(h1),
        hmap(qs).contains(h2),
    ensures
        (group_of(qs, h1) == group_of(qs, h2)) <==> (canon_of(qs, h1) == canon_of(qs, h2)),
{
    lemma_firsts_contains(hmap(qs), h1);
    lemma_firsts_contains(hmap(qs), h2);
    let w1 = choose|w: int| 0 <= w < handles_of(qs).len() && handles_of(qs)[w] == h1;
    let w2 = choose|w: int| 0 <= w < handles_of(qs).len() && handles_of(qs)[w] == h2;
    assert(canons_of(qs)[w1] == canon_of(qs, h1));
    assert(canons_of(qs)[w2] == canon_of(qs, h2));
    assert(canons_of(qs).contains(canon_of(qs, h1)));
    assert(canons_of(qs).contains(canon_of(qs, h2)));
    lemma_firsts_contains(canons_of(qs), canon_of(qs, h1));
    lemma_firsts_contains(canons_of(qs), canon_of(qs, h2));
    lemma_first_index_of_works(sets_of(qs), canon_of(qs, h1));
    lemma_first_index_of_works(sets_of(qs), canon_of(qs, h2));
}

} // verus!
