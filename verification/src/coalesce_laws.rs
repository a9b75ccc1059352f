//! Coalescing only reorders: every item is placed exactly once, so any sum
//! over the items is the same before and after.
use vstd::prelude::*;
use vstd::seq_lib::lemma_fold_left_permutation;
use crate::coalesce::{block, coalesce_order, coalesce_seq, family_members, first_of_family, same_key};

verus! {

/// How many times `x` occurs in `s`.
pub open spec fn occ(s: Seq<int>, x: int) -> nat
    decreases s.len(),
{
    if s.len() == 0 {
        0
    } else {
        occ(s.drop_last(), x) + if s.last() == x { 1nat } else { 0nat }
    }
}

/// The sum of `h` over the items of `s`.
pub open spec fn sum_of<A>(s: Seq<A>, h: spec_fn(A) -> nat) -> nat {
    s.fold_left(0nat, |acc: nat, a: A| acc + h(a))
}

/// The indices `0..n`, in order.
pub open spec fn indices(n: int) -> Seq<int> {
    Seq::new(n as nat, |i: int| i)
}

/// Item `j` is the one whose block places item `x`: `x` itself when it has
/// no family, else the first member of `x`'s family.
pub open spec fn leads(fams: Seq<Option<(Seq<char>, bool)>>, j: int, x: int) -> bool {
    &&& 0 <= j <= x < fams.len()
    &&& match fams[x] {
        None => j == x,
        Some(_) => first_of_family(fams, j) && same_key(fams[j], fams[x]),
    }
}

pub(crate) proof fn lemma_occ_concat(a: Seq<int>, b: Seq<int>, x: int)
    ensures
        occ(a + b, x) == occ(a, x) + occ(b, x),
    decreases b.len(),
{
    if b.len() == 0 {
        assert(a + b =~= a);
    } else {
        lemma_occ_concat(a, b.drop_last(), x);
        assert((a + b).drop_last() =~= a + b.drop_last());
    }
}

pub(crate) proof fn lemma_occ_single(y: int, x: int)
    ensures
        occ(seq![y], x) == if y == x { 1nat } else { 0nat },
{
    let s = seq![y];
    assert(s.drop_last() =~= Seq::<int>::empty());
    assert(s.last() == y);
    assert(occ(Seq::<int>::empty(), x) == 0);
}

pub(crate) proof fn lemma_occ_multiset(s: Seq<int>, x: int)
    ensures
        occ(s, x) == s.to_multiset().count(x),
    decreases s.len(),
{
    broadcast use vstd::seq_lib::group_to_multiset_ensures;
    if s.len() > 0 {
        lemma_occ_multiset(s.drop_last(), x);
        assert(s.drop_last().push(s.last()) =~= s);
    } else {
        assert(s.to_multiset() =~= vstd::multiset::Multiset::empty());
    }
}

pub(crate) proof fn lemma_occ_indices(n: int, x: int)
    requires
        0 <= n,
    ensures
        occ(indices(n), x) == if 0 <= x < n { 1nat } else { 0nat },
    decreases n,
{
    if n > 0 {
        lemma_occ_indices(n - 1, x);
        assert(indices(n).drop_last() =~= indices(n - 1));
    }
}

proof fn lemma_occ_family_members(fams: Seq<Option<(Seq<char>, bool)>>, key: Seq<char>, parent: bool, lo: int, hi: int, x: int)
    requires
        0 <= lo,
        hi <= fams.len(),
    ensures
        occ(family_members(fams, key, parent, lo, hi), x)
            == if lo <= x < hi && fams[x] == Some((key, parent)) { 1nat } else { 0nat },
    decreases hi - lo,
{
    if hi > lo {
        lemma_occ_family_members(fams, key, parent, lo, hi - 1, x);
        let prev = family_members(fams, key, parent, lo, hi - 1);
        let tail = if fams[hi - 1] == Some((key, parent)) { seq![hi - 1] } else { Seq::<int>::empty() };
        lemma_occ_concat(prev, tail, x);
        if fams[hi - 1] == Some((key, parent)) {
            lemma_occ_single(hi - 1, x);
        } else {
            assert(occ(tail, x) == 0);
        }
        assert(family_members(fams, key, parent, lo, hi) == prev + tail);
    }
}

proof fn lemma_occ_block(fams: Seq<Option<(Seq<char>, bool)>>, j: int, x: int)
    requires
        0 <= j < fams.len(),
    ensures
        occ(block(fams, j), x) == if leads(fams, j, x) { 1nat } else { 0nat },
{
    let n = fams.len() as int;
    match fams[j] {
        None => {
            assert(block(fams, j) == seq![j]);
            lemma_occ_single(j, x);
            if leads(fams, j, x) && fams[x] is Some {
                assert(first_of_family(fams, j));
            }
        },
        Some((k, _)) => {
            if first_of_family(fams, j) {
                lemma_occ_family_members(fams, k, true, j, n, x);
                lemma_occ_family_members(fams, k, false, j, n, x);
                lemma_occ_concat(family_members(fams, k, true, j, n), family_members(fams, k, false, j, n), x);
                if 0 <= x < n && fams[x] is Some && same_key(fams[j], fams[x]) && x < j {
                    assert(!same_key(fams[x], fams[j]));
                }
                if 0 <= x < n {
                    match fams[x] {
                        Some((k2, b2)) => {
                            if k2 == k {
                                if b2 { assert(fams[x] == Some((k, true))); } else { assert(fams[x] == Some((k, false))); }
                            }
                        },
                        None => {},
                    }
                }
            } else {
                assert(block(fams, j) == Seq::<int>::empty());
            }
        },
    }
}

proof fn lemma_leader_exists(fams: Seq<Option<(Seq<char>, bool)>>, x: int)
    requires
        0 <= x < fams.len(),
    ensures
        exists|j: int| leads(fams, j, x),
    decreases x,
{
    match fams[x] {
        None => {
            assert(leads(fams, x, x));
        },
        Some(_) => {
            if first_of_family(fams, x) {
                assert(leads(fams, x, x));
            } else {
                let m = choose|m: int| 0 <= m < x && same_key(#[trigger] fams[m], fams[x]);
                lemma_leader_exists(fams, m);
                let j = choose|j: int| leads(fams, j, m);
                assert(leads(fams, j, x));
            }
        },
    }
}

proof fn lemma_leader_unique(fams: Seq<Option<(Seq<char>, bool)>>, a: int, b: int, x: int)
    requires
        leads(fams, a, x),
        leads(fams, b, x),
    ensures
        a == b,
{
    if fams[x] is Some && a != b {
        if a < b {
            assert(!same_key(fams[a], fams[b]));
        } else {
            assert(!same_key(fams[b], fams[a]));
        }
    }
}

proof fn lemma_occ_coalesce_prefix(fams: Seq<Option<(Seq<char>, bool)>>, m: int, x: int)
    requires
        0 <= m <= fams.len(),
    ensures
        occ(coalesce_order(fams, m), x)
            == if exists|j: int| j < m && #[trigger] leads(fams, j, x) { 1nat } else { 0nat },
    decreases m,
{
    if m > 0 {
        lemma_occ_coalesce_prefix(fams, m - 1, x);
        lemma_occ_block(fams, m - 1, x);
        lemma_occ_concat(coalesce_order(fams, m - 1), block(fams, m - 1), x);
        if exists|j: int| j < m - 1 && #[trigger] leads(fams, j, x) {
            let j = choose|j: int| j < m - 1 && #[trigger] leads(fams, j, x);
            if leads(fams, m - 1, x) {
                lemma_leader_unique(fams, j, m - 1, x);
            }
        }
        if leads(fams, m - 1, x) {
            assert(exists|j: int| j < m && #[trigger] leads(fams, j, x));
        }
        if exists|j: int| j < m && #[trigger] leads(fams, j, x) {
            let j = choose|j: int| j < m && #[trigger] leads(fams, j, x);
            if j < m - 1 {
                assert(exists|j: int| j < m - 1 && #[trigger] leads(fams, j, x));
            }
        }
    } else {
        assert(!exists|j: int| j < m && #[trigger] leads(fams, j, x));
    }
}

/// The coalesced order holds every index of the items exactly once and
/// nothing else.
pub proof fn lemma_coalesce_order_permutes(fams: Seq<Option<(Seq<char>, bool)>>, x: int)
    ensures
        occ(coalesce_order(fams, fams.len() as int), x) == if 0 <= x < fams.len() { 1nat } else { 0nat },
{
    let n = fams.len() as int;
    lemma_occ_coalesce_prefix(fams, n, x);
    if 0 <= x < n {
        lemma_leader_exists(fams, x);
        let j = choose|j: int| leads(fams, j, x);
        assert(j < n && leads(fams, j, x));
    }
}

proof fn lemma_sum_map<A>(idx: Seq<int>, items: Seq<A>, h: spec_fn(A) -> nat)
    ensures
        sum_of(idx.map_values(|i: int| items[i]), h) == sum_of(idx, |i: int| h(items[i])),
    decreases idx.len(),
{
    if idx.len() > 0 {
        lemma_sum_map(idx.drop_last(), items, h);
        assert(idx.map_values(|i: int| items[i]).drop_last() =~= idx.drop_last().map_values(|i: int| items[i]));
    }
}

/// Coalescing keeps the sum of any measure over the items.
pub proof fn lemma_coalesce_keeps_sums<A>(items: Seq<A>, fams: Seq<Option<(Seq<char>, bool)>>, h: spec_fn(A) -> nat)
    requires
        fams.len() == items.len(),
    ensures
        sum_of(coalesce_seq(items, fams), h) == sum_of(items, h),
{
    let n = fams.len() as int;
    let p = coalesce_order(fams, n);
    let r = indices(n);
    assert forall|x: int| #[trigger] p.to_multiset().count(x) == r.to_multiset().count(x) by {
        lemma_occ_multiset(p, x);
        lemma_occ_multiset(r, x);
        lemma_coalesce_order_permutes(fams, x);
        lemma_occ_indices(n, x);
    }
    assert(p.to_multiset() =~= r.to_multiset());
    let g = |i: int| h(items[i]);
    let f = |acc: nat, i: int| acc + g(i);
    assert(vstd::seq_lib::commutative_foldl(f));
    lemma_fold_left_permutation(p, r, f, 0nat);
    lemma_sum_map(p, items, h);
    lemma_sum_map(r, items, h);
    assert(f =~= |acc: nat, i: int| acc + h(items[i]));
    assert(r.map_values(|i: int| items[i]) =~= items);
}

} // verus!
