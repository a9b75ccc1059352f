//! The fully expanded folder view lists every workspace exactly once, so
//! the ranks it gives are a permutation of the workspaces.
use vstd::prelude::*;
use crate::coalesce_laws::{indices, lemma_occ_concat, lemma_occ_indices, lemma_occ_multiset, lemma_occ_single, occ};
use crate::ranks::{assign_ranks, family_grouped, family_indices, in_family, other_than, parent_at, view_block, view_order};
use crate::shell::{first_match, kept, lemma_first_match};
use crate::state::{family_of, Workspace};

verus! {

proof fn lemma_occ_family_indices(ws: Seq<Workspace>, key: Seq<char>, n: int, x: int)
    ensures
        occ(family_indices(ws, key, n), x) == if 0 <= x < n && in_family(ws, key, x) { 1nat } else { 0nat },
    decreases n,
{
    if n > 0 {
        lemma_occ_family_indices(ws, key, n - 1, x);
        let prev = family_indices(ws, key, n - 1);
        if in_family(ws, key, n - 1) {
            assert(prev.push(n - 1) =~= prev + seq![n - 1]);
            lemma_occ_concat(prev, seq![n - 1], x);
            lemma_occ_single(n - 1, x);
        }
    }
}

proof fn lemma_occ_kept(s: Seq<int>, keep: spec_fn(int) -> bool, x: int)
    ensures
        occ(kept(s, keep), x) == if keep(x) { occ(s, x) } else { 0nat },
    decreases s.len(),
{
    if s.len() > 0 {
        lemma_occ_kept(s.drop_last(), keep, x);
        let k = kept(s.drop_last(), keep);
        if keep(s.last()) {
            assert(k.push(s.last()) =~= k + seq![s.last()]);
            lemma_occ_concat(k, seq![s.last()], x);
            lemma_occ_single(s.last(), x);
        }
    }
}

proof fn lemma_occ_positive(s: Seq<int>, q: int)
    requires
        0 <= q < s.len(),
    ensures
        occ(s, s[q]) > 0,
    decreases s.len(),
{
    if q < s.len() - 1 {
        lemma_occ_positive(s.drop_last(), q);
    }
}

/// Item `j` is the one whose block places workspace `x` in the view: the
/// first member of `x`'s family when that family is drawn grouped, else `x`
/// itself.
pub open spec fn view_leads(ws: Seq<Workspace>, j: int, x: int) -> bool {
    &&& 0 <= j < ws.len()
    &&& 0 <= x < ws.len()
    &&& match family_of(ws[x]) {
        Some((k, _)) => if family_grouped(ws, k) {
            in_family(ws, k, j) && family_indices(ws, k, j).len() == 0
        } else {
            j == x
        },
        None => j == x,
    }
}

proof fn lemma_occ_view_block(ws: Seq<Workspace>, j: int, x: int)
    requires
        0 <= j < ws.len(),
    ensures
        occ(view_block(ws, j), x) == if view_leads(ws, j, x) { 1nat } else { 0nat },
{
    let n = ws.len() as int;
    match family_of(ws[j]) {
        None => {
            lemma_occ_single(j, x);
        },
        Some((key, _)) => {
            if !family_grouped(ws, key) {
                lemma_occ_single(j, x);
            } else if family_indices(ws, key, j).len() > 0 {
                if view_leads(ws, j, x) {
                    assert(family_of(ws[x]) is Some);
                }
            } else {
                let ms = family_indices(ws, key, n);
                lemma_first_match(ms, parent_at(ws));
                let p = first_match(ms, parent_at(ws))->Some_0;
                let parent = ms[p];
                lemma_occ_positive(ms, p);
                lemma_occ_family_indices(ws, key, n, parent);
                lemma_occ_family_indices(ws, key, n, x);
                lemma_occ_kept(ms, other_than(parent), x);
                lemma_occ_single(parent, x);
                lemma_occ_concat(seq![parent], kept(ms, other_than(parent)), x);
                assert(view_block(ws, j) == seq![parent] + kept(ms, other_than(parent)));
                if 0 <= x < n {
                    match family_of(ws[x]) {
                        Some((k2, _)) => {
                            if k2 == key {
                                assert(in_family(ws, key, x));
                            }
                        },
                        None => {},
                    }
                }
            }
        },
    }
}

proof fn lemma_view_leader_exists(ws: Seq<Workspace>, x: int)
    requires
        0 <= x < ws.len(),
    ensures
        exists|j: int| view_leads(ws, j, x),
    decreases x,
{
    match family_of(ws[x]) {
        Some((k, _)) => {
            if family_grouped(ws, k) {
                if family_indices(ws, k, x).len() == 0 {
                    assert(in_family(ws, k, x));
                    assert(view_leads(ws, x, x));
                } else {
                    let ms = family_indices(ws, k, x);
                    lemma_occ_positive(ms, 0);
                    lemma_occ_family_indices(ws, k, x, ms[0]);
                    let m = ms[0];
                    lemma_view_leader_exists(ws, m);
                    let j = choose|j: int| view_leads(ws, j, m);
                    assert(view_leads(ws, j, x));
                }
            } else {
                assert(view_leads(ws, x, x));
            }
        },
        None => {
            assert(view_leads(ws, x, x));
        },
    }
}

proof fn lemma_view_leader_unique(ws: Seq<Workspace>, a: int, b: int, x: int)
    requires
        view_leads(ws, a, x),
        view_leads(ws, b, x),
    ensures
        a == b,
{
    if a != b {
        if let Some((k, _)) = family_of(ws[x]) {
            if family_grouped(ws, k) {
                let (lo, hi) = if a < b { (a, b) } else { (b, a) };
                lemma_occ_family_indices(ws, k, hi, lo);
                if family_indices(ws, k, hi).len() == 0 {
                    assert(family_indices(ws, k, hi) =~= Seq::<int>::empty());
                }
            }
        }
    }
}

proof fn lemma_occ_view_prefix(ws: Seq<Workspace>, m: int, x: int)
    requires
        0 <= m <= ws.len(),
    ensures
        occ(view_order(ws, m), x) == if exists|j: int| j < m && #[trigger] view_leads(ws, j, x) { 1nat } else { 0nat },
    decreases m,
{
    if m > 0 {
        lemma_occ_view_prefix(ws, m - 1, x);
        lemma_occ_view_block(ws, m - 1, x);
        lemma_occ_concat(view_order(ws, m - 1), view_block(ws, m - 1), x);
        if exists|j: int| j < m - 1 && #[trigger] view_leads(ws, j, x) {
            let j = choose|j: int| j < m - 1 && #[trigger] view_leads(ws, j, x);
            if view_leads(ws, m - 1, x) {
                lemma_view_leader_unique(ws, j, m - 1, x);
            }
        }
        if view_leads(ws, m - 1, x) {
            assert(exists|j: int| j < m && #[trigger] view_leads(ws, j, x));
        }
        if exists|j: int| j < m && #[trigger] view_leads(ws, j, x) {
            let j = choose|j: int| j < m && #[trigger] view_leads(ws, j, x);
            if j < m - 1 {
                assert(exists|j: int| j < m - 1 && #[trigger] view_leads(ws, j, x));
            }
        }
    } else {
        assert(!exists|j: int| j < m && #[trigger] view_leads(ws, j, x));
    }
}

/// The fully expanded folder view lists every workspace exactly once.
pub proof fn lemma_view_order_permutes(ws: Seq<Workspace>, x: int)
    ensures
        occ(view_order(ws, ws.len() as int), x) == if 0 <= x < ws.len() { 1nat } else { 0nat },
{
    lemma_occ_view_prefix(ws, ws.len() as int, x);
    if 0 <= x < ws.len() {
        lemma_view_leader_exists(ws, x);
    }
}

proof fn lemma_occ_no_dup(s: Seq<int>)
    requires
        forall|x: int| #[trigger] occ(s, x) <= 1,
    ensures
        s.no_duplicates(),
{
    assert forall|i: int, j: int| 0 <= i < s.len() && 0 <= j < s.len() && i != j implies s[i] != s[j] by {
        if s[i] == s[j] {
            let (a, b) = if i < j { (i, j) } else { (j, i) };
            assert(s =~= s.take(b) + s.skip(b));
            lemma_occ_concat(s.take(b), s.skip(b), s[a]);
            lemma_occ_positive(s.take(b), a);
            lemma_occ_positive(s.skip(b), 0);
            assert(s.take(b)[a] == s[a]);
            assert(s.skip(b)[0] == s[b]);
        }
    }
}

proof fn lemma_assign_ranks(order: Seq<int>, m: int, n: nat)
    requires
        0 <= m <= order.len(),
        order.len() <= usize::MAX,
        order.no_duplicates(),
        forall|k: int| 0 <= k < order.len() ==> 0 <= #[trigger] order[k] < n,
    ensures
        assign_ranks(order, m, n).len() == n,
        forall|k: int| 0 <= k < m ==> assign_ranks(order, m, n)[#[trigger] order[k]] == k,
        forall|x: int| 0 <= x < n && !order.take(m).contains(x) ==> #[trigger] assign_ranks(order, m, n)[x] == usize::MAX,
    decreases m,
{
    if m > 0 {
        lemma_assign_ranks(order, m - 1, n);
        let r0 = assign_ranks(order, m - 1, n);
        assert(assign_ranks(order, m, n) == r0.update(order[m - 1], (m - 1) as usize));
        assert forall|k: int| 0 <= k < m implies assign_ranks(order, m, n)[#[trigger] order[k]] == k by {
            if k < m - 1 {
                assert(order[k] != order[m - 1]);
            }
        }
        assert forall|x: int| 0 <= x < n && !order.take(m).contains(x) implies #[trigger] assign_ranks(order, m, n)[x] == usize::MAX by {
            assert(order.take(m)[m - 1] == order[m - 1]);
            if order.take(m - 1).contains(x) {
                let q = choose|q: int| 0 <= q < m - 1 && #[trigger] order.take(m - 1)[q] == x;
                assert(order.take(m)[q] == x);
            }
        }
    }
}

/// The ranks of the fully expanded folder view are a permutation of the
/// workspaces: one rank per workspace, each below the number of
/// workspaces, no two alike.
pub proof fn lemma_view_ranks_permute(ws: Seq<Workspace>)
    requires
        ws.len() <= usize::MAX,
    ensures
        ({
            let n = ws.len() as int;
            let order = view_order(ws, n);
            let r = assign_ranks(order, order.len() as int, ws.len());
            &&& r.len() == ws.len()
            &&& forall|x: int| 0 <= x < n ==> #[trigger] r[x] < n
            &&& r.no_duplicates()
        }),
{
    let n = ws.len() as int;
    let order = view_order(ws, n);
    assert forall|x: int| #[trigger] occ(order, x) <= 1 by {
        lemma_view_order_permutes(ws, x);
    }
    lemma_occ_no_dup(order);
    assert forall|x: int| #[trigger] order.to_multiset().count(x) == indices(n).to_multiset().count(x) by {
        lemma_occ_multiset(order, x);
        lemma_occ_multiset(indices(n), x);
        lemma_view_order_permutes(ws, x);
        lemma_occ_indices(n, x);
    }
    assert(order.to_multiset() =~= indices(n).to_multiset());
    broadcast use vstd::seq_lib::group_to_multiset_ensures;
    assert(order.len() == order.to_multiset().len());
    assert(indices(n).len() == indices(n).to_multiset().len());
    assert forall|k: int| 0 <= k < order.len() implies 0 <= #[trigger] order[k] < ws.len() by {
        lemma_occ_positive(order, k);
        lemma_view_order_permutes(ws, order[k]);
    }
    lemma_assign_ranks(order, order.len() as int, ws.len());
    let r = assign_ranks(order, order.len() as int, ws.len());
    assert(order.take(order.len() as int) =~= order);
    assert forall|x: int| 0 <= x < n implies #[trigger] r[x] < n by {
        lemma_view_order_permutes(ws, x);
        if !order.contains(x) {
            if occ(order, x) > 0 {
                lemma_occ_contains(order, x);
            }
        }
        let k = choose|k: int| 0 <= k < order.len() && order[k] == x;
        assert(r[order[k]] == k);
    }
    assert forall|x: int, y: int| 0 <= x < r.len() && 0 <= y < r.len() && x != y implies r[x] != r[y] by {
        lemma_view_order_permutes(ws, x);
        lemma_view_order_permutes(ws, y);
        lemma_occ_contains(order, x);
        lemma_occ_contains(order, y);
        let kx = choose|k: int| 0 <= k < order.len() && order[k] == x;
        let ky = choose|k: int| 0 <= k < order.len() && order[k] == y;
        assert(r[order[kx]] == kx);
        assert(r[order[ky]] == ky);
    }
}

proof fn lemma_occ_contains(s: Seq<int>, x: int)
    requires
        occ(s, x) > 0,
    ensures
        s.contains(x),
    decreases s.len(),
{
    if s.last() == x {
        assert(s[s.len() - 1] == x);
    } else {
        lemma_occ_contains(s.drop_last(), x);
        let q = choose|q: int| 0 <= q < s.drop_last().len() && s.drop_last()[q] == x;
        assert(s[q] == x);
    }
}

} // verus!
