//! Ranks of the workspaces in the fully expanded folder view: the state's
//! (canonical) workspace order with each worktree family drawn together at
//! its first member, parent first.
use vstd::prelude::*;
use crate::shell::{first_match, kept, lemma_step};
use crate::state::{family_of, AppState, Workspace};
use crate::text::str_eq;

verus! {

/// Whether workspace `j` belongs to family `key`.
pub open spec fn in_family(ws: Seq<Workspace>, key: Seq<char>, j: int) -> bool {
    family_of(ws[j]) matches Some((k, _)) && k == key
}

/// The indices below `n` of family `key`, in order.
pub open spec fn family_indices(ws: Seq<Workspace>, key: Seq<char>, n: int) -> Seq<int>
    decreases n,
{
    if n <= 0 {
        seq![]
    } else if in_family(ws, key, n - 1) {
        family_indices(ws, key, n - 1).push(n - 1)
    } else {
        family_indices(ws, key, n - 1)
    }
}

/// Whether workspace `j` is a family's parent checkout.
pub open spec fn parent_at(ws: Seq<Workspace>) -> spec_fn(int) -> bool {
    |j: int| family_of(ws[j]) matches Some((_, p)) && p
}

/// A family is drawn grouped when it has two members or more and a parent.
pub open spec fn family_grouped(ws: Seq<Workspace>, key: Seq<char>) -> bool {
    let ms = family_indices(ws, key, ws.len() as int);
    ms.len() >= 2 && first_match(ms, parent_at(ws)) is Some
}

/// All but `x`.
pub open spec fn other_than(x: int) -> spec_fn(int) -> bool {
    |j: int| j != x
}

/// What workspace `i` adds to the folder view order: itself when outside a
/// grouped family; its whole family, parent first, when it is the family's
/// first member; nothing for the family's later members.
pub open spec fn view_block(ws: Seq<Workspace>, i: int) -> Seq<int> {
    match family_of(ws[i]) {
        Some((key, _)) => if !family_grouped(ws, key) {
            seq![i]
        } else if family_indices(ws, key, i).len() > 0 {
            seq![]
        } else {
            let ms = family_indices(ws, key, ws.len() as int);
            let parent = match first_match(ms, parent_at(ws)) {
                Some(p) => ms[p],
                None => i,
            };
            seq![parent] + kept(ms, other_than(parent))
        },
        None => seq![i],
    }
}

/// The folder view order of the first `n` workspaces' blocks.
pub open spec fn view_order(ws: Seq<Workspace>, n: int) -> Seq<int>
    decreases n,
{
    if n <= 0 {
        seq![]
    } else {
        view_order(ws, n - 1) + view_block(ws, n - 1)
    }
}

/// Ranks from an order: each index gets its position there; indices the
/// order does not reach keep `usize::MAX`.
pub open spec fn assign_ranks(order: Seq<int>, m: int, n: nat) -> Seq<usize>
    decreases m,
{
    if m <= 0 {
        Seq::new(n, |i: int| usize::MAX)
    } else {
        assign_ranks(order, m - 1, n).update(order[m - 1], (m - 1) as usize)
    }
}

/// The family key of workspace `j`, and whether it is a parent checkout.
fn family_exec(w: &Workspace) -> (r: Option<(&str, bool)>)
    ensures
        match (r, family_of(*w)) {
            (Some((k, p)), Some((k2, p2))) => k@ == k2 && p == p2,
            (None, None) => true,
            _ => false,
        },
{
    match &w.worktree_space {
        Some(s) => Some((s.key.as_str(), !s.is_linked_worktree)),
        None => None,
    }
}

/// The indices below `n` of family `key`.
fn family_indices_exec(ws: &Vec<Workspace>, key: &str, n: usize) -> (r: Vec<usize>)
    requires
        n <= ws@.len(),
    ensures
        r@.map_values(|j: usize| j as int) == family_indices(ws@, key@, n as int),
        forall|q: int| 0 <= q < r@.len() ==> #[trigger] r@[q] < n,
{
    let mut r: Vec<usize> = Vec::new();
    let mut j: usize = 0;
    while j < n
        invariant
            j <= n <= ws@.len(),
            r@.map_values(|x: usize| x as int) == family_indices(ws@, key@, j as int),
            forall|q: int| 0 <= q < r@.len() ==> #[trigger] r@[q] < j,
        decreases n - j,
    {
        let ghost before = r@;
        let hit = match family_exec(&ws[j]) {
            Some((k, _)) => str_eq(k, key),
            None => false,
        };
        if hit {
            r.push(j);
            proof { assert(r@.map_values(|x: usize| x as int) =~= before.map_values(|x: usize| x as int).push(j as int)); }
        }
        j = j + 1;
    }
    r
}

/// Whether workspace `j` is a parent checkout.
fn is_parent_exec(ws: &Vec<Workspace>, j: usize) -> (r: bool)
    requires
        j < ws@.len(),
    ensures
        r == parent_at(ws@)(j as int),
{
    match family_exec(&ws[j]) {
        Some((_, p)) => p,
        None => false,
    }
}

/// Appends workspace `i`'s block to `order`.
fn push_view_block(ws: &Vec<Workspace>, i: usize, order: &mut Vec<usize>)
    requires
        i < ws@.len(),
    ensures
        final(order)@.map_values(|j: usize| j as int) == old(order)@.map_values(|j: usize| j as int) + view_block(ws@, i as int),
{
    let ghost start = order@.map_values(|j: usize| j as int);
    let ghost n = ws@.len() as int;
    let key = match family_exec(&ws[i]) {
        Some((k, _)) => k,
        None => {
            order.push(i);
            proof { assert(order@.map_values(|j: usize| j as int) =~= start + seq![i as int]); }
            return;
        },
    };
    let ms = family_indices_exec(ws, key, ws.len());
    let ghost msi = ms@.map_values(|j: usize| j as int);
    let ghost pw = parent_at(ws@);
    // The family's first parent, if any.
    let mut parent: Option<usize> = None;
    let mut k: usize = 0;
    while k < ms.len()
        invariant
            k <= ms@.len(),
            msi == ms@.map_values(|j: usize| j as int),
            pw == parent_at(ws@),
            forall|q: int| 0 <= q < ms@.len() ==> #[trigger] ms@[q] < ws@.len(),
            match parent {
                Some(p) => first_match(msi, pw) == Some(p as int) && p < ms@.len(),
                None => first_match(msi.take(k as int), pw) is None,
            },
        decreases ms.len() - k,
    {
        if parent.is_none() {
            proof { lemma_step(msi, k as int, pw); }
            if is_parent_exec(ws, ms[k]) {
                proof { crate::shell::lemma_prefix_first(msi, k as int + 1, pw); }
                parent = Some(k);
            }
        }
        k = k + 1;
    }
    proof {
        if parent is None {
            assert(msi.take(ms@.len() as int) =~= msi);
        }
    }
    let grouped = ms.len() >= 2 && parent.is_some();
    if !grouped {
        order.push(i);
        proof { assert(order@.map_values(|j: usize| j as int) =~= start + seq![i as int]); }
        return;
    }
    let earlier = family_indices_exec(ws, key, i);
    if earlier.len() > 0 {
        proof { assert(start + Seq::<int>::empty() =~= start); }
        return;
    }
    let first = match parent {
        Some(p) => ms[p],
        None => i,
    };
    order.push(first);
    let ghost head = order@.map_values(|j: usize| j as int);
    proof { assert(head =~= start + seq![first as int]); }
    let ghost keep = other_than(first as int);
    let mut q: usize = 0;
    while q < ms.len()
        invariant
            q <= ms@.len(),
            msi == ms@.map_values(|j: usize| j as int),
            keep == other_than(first as int),
            order@.map_values(|j: usize| j as int) == head + kept(msi.take(q as int), keep),
        decreases ms.len() - q,
    {
        proof { lemma_step(msi, q as int, keep); }
        let ghost before = order@;
        if ms[q] != first {
            order.push(ms[q]);
            proof {
                assert(order@.map_values(|j: usize| j as int) =~= before.map_values(|j: usize| j as int).push(ms@[q as int] as int));
            }
        }
        q = q + 1;
    }
    proof {
        assert(msi.take(ms@.len() as int) =~= msi);
        assert(seq![first as int] + kept(msi, keep) == view_block(ws@, i as int));
        assert(head + kept(msi, keep) =~= start + (seq![first as int] + kept(msi, keep)));
    }
}

proof fn lemma_family_indices_range(ws: Seq<Workspace>, key: Seq<char>, n: int)
    ensures
        forall|q: int| 0 <= q < family_indices(ws, key, n).len() ==> 0 <= #[trigger] family_indices(ws, key, n)[q] < n,
    decreases n,
{
    if n > 0 {
        lemma_family_indices_range(ws, key, n - 1);
        let prev = family_indices(ws, key, n - 1);
        let cur = family_indices(ws, key, n);
        assert forall|q: int| 0 <= q < cur.len() implies 0 <= #[trigger] cur[q] < n by {
            if q < prev.len() {
                assert(cur[q] == prev[q]);
            }
        }
    }
}

proof fn lemma_kept_range(s: Seq<int>, keep: spec_fn(int) -> bool, lo: int, hi: int)
    requires
        forall|q: int| 0 <= q < s.len() ==> lo <= #[trigger] s[q] < hi,
    ensures
        forall|q: int| 0 <= q < kept(s, keep).len() ==> lo <= #[trigger] kept(s, keep)[q] < hi,
    decreases s.len(),
{
    if s.len() > 0 {
        let d = s.drop_last();
        assert forall|q: int| 0 <= q < d.len() implies lo <= #[trigger] d[q] < hi by {
            assert(d[q] == s[q]);
        }
        lemma_kept_range(d, keep, lo, hi);
        let prev = kept(d, keep);
        let cur = kept(s, keep);
        assert forall|q: int| 0 <= q < cur.len() implies lo <= #[trigger] cur[q] < hi by {
            if q < prev.len() {
                assert(cur[q] == prev[q]);
            }
        }
    }
}

/// The folder view order only holds workspace indices.
proof fn lemma_view_order_range(ws: Seq<Workspace>, m: int)
    requires
        m <= ws.len(),
    ensures
        forall|q: int| 0 <= q < view_order(ws, m).len() ==> 0 <= #[trigger] view_order(ws, m)[q] < ws.len(),
    decreases m,
{
    if m > 0 {
        lemma_view_order_range(ws, m - 1);
        let i = m - 1;
        let b = view_block(ws, i);
        assert forall|q: int| 0 <= q < b.len() implies 0 <= #[trigger] b[q] < ws.len() by {
            if let Some((key, _)) = family_of(ws[i]) {
                if family_grouped(ws, key) && family_indices(ws, key, i).len() == 0 {
                    let ms = family_indices(ws, key, ws.len() as int);
                    lemma_family_indices_range(ws, key, ws.len() as int);
                    crate::shell::lemma_first_match(ms, parent_at(ws));
                    let parent = match first_match(ms, parent_at(ws)) {
                        Some(p) => ms[p],
                        None => i,
                    };
                    lemma_kept_range(ms, other_than(parent), 0, ws.len() as int);
                    if q > 0 {
                        assert(b[q] == kept(ms, other_than(parent))[q - 1]);
                    }
                }
            }
        }
        let v = view_order(ws, m - 1);
        assert forall|q: int| 0 <= q < view_order(ws, m).len() implies 0 <= #[trigger] view_order(ws, m)[q] < ws.len() by {
            if q >= v.len() {
                assert(view_order(ws, m)[q] == b[q - v.len()]);
            } else {
                assert(view_order(ws, m)[q] == v[q]);
            }
        }
    }
}

impl AppState {
    /// Rank of each workspace in the fully expanded folder view: the state's
    /// workspace order with each worktree family grouped at its first
    /// member, parent first.
    pub fn folder_view_workspace_ranks(&self) -> (r: Vec<usize>)
        ensures
            r@ == assign_ranks(view_order(self.workspaces@, self.workspaces@.len() as int),
                view_order(self.workspaces@, self.workspaces@.len() as int).len() as int,
                self.workspaces@.len()),
            r@.len() == self.workspaces@.len(),
            forall|x: int| 0 <= x < r@.len() ==> #[trigger] r@[x] < r@.len(),
            r@.no_duplicates(),
    {
        proof {
            assert(self.workspaces@.len() == self.workspaces.len());
            crate::rank_laws::lemma_view_ranks_permute(self.workspaces@);
        }
        let ws = &self.workspaces;
        let ghost n = ws@.len() as int;
        let mut order: Vec<usize> = Vec::new();
        let mut i: usize = 0;
        while i < ws.len()
            invariant
                i <= ws@.len(),
                n == ws@.len(),
                order@.map_values(|j: usize| j as int) == view_order(ws@, i as int),
            decreases ws.len() - i,
        {
            push_view_block(ws, i, &mut order);
            i = i + 1;
        }
        let ghost full = view_order(ws@, n);
        let mut ranks: Vec<usize> = Vec::new();
        let mut k: usize = 0;
        while k < ws.len()
            invariant
                k <= ws@.len(),
                ranks@ == Seq::new(k as nat, |x: int| usize::MAX),
            decreases ws.len() - k,
        {
            ranks.push(usize::MAX);
            proof { assert(ranks@ =~= Seq::new((k + 1) as nat, |x: int| usize::MAX)); }
            k = k + 1;
        }
        proof { assert(ranks@ =~= assign_ranks(full, 0, ws@.len())); }
        let mut p: usize = 0;
        while p < order.len()
            invariant
                p <= order@.len(),
                n == ws@.len(),
                full == view_order(ws@, n),
                order@.map_values(|j: usize| j as int) == full,
                ranks@ == assign_ranks(full, p as int, ws@.len()),
                ranks@.len() == ws@.len(),
            decreases order.len() - p,
        {
            let target = order[p];
            proof {
                assert(full[p as int] == target as int);
                lemma_view_order_range(ws@, n);
            }
            ranks.set(target, p);
            p = p + 1;
        }
        ranks
    }
}

} // verus!
