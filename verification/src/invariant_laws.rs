//! The folder operations keep the space-order invariants: the order
//! references only live workspaces, each once; folder ids are unique and
//! folder names are not blank; the workspaces follow the canonical order;
//! and no worktree family is split across folders.
use vstd::prelude::*;
use crate::folder::{
    count_of, flat, folder_ids, folder_of_spec, loose_entries, missing_ids, normalize_spec, order_is_clean, EntryV,
};
use crate::folder_laws::{
    lemma_canonical_is_permutation, lemma_count_contains, lemma_flat_loose, lemma_normalize_appends_missing,
    lemma_normalized_order_is_clean, refs_at_most_once,
};
use crate::order_laws::{holds_in, lemma_folder_id_unique, lemma_folder_of_holds, lemma_in_folder_flat, lemma_insert_parts, lemma_move_entry_keeps, in_folder, lemma_coalesce_entries_keeps, lemma_in_folder_concat, lemma_in_folder_loose, lemma_same_holder};
use crate::state::{
    canonical_of, coalesce_entries_spec, first_pos, lemma_counts_no_dup, lemma_first_pos, lemma_no_dup_counts,
    normalize_entries_spec, normalize_state_spec, same_family, sorted_ws, space_order_invariants, state_wf, sync_spec,
    ws_ids, StateV, Workspace,
};
use crate::state_laws::{lemma_normalize_keeps_sorted, ws_sorted};
use crate::name_laws::names_ok;
use crate::folder::{entry_refs, folder_id_spec, folder_index, FolderV};
use crate::folder_laws::{entry_folder_ids, lemma_folder_index_found_pub, lemma_count_concat_pub, lemma_flat_concat, lemma_folder_ids_concat};
use crate::state::{create_folder_spec, delete_folder_spec, folder_at, move_folder_spec};
use crate::state::{assign_spec, clamp_position, family_ids, family_key_of, in_family, remove_block, colocate_spec};
use crate::order_laws::{lemma_remove_block_keeps, lemma_folder_in_ids};
use crate::state::{family_members_of, first_unlinked, colocate_all, heal_spec, family_keys, install_spec, named_order};

verus! {

/// Every workspace of `a` is a workspace of `b`.
pub open spec fn ws_from(a: Seq<Workspace>, b: Seq<Workspace>) -> bool {
    forall|i: int| 0 <= i < a.len() ==> exists|j: int| 0 <= j < b.len() && #[trigger] a[i] == #[trigger] b[j]
}

/// Two workspace lists with the same ids.
pub open spec fn same_ids(a: Seq<Workspace>, b: Seq<Workspace>) -> bool {
    forall|x: Seq<char>| #[trigger] ws_ids(a).contains(x) == ws_ids(b).contains(x)
}

/// Workspaces of one worktree family sit in the same folder, or all loose.
pub open spec fn families_together(ws: Seq<Workspace>, order: Seq<EntryV>) -> bool {
    forall|i: int, j: int| 0 <= i < ws.len() && 0 <= j < ws.len() && same_family(#[trigger] ws[i], #[trigger] ws[j])
        ==> folder_of_spec(order, ws[i].id@) == folder_of_spec(order, ws[j].id@)
}

/// The invariants of a space order against its workspaces, all but the
/// workspace order itself.
pub open spec fn order_fits(ws: Seq<Workspace>, order: Seq<EntryV>) -> bool {
    &&& flat(order).no_duplicates()
    &&& forall|x: Seq<char>| flat(order).contains(x) ==> ws_ids(ws).contains(x)
    &&& folder_ids(order).no_duplicates()
    &&& names_ok(order)
    &&& families_together(ws, order)
}

/// Workspace `w` belongs to a worktree family whose key is in `done`.
pub open spec fn key_in(w: Workspace, done: Set<Seq<char>>) -> bool {
    w.worktree_space matches Some(sp) && done.contains(sp.key@)
}

/// The workspaces of each family whose key is in `done` sit together.
pub open spec fn together_in(ws: Seq<Workspace>, order: Seq<EntryV>, done: Set<Seq<char>>) -> bool {
    forall|i: int, j: int| 0 <= i < ws.len() && 0 <= j < ws.len() && same_family(#[trigger] ws[i], #[trigger] ws[j])
        && key_in(ws[i], done) ==> folder_of_spec(order, ws[i].id@) == folder_of_spec(order, ws[j].id@)
}

/// The order references only live workspaces, each once, and repeats no
/// folder id.
pub open spec fn order_base(ws: Seq<Workspace>, order: Seq<EntryV>) -> bool {
    &&& flat(order).no_duplicates()
    &&& forall|x: Seq<char>| flat(order).contains(x) ==> ws_ids(ws).contains(x)
    &&& folder_ids(order).no_duplicates()
}

/// A state on the way to the invariants: ids unique, the order sound, and
/// the families whose keys are in `done` together.
pub open spec fn healing(t: StateV, done: Set<Seq<char>>) -> bool {
    &&& state_wf(t)
    &&& order_base(t.ws, t.order)
    &&& together_in(t.ws, t.order, done)
}

proof fn lemma_together_full(ws: Seq<Workspace>, order: Seq<EntryV>)
    ensures
        together_in(ws, order, Set::full()) == families_together(ws, order),
{
    if families_together(ws, order) {
        assert forall|i: int, j: int| 0 <= i < ws.len() && 0 <= j < ws.len() && same_family(#[trigger] ws[i], #[trigger] ws[j])
            && key_in(ws[i], Set::full()) implies folder_of_spec(order, ws[i].id@) == folder_of_spec(order, ws[j].id@) by {}
    }
    if together_in(ws, order, Set::full()) {
        assert forall|i: int, j: int| 0 <= i < ws.len() && 0 <= j < ws.len() && same_family(#[trigger] ws[i], #[trigger] ws[j])
            implies folder_of_spec(order, ws[i].id@) == folder_of_spec(order, ws[j].id@) by {
            assert(key_in(ws[i], Set::full()));
        }
    }
}

proof fn lemma_together_from(a: Seq<Workspace>, b: Seq<Workspace>, order: Seq<EntryV>, done: Set<Seq<char>>)
    requires
        ws_from(a, b),
        together_in(b, order, done),
    ensures
        together_in(a, order, done),
{
    assert forall|i: int, j: int| 0 <= i < a.len() && 0 <= j < a.len() && same_family(#[trigger] a[i], #[trigger] a[j])
        && key_in(a[i], done) implies folder_of_spec(order, a[i].id@) == folder_of_spec(order, a[j].id@) by {
        let p = choose|p: int| 0 <= p < b.len() && #[trigger] a[i] == #[trigger] b[p];
        let q = choose|q: int| 0 <= q < b.len() && #[trigger] a[j] == #[trigger] b[q];
        assert(same_family(b[p], b[q]));
    }
}

proof fn lemma_families_from(a: Seq<Workspace>, b: Seq<Workspace>, order: Seq<EntryV>)
    requires
        ws_from(a, b),
        families_together(b, order),
    ensures
        families_together(a, order),
{
    assert forall|i: int, j: int| 0 <= i < a.len() && 0 <= j < a.len() && same_family(#[trigger] a[i], #[trigger] a[j])
        implies folder_of_spec(order, a[i].id@) == folder_of_spec(order, a[j].id@) by {
        let p = choose|p: int| 0 <= p < b.len() && #[trigger] a[i] == #[trigger] b[p];
        let q = choose|q: int| 0 <= q < b.len() && #[trigger] a[j] == #[trigger] b[q];
        assert(same_family(b[p], b[q]));
    }
}

/// Re-sorting takes every workspace from the state and keeps the ids.
pub proof fn lemma_sync_from(t: StateV)
    requires
        state_wf(t),
    ensures
        ws_from(sync_spec(t).ws, t.ws),
        same_ids(sync_spec(t).ws, t.ws),
{
    let ids = ws_ids(t.ws);
    let canon = canonical_of(t);
    lemma_canonical_is_permutation(t.order, ids);
    crate::state::lemma_sync_sorts(t);
    assert forall|x: Seq<char>| #[trigger] canon.contains(x) == ids.contains(x) by {
        lemma_count_contains(canon, x);
    }
    if ids != canon {
        let sorted = sorted_ws(t.ws, canon);
        assert forall|k: int| 0 <= k < sorted.len() implies exists|j: int| 0 <= j < t.ws.len() && #[trigger] sorted[k] == #[trigger] t.ws[j] by {
            let c = canon[k];
            assert(canon.contains(c));
            lemma_first_pos(ids, c);
            let j = first_pos(ids, c)->Some_0;
            assert(sorted[k] == t.ws[j]);
        }
    } else {
        assert forall|k: int| 0 <= k < t.ws.len() implies exists|j: int| 0 <= j < t.ws.len() && #[trigger] t.ws[k] == #[trigger] t.ws[j] by {
            assert(t.ws[k] == t.ws[k]);
        }
    }
}

/// An order fits the workspaces it was checked against, and re-sorting
/// the workspaces to it gives a state with every invariant.
pub proof fn lemma_sync_establishes(t: StateV)
    requires
        state_wf(t),
        order_fits(t.ws, t.order),
    ensures
        space_order_invariants(sync_spec(t)),
        ws_from(sync_spec(t).ws, t.ws),
        same_ids(sync_spec(t).ws, t.ws),
        state_wf(sync_spec(t)),
{
    lemma_sync_from(t);
    crate::state_laws::lemma_sync_sorted(t);
    crate::state::lemma_sync_sorts(t);
    let u = sync_spec(t);
    lemma_families_from(u.ws, t.ws, t.order);
    assert forall|x: Seq<char>| flat(u.order).contains(x) implies ws_ids(u.ws).contains(x) by {
        assert(ws_ids(t.ws).contains(x));
    }
}

/// Re-sorting the workspaces keeps a healing state healing, and puts the
/// workspaces in the canonical order.
pub proof fn lemma_sync_base(t: StateV, done: Set<Seq<char>>)
    requires
        healing(t, done),
    ensures
        healing(sync_spec(t), done),
        ws_from(sync_spec(t).ws, t.ws),
        same_ids(sync_spec(t).ws, t.ws),
        ws_sorted(sync_spec(t)),
{
    lemma_sync_from(t);
    crate::state_laws::lemma_sync_sorted(t);
    crate::state::lemma_sync_sorts(t);
    let u = sync_spec(t);
    lemma_together_from(u.ws, t.ws, t.order, done);
    assert forall|x: Seq<char>| flat(u.order).contains(x) implies ws_ids(u.ws).contains(x) by {
        assert(ws_ids(t.ws).contains(x));
    }
}

proof fn lemma_refs_once(order: Seq<EntryV>, ids: Seq<Seq<char>>)
    requires
        flat(order).no_duplicates(),
        forall|x: Seq<char>| flat(order).contains(x) ==> ids.contains(x),
        folder_ids(order).no_duplicates(),
    ensures
        refs_at_most_once(order, ids),
{
    assert forall|x: Seq<char>| #[trigger] count_of(flat(order), x) <= 1 by {
        lemma_no_dup_counts(flat(order), x);
    }
    assert forall|x: Seq<char>| #[trigger] count_of(flat(order), x) > 0 implies ids.contains(x) by {
        lemma_count_contains(flat(order), x);
    }
}

/// Normalizing a healing state keeps it healing, makes the order list
/// every workspace exactly once, leaves each workspace in the folder it
/// was in, and keeps every folder id.
pub proof fn lemma_normalize_base(s: StateV, done: Set<Seq<char>>)
    requires
        healing(s, done),
    ensures
        healing(normalize_state_spec(s), done),
        order_is_clean(normalize_state_spec(s).order, ws_ids(normalize_state_spec(s).ws)),
        ws_from(normalize_state_spec(s).ws, s.ws),
        same_ids(normalize_state_spec(s).ws, s.ws),
        forall|w: Seq<char>| #[trigger] folder_of_spec(normalize_state_spec(s).order, w) == folder_of_spec(s.order, w),
        forall|f: Seq<char>| #[trigger] folder_ids(normalize_state_spec(s).order).contains(f) == folder_ids(s.order).contains(f),
{
    let ids = ws_ids(s.ws);
    lemma_refs_once(s.order, ids);
    lemma_normalize_appends_missing(s.order, ids);
    let m = missing_ids(ids, flat(s.order));
    let n0 = normalize_spec(s.order, ids).0;
    assert(n0 == s.order + loose_entries(m));
    lemma_normalized_order_is_clean(s.order, ids);
    let n = coalesce_entries_spec(s.ws, n0);
    lemma_coalesce_entries_keeps(s.ws, n0);
    lemma_flat_loose(s.order, m);
    assert forall|x: Seq<char>| #[trigger] count_of(flat(n), x) <= 1 by {}
    lemma_counts_no_dup(flat(n));
    assert forall|x: Seq<char>| #[trigger] count_of(folder_ids(n), x) <= 1 by {
        lemma_no_dup_counts(folder_ids(n0), x);
    }
    lemma_counts_no_dup(folder_ids(n));
    assert(order_is_clean(n, ids));
    assert forall|w: Seq<char>| #[trigger] folder_of_spec(n, w) == folder_of_spec(s.order, w) by {
        assert forall|f: Seq<char>| #[trigger] in_folder(n, f, w) == in_folder(s.order, f, w) by {
            lemma_in_folder_concat(s.order, loose_entries(m), f, w);
            lemma_in_folder_loose(m, f, w);
        }
        lemma_same_holder(n, s.order, w);
    }
    assert forall|f: Seq<char>| #[trigger] folder_ids(n).contains(f) == folder_ids(s.order).contains(f) by {
        lemma_count_contains(folder_ids(n), f);
        lemma_count_contains(folder_ids(n0), f);
    }
    let s1 = normalize_state_spec(s);
    let (t, changed) = normalize_entries_spec(s);
    assert(s1.order == n);
    crate::state::lemma_normalize_state_wf(s);
    assert(together_in(s.ws, n, done));
    if changed {
        lemma_sync_from(t);
    } else {
        assert forall|k: int| 0 <= k < s.ws.len() implies exists|j: int| 0 <= j < s.ws.len() && #[trigger] s.ws[k] == #[trigger] s.ws[j] by {
            assert(s.ws[k] == s.ws[k]);
        }
    }
    lemma_together_from(s1.ws, s.ws, n, done);
    assert forall|x: Seq<char>| flat(n).contains(x) implies ws_ids(s1.ws).contains(x) by {
        lemma_count_contains(flat(n), x);
    }
}

/// Normalizing a state that keeps the invariants keeps them, makes the
/// order list every workspace exactly once, leaves each workspace in the
/// folder it was in, and keeps every folder id.
pub proof fn lemma_normalize_keeps_invariants(s: StateV)
    requires
        state_wf(s),
        space_order_invariants(s),
    ensures
        space_order_invariants(normalize_state_spec(s)),
        state_wf(normalize_state_spec(s)),
        order_is_clean(normalize_state_spec(s).order, ws_ids(normalize_state_spec(s).ws)),
        ws_from(normalize_state_spec(s).ws, s.ws),
        same_ids(normalize_state_spec(s).ws, s.ws),
        forall|w: Seq<char>| #[trigger] folder_of_spec(normalize_state_spec(s).order, w) == folder_of_spec(s.order, w),
        forall|f: Seq<char>| #[trigger] folder_ids(normalize_state_spec(s).order).contains(f) == folder_ids(s.order).contains(f),
{
    let s1 = normalize_state_spec(s);
    lemma_together_full(s.ws, s.order);
    lemma_normalize_base(s, Set::full());
    lemma_together_full(s1.ws, s1.order);
    crate::name_laws::lemma_names_normalize_state(s);
    lemma_normalize_keeps_sorted(s);
}

/// An order whose every count is at most that of an order that fits.
proof fn lemma_counts_fit(ws: Seq<Workspace>, n: Seq<EntryV>, o2: Seq<EntryV>)
    requires
        order_base(ws, n),
        forall|x: Seq<char>| #[trigger] count_of(flat(o2), x) <= count_of(flat(n), x),
        forall|x: Seq<char>| #[trigger] count_of(folder_ids(o2), x) <= count_of(folder_ids(n), x),
    ensures
        flat(o2).no_duplicates(),
        forall|x: Seq<char>| flat(o2).contains(x) ==> ws_ids(ws).contains(x),
        folder_ids(o2).no_duplicates(),
{
    assert forall|x: Seq<char>| #[trigger] count_of(flat(o2), x) <= 1 by {
        lemma_no_dup_counts(flat(n), x);
    }
    lemma_counts_no_dup(flat(o2));
    assert forall|x: Seq<char>| #[trigger] count_of(folder_ids(o2), x) <= 1 by {
        lemma_no_dup_counts(folder_ids(n), x);
    }
    lemma_counts_no_dup(folder_ids(o2));
    assert forall|x: Seq<char>| flat(o2).contains(x) implies ws_ids(ws).contains(x) by {
        lemma_count_contains(flat(o2), x);
        lemma_count_contains(flat(n), x);
    }
}

/// Where each workspace's folder is a function of where it was, families
/// that were together stay together.
proof fn lemma_families_by_map(ws: Seq<Workspace>, n: Seq<EntryV>, o2: Seq<EntryV>, g: spec_fn(Option<Seq<char>>) -> Option<Seq<char>>)
    requires
        families_together(ws, n),
        forall|w: Seq<char>| #[trigger] folder_of_spec(o2, w) == g(folder_of_spec(n, w)),
    ensures
        families_together(ws, o2),
{
    assert forall|i: int, j: int| 0 <= i < ws.len() && 0 <= j < ws.len() && same_family(#[trigger] ws[i], #[trigger] ws[j])
        implies folder_of_spec(o2, ws[i].id@) == folder_of_spec(o2, ws[j].id@) by {
        assert(folder_of_spec(n, ws[i].id@) == folder_of_spec(n, ws[j].id@));
    }
}

proof fn lemma_move_order(ws: Seq<Workspace>, n: Seq<EntryV>, p: int, t: int)
    requires
        order_fits(ws, n),
        0 <= p < n.len(),
        0 <= t < n.len(),
    ensures
        order_fits(ws, n.remove(p).insert(t, n[p])),
        forall|w: Seq<char>| #[trigger] folder_of_spec(n.remove(p).insert(t, n[p]), w) == folder_of_spec(n, w),
{
    let o2 = n.remove(p).insert(t, n[p]);
    assert forall|x: Seq<char>, f: Seq<char>| #[trigger] in_folder(o2, f, x) == in_folder(n, f, x) by {
        lemma_move_entry_keeps(n, p, t, x, f);
    }
    assert forall|x: Seq<char>|
        #![trigger count_of(flat(o2), x)]
        #![trigger count_of(folder_ids(o2), x)]
        count_of(flat(o2), x) == count_of(flat(n), x)
        && count_of(folder_ids(o2), x) == count_of(folder_ids(n), x) by {
        lemma_move_entry_keeps(n, p, t, x, seq![]);
    }
    lemma_counts_fit(ws, n, o2);
    assert forall|w: Seq<char>| #[trigger] folder_of_spec(o2, w) == folder_of_spec(n, w) by {
        assert forall|f: Seq<char>| #[trigger] in_folder(o2, f, w) == in_folder(n, f, w) by {}
        lemma_same_holder(o2, n, w);
    }
    lemma_families_by_map(ws, n, o2, |x: Option<Seq<char>>| x);
    let rest = n.remove(p);
    assert forall|q: int| 0 <= q < o2.len() implies (#[trigger] o2[q] matches EntryV::Folder(g) ==> !crate::text::is_blank(g.name)) by {
        if q == t {
            assert(o2[q] == n[p]);
        } else {
            let i = if q < t { q } else { q - 1 };
            assert(o2[q] == rest[i]);
            if i < p {
                assert(rest[i] == n[i]);
            } else {
                assert(rest[i] == n[i + 1]);
            }
        }
    }
}

/// The state after moving the folder at `p` of a normalized order.
spec fn moved_state(s1: StateV, p: int, position: usize) -> StateV {
    let e = s1.order[p];
    let rest = s1.order.remove(p);
    let target = if position < rest.len() { position } else { rest.len() as usize };
    let o2 = rest.insert(target as int, e);
    let s2 = StateV { order: o2, ..s1 };
    if target != p { StateV { dirty: true, ..sync_spec(s2) } } else { s2 }
}

proof fn lemma_moved_state(s1: StateV, p: int, position: usize)
    requires
        state_wf(s1),
        space_order_invariants(s1),
        0 <= p < s1.order.len(),
    ensures
        space_order_invariants(moved_state(s1, p, position)),
{
    let n = s1.order;
    let e = n[p];
    let rest = n.remove(p);
    let target = if position < rest.len() { position } else { rest.len() as usize };
    let o2 = rest.insert(target as int, e);
    lemma_move_order(s1.ws, n, p, target as int);
    let t = StateV { order: o2, ..s1 };
    if target as int != p {
        lemma_sync_establishes(t);
    } else {
        assert(o2 =~= n);
        assert(t == s1);
    }
}

/// Moving a folder keeps every space-order invariant.
pub proof fn lemma_move_folder_keeps_invariants(s: StateV, id: Seq<char>, position: usize)
    requires
        state_wf(s),
        space_order_invariants(s),
    ensures
        space_order_invariants(move_folder_spec(s, id, position).0),
{
    if folder_index(s.order, id) is Some {
        lemma_normalize_keeps_invariants(s);
        let s1 = normalize_state_spec(s);
        if let Some(p) = folder_index(s1.order, id) {
            lemma_folder_index_found_pub(s1.order, id);
            lemma_moved_state(s1, p, position);
            assert(move_folder_spec(s, id, position).0 == moved_state(s1, p, position));
        }
    }
}

proof fn lemma_create_order(ws: Seq<Workspace>, n: Seq<EntryV>, f: FolderV)
    requires
        order_fits(ws, n),
        f.members == Seq::<Seq<char>>::empty(),
        !folder_ids(n).contains(f.id),
        !crate::text::is_blank(f.name),
    ensures
        order_fits(ws, n.push(EntryV::Folder(f))),
{
    let e = EntryV::Folder(f);
    let fid = f.id;
    let o2 = n.push(e);
    assert(o2 =~= n + seq![e] + Seq::<EntryV>::empty());
    assert(n + Seq::<EntryV>::empty() =~= n);
    assert forall|x: Seq<char>, g: Seq<char>| #[trigger] in_folder(o2, g, x) == in_folder(n, g, x) by {
        lemma_insert_parts(n, e, Seq::<EntryV>::empty(), x, g);
        assert(!holds_in(e, g, x));
    }
    assert forall|x: Seq<char>|
        #![trigger count_of(flat(o2), x)]
        #![trigger count_of(folder_ids(o2), x)]
        count_of(flat(o2), x) == count_of(flat(n), x)
        && count_of(folder_ids(o2), x) == count_of(folder_ids(n), x) + if x == fid { 1nat } else { 0nat } by {
        lemma_insert_parts(n, e, Seq::<EntryV>::empty(), x, seq![]);
        assert(entry_refs(e) == Seq::<Seq<char>>::empty());
        assert(count_of(Seq::<Seq<char>>::empty(), x) == 0);
        assert(entry_folder_ids(e) == seq![fid]);
        assert(seq![fid].drop_last() =~= Seq::<Seq<char>>::empty());
        assert(count_of(Seq::<Seq<char>>::empty(), x) == 0);
    }
    lemma_count_contains(folder_ids(n), fid);
    assert forall|x: Seq<char>| #[trigger] count_of(folder_ids(o2), x) <= 1 by {
        lemma_no_dup_counts(folder_ids(n), x);
    }
    lemma_counts_no_dup(folder_ids(o2));
    assert forall|x: Seq<char>| #[trigger] count_of(flat(o2), x) <= 1 by {
        lemma_no_dup_counts(flat(n), x);
    }
    lemma_counts_no_dup(flat(o2));
    assert forall|x: Seq<char>| flat(o2).contains(x) implies ws_ids(ws).contains(x) by {
        lemma_count_contains(flat(o2), x);
        lemma_count_contains(flat(n), x);
    }
    assert forall|q: int| 0 <= q < o2.len() implies (#[trigger] o2[q] matches EntryV::Folder(g) ==> !crate::text::is_blank(g.name)) by {
        if q < n.len() {
            assert(o2[q] == n[q]);
        }
    }
    assert forall|w: Seq<char>| #[trigger] folder_of_spec(o2, w) == folder_of_spec(n, w) by {
        assert forall|g: Seq<char>| #[trigger] in_folder(o2, g, w) == in_folder(n, g, w) by {}
        lemma_same_holder(o2, n, w);
    }
    lemma_families_by_map(ws, n, o2, |x: Option<Seq<char>>| x);
}

/// Creating a folder keeps every space-order invariant, provided the id it
/// hands out is not already a folder's id.
#[verifier::spinoff_prover]
pub proof fn lemma_create_folder_keeps_invariants(s: StateV, name: Seq<char>)
    requires
        state_wf(s),
        space_order_invariants(s),
        !folder_ids(s.order).contains(folder_id_spec(s.next_id as usize as nat)),
    ensures
        space_order_invariants(create_folder_spec(s, name).0),
{
    if !crate::text::is_blank(name) {
        lemma_normalize_keeps_invariants(s);
        let s1 = normalize_state_spec(s);
        let fid = folder_id_spec(s1.next_id as usize as nat);
        let f = FolderV { id: fid, name: crate::text::trim_spec(name), members: seq![] };
        crate::text::lemma_trim_not_blank(name);
        lemma_create_order(s1.ws, s1.order, f);
        crate::state_laws::lemma_create_folder_keeps_sorted(s, name);
    }
}

/// Loose workspaces placed between two parts of an order add their
/// references, and no folder id and no holding.
proof fn lemma_loose_parts(a: Seq<EntryV>, m: Seq<Seq<char>>, b: Seq<EntryV>, x: Seq<char>, fid: Seq<char>)
    ensures
        count_of(flat(a + loose_entries(m) + b), x) == count_of(flat(a + b), x) + count_of(m, x),
        count_of(folder_ids(a + loose_entries(m) + b), x) == count_of(folder_ids(a + b), x),
        in_folder(a + loose_entries(m) + b, fid, x) == in_folder(a + b, fid, x),
{
    lemma_flat_loose(a, m);
    lemma_flat_concat(a + loose_entries(m), b);
    lemma_flat_concat(a, b);
    lemma_count_concat_pub(flat(a) + m, flat(b), x);
    lemma_count_concat_pub(flat(a), m, x);
    lemma_count_concat_pub(flat(a), flat(b), x);
    lemma_folder_ids_concat(a + loose_entries(m), b);
    lemma_folder_ids_concat(a, b);
    crate::order_laws::lemma_in_folder_concat(a, loose_entries(m), fid, x);
    crate::order_laws::lemma_in_folder_concat(a + loose_entries(m), b, fid, x);
    crate::order_laws::lemma_in_folder_concat(a, b, fid, x);
    lemma_in_folder_loose(m, fid, x);
}

proof fn lemma_delete_order(ws: Seq<Workspace>, n: Seq<EntryV>, p: int)
    requires
        order_fits(ws, n),
        0 <= p < n.len(),
        n[p] is Folder,
        names_ok(n.take(p) + loose_entries(n[p]->Folder_0.members) + n.skip(p + 1)),
    ensures
        order_fits(ws, n.take(p) + loose_entries(n[p]->Folder_0.members) + n.skip(p + 1)),
{
    let e = n[p];
    let id = e->Folder_0.id;
    let released = e->Folder_0.members;
    let a = n.take(p);
    let b = n.skip(p + 1);
    let o2 = a + loose_entries(released) + b;
    assert(n =~= a + seq![e] + b);
    assert(entry_refs(e) == released);
    assert forall|x: Seq<char>, f: Seq<char>| #[trigger] in_folder(o2, f, x) == in_folder(a + b, f, x)
        && in_folder(n, f, x) == (in_folder(a + b, f, x) || holds_in(e, f, x)) by {
        lemma_insert_parts(a, e, b, x, f);
        lemma_loose_parts(a, released, b, x, f);
    }
    assert forall|x: Seq<char>|
        #![trigger count_of(flat(o2), x)]
        #![trigger count_of(folder_ids(o2), x)]
        #![trigger count_of(flat(n), x)]
        count_of(flat(o2), x) == count_of(flat(n), x)
        && count_of(flat(n), x) == count_of(flat(a + b), x) + count_of(released, x)
        && count_of(folder_ids(o2), x) <= count_of(folder_ids(n), x) by {
        lemma_insert_parts(a, e, b, x, seq![]);
        lemma_loose_parts(a, released, b, x, seq![]);
    }
    lemma_counts_fit(ws, n, o2);
    let g = |x: Option<Seq<char>>| if x == Some(id) { None } else { x };
    assert forall|w: Seq<char>| #[trigger] folder_of_spec(o2, w) == g(folder_of_spec(n, w)) by {
        lemma_folder_of_holds(n, w);
        lemma_folder_of_holds(o2, w);
        lemma_count_contains(released, w);
        if released.contains(w) {
            assert(holds_in(n[p], id, w));
            assert(in_folder(n, id, w));
            assert forall|f: Seq<char>| !#[trigger] in_folder(o2, f, w) by {
                if in_folder(o2, f, w) {
                    lemma_in_folder_flat(a + b, f, w);
                    lemma_count_contains(flat(a + b), w);
                    lemma_no_dup_counts(flat(n), w);
                }
            }
        } else {
            assert forall|f: Seq<char>| #[trigger] in_folder(o2, f, w) == in_folder(n, f, w) by {}
            lemma_same_holder(o2, n, w);
            if folder_of_spec(n, w) == Some(id) {
                let q = choose|q: int| 0 <= q < n.len() && #[trigger] holds_in(n[q], id, w);
                lemma_folder_id_unique(n, p, q);
            }
        }
    }
    lemma_families_by_map(ws, n, o2, g);
}

/// Deleting a folder keeps every space-order invariant.
#[verifier::spinoff_prover]
pub proof fn lemma_delete_folder_keeps_invariants(s: StateV, id: Seq<char>)
    requires
        state_wf(s),
        space_order_invariants(s),
    ensures
        space_order_invariants(delete_folder_spec(s, id).0),
{
    if folder_index(s.order, id) is Some {
        lemma_normalize_keeps_invariants(s);
        let s1 = normalize_state_spec(s);
        let n = s1.order;
        if let Some(p) = folder_index(n, id) {
            lemma_folder_index_found_pub(n, id);
            crate::name_laws::lemma_delete_folder_keeps_names(s, id);
            assert(folder_at(n, p) == n[p]->Folder_0);
            lemma_delete_order(s1.ws, n, p);
            lemma_sync_establishes(StateV { order: n.take(p) + loose_entries(n[p]->Folder_0.members) + n.skip(p + 1), ..s1 });
        }
    }
}

/// A set of workspaces that, with any workspace, holds its whole worktree
/// family.
pub open spec fn family_closed(ws: Seq<Workspace>, aff: Seq<Seq<char>>) -> bool {
    forall|i: int, j: int| 0 <= i < ws.len() && 0 <= j < ws.len() && same_family(#[trigger] ws[i], #[trigger] ws[j])
        ==> aff.contains(ws[i].id@) == aff.contains(ws[j].id@)
}

/// Every workspace of family `k` is in `aff`.
pub open spec fn family_covers(ws: Seq<Workspace>, aff: Seq<Seq<char>>, k: Seq<char>) -> bool {
    forall|i: int| 0 <= i < ws.len() && (#[trigger] ws[i].worktree_space matches Some(sp) && sp.key@ == k)
        ==> aff.contains(ws[i].id@)
}

proof fn lemma_families_by_aff(ws: Seq<Workspace>, n: Seq<EntryV>, o2: Seq<EntryV>, aff: Seq<Seq<char>>, c: Option<Seq<char>>, done: Set<Seq<char>>, k: Seq<char>)
    requires
        together_in(ws, n, done),
        family_closed(ws, aff),
        forall|w: Seq<char>| #[trigger] folder_of_spec(o2, w) == if aff.contains(w) { c } else { folder_of_spec(n, w) },
    ensures
        together_in(ws, o2, done),
        family_covers(ws, aff, k) ==> together_in(ws, o2, done.insert(k)),
{
    assert forall|i: int, j: int| 0 <= i < ws.len() && 0 <= j < ws.len() && same_family(#[trigger] ws[i], #[trigger] ws[j])
        && key_in(ws[i], done) implies folder_of_spec(o2, ws[i].id@) == folder_of_spec(o2, ws[j].id@) by {
        assert(folder_of_spec(n, ws[i].id@) == folder_of_spec(n, ws[j].id@));
        assert(aff.contains(ws[i].id@) == aff.contains(ws[j].id@));
    }
    if family_covers(ws, aff, k) {
        assert forall|i: int, j: int| 0 <= i < ws.len() && 0 <= j < ws.len() && same_family(#[trigger] ws[i], #[trigger] ws[j])
            && key_in(ws[i], done.insert(k)) implies folder_of_spec(o2, ws[i].id@) == folder_of_spec(o2, ws[j].id@) by {
            assert(aff.contains(ws[i].id@) == aff.contains(ws[j].id@));
            if !key_in(ws[i], done) {
                assert(ws[i].worktree_space matches Some(sp) && sp.key@ == k);
                assert(aff.contains(ws[i].id@));
            }
        }
    }
}

/// Taking a family-closed set of workspaces out of an order keeps it
/// sound, and the taken workspaces are nowhere in it any more.
proof fn lemma_remove_order(ws: Seq<Workspace>, n: Seq<EntryV>, aff: Seq<Seq<char>>)
    requires
        order_base(ws, n),
    ensures
        order_base(ws, remove_block(n, aff)),
        names_ok(n) ==> names_ok(remove_block(n, aff)),
        forall|w: Seq<char>| #[trigger] folder_of_spec(remove_block(n, aff), w)
            == if aff.contains(w) { None } else { folder_of_spec(n, w) },
        forall|x: Seq<char>| #[trigger] count_of(flat(remove_block(n, aff)), x)
            == if aff.contains(x) { 0nat } else { count_of(flat(n), x) },
{
    let o2 = remove_block(n, aff);
    assert forall|x: Seq<char>, f: Seq<char>| #[trigger] in_folder(o2, f, x) == (in_folder(n, f, x) && !aff.contains(x)) by {
        lemma_remove_block_keeps(n, aff, x, f);
    }
    assert forall|x: Seq<char>| #[trigger] count_of(flat(o2), x) == if aff.contains(x) { 0nat } else { count_of(flat(n), x) } by {
        lemma_remove_block_keeps(n, aff, x, seq![]);
    }
    lemma_remove_block_keeps(n, aff, seq![], seq![]);
    assert forall|x: Seq<char>| #[trigger] count_of(folder_ids(o2), x) <= count_of(folder_ids(n), x) by {}
    lemma_counts_fit(ws, n, o2);
    if names_ok(n) {
        crate::name_laws::lemma_names_remove_block(n, aff);
    }
    assert forall|w: Seq<char>| #[trigger] folder_of_spec(o2, w) == if aff.contains(w) { None } else { folder_of_spec(n, w) } by {
        if aff.contains(w) {
            lemma_folder_of_holds(o2, w);
        } else {
            assert forall|f: Seq<char>| #[trigger] in_folder(o2, f, w) == in_folder(n, f, w) by {}
            lemma_same_holder(o2, n, w);
        }
    }
}

/// Putting a set of workspaces, referenced nowhere, into the folder at `p`
/// keeps the order sound and puts them in that folder.
proof fn lemma_insert_folder_order(ws: Seq<Workspace>, o2: Seq<EntryV>, aff: Seq<Seq<char>>, p: int, idx: int)
    requires
        order_base(ws, o2),
        0 <= p < o2.len(),
        o2[p] is Folder,
        0 <= idx <= o2[p]->Folder_0.members.len(),
        aff.no_duplicates(),
        forall|x: Seq<char>| aff.contains(x) ==> ws_ids(ws).contains(x) && !flat(o2).contains(x),
    ensures
        ({
            let g = o2[p]->Folder_0;
            let o3 = o2.update(p, EntryV::Folder(FolderV { members: g.members.take(idx) + aff + g.members.skip(idx), ..g }));
            &&& order_base(ws, o3)
            &&& names_ok(o2) ==> names_ok(o3)
            &&& forall|w: Seq<char>| #[trigger] folder_of_spec(o3, w) == if aff.contains(w) { Some(g.id) } else { folder_of_spec(o2, w) }
        }),
{
    let g = o2[p]->Folder_0;
    let m = g.members.take(idx) + aff + g.members.skip(idx);
    let e = o2[p];
    let e2 = EntryV::Folder(FolderV { members: m, ..g });
    let o3 = o2.update(p, e2);
    let a = o2.take(p);
    let b = o2.skip(p + 1);
    assert(o2 =~= a + seq![e] + b);
    assert(o3 =~= a + seq![e2] + b);
    assert(g.members =~= g.members.take(idx) + g.members.skip(idx));
    assert forall|x: Seq<char>|
        #![trigger count_of(flat(o3), x)]
        #![trigger count_of(folder_ids(o3), x)]
        count_of(flat(o3), x) == count_of(flat(o2), x) + count_of(aff, x)
        && count_of(folder_ids(o3), x) == count_of(folder_ids(o2), x) by {
        lemma_insert_parts(a, e, b, x, seq![]);
        lemma_insert_parts(a, e2, b, x, seq![]);
        lemma_count_concat_pub(g.members.take(idx) + aff, g.members.skip(idx), x);
        lemma_count_concat_pub(g.members.take(idx), aff, x);
        lemma_count_concat_pub(g.members.take(idx), g.members.skip(idx), x);
        assert(entry_folder_ids(e) == entry_folder_ids(e2));
    }
    assert forall|x: Seq<char>, f: Seq<char>| #[trigger] in_folder(o3, f, x)
        == (in_folder(o2, f, x) || (f == g.id && aff.contains(x))) by {
        lemma_insert_parts(a, e, b, x, f);
        lemma_insert_parts(a, e2, b, x, f);
        crate::folder_laws::lemma_contains_concat(g.members.take(idx) + aff, g.members.skip(idx), x);
        crate::folder_laws::lemma_contains_concat(g.members.take(idx), aff, x);
        crate::folder_laws::lemma_contains_concat(g.members.take(idx), g.members.skip(idx), x);
        if f == g.id && aff.contains(x) && !in_folder(o2, f, x) {
            assert(holds_in(e2, f, x));
        }
    }
    assert forall|x: Seq<char>| #[trigger] count_of(flat(o3), x) <= 1 by {
        lemma_no_dup_counts(flat(o2), x);
        lemma_no_dup_counts(aff, x);
        lemma_count_contains(flat(o2), x);
        lemma_count_contains(aff, x);
    }
    lemma_counts_no_dup(flat(o3));
    assert forall|x: Seq<char>| #[trigger] count_of(folder_ids(o3), x) <= 1 by {
        lemma_no_dup_counts(folder_ids(o2), x);
    }
    lemma_counts_no_dup(folder_ids(o3));
    assert forall|x: Seq<char>| flat(o3).contains(x) implies ws_ids(ws).contains(x) by {
        lemma_count_contains(flat(o3), x);
        lemma_count_contains(flat(o2), x);
        lemma_count_contains(aff, x);
    }
    if names_ok(o2) {
        assert forall|q: int| 0 <= q < o3.len() implies (#[trigger] o3[q] matches EntryV::Folder(h) ==> !crate::text::is_blank(h.name)) by {
            assert(o2[q] matches EntryV::Folder(h) ==> !crate::text::is_blank(h.name));
        }
    }
    assert forall|w: Seq<char>| #[trigger] folder_of_spec(o3, w) == if aff.contains(w) { Some(g.id) } else { folder_of_spec(o2, w) } by {
        if aff.contains(w) {
            assert(in_folder(o3, g.id, w));
            lemma_folder_of_holds(o3, w);
        } else {
            assert forall|f: Seq<char>| #[trigger] in_folder(o3, f, w) == in_folder(o2, f, w) by {}
            lemma_same_holder(o3, o2, w);
        }
    }
}

/// Putting a set of workspaces, referenced nowhere, loose at `idx` keeps
/// the order sound and leaves every folder as it was.
proof fn lemma_insert_loose_order(ws: Seq<Workspace>, o2: Seq<EntryV>, aff: Seq<Seq<char>>, idx: int)
    requires
        order_base(ws, o2),
        0 <= idx <= o2.len(),
        aff.no_duplicates(),
        forall|x: Seq<char>| aff.contains(x) ==> ws_ids(ws).contains(x) && !flat(o2).contains(x),
    ensures
        order_base(ws, o2.take(idx) + loose_entries(aff) + o2.skip(idx)),
        names_ok(o2) ==> names_ok(o2.take(idx) + loose_entries(aff) + o2.skip(idx)),
        forall|w: Seq<char>| #[trigger] folder_of_spec(o2.take(idx) + loose_entries(aff) + o2.skip(idx), w) == folder_of_spec(o2, w),
{
    let a = o2.take(idx);
    let b = o2.skip(idx);
    let o3 = a + loose_entries(aff) + b;
    assert(o2 =~= a + b);
    assert forall|x: Seq<char>, f: Seq<char>| #[trigger] in_folder(o3, f, x) == in_folder(o2, f, x) by {
        lemma_loose_parts(a, aff, b, x, f);
    }
    assert forall|x: Seq<char>|
        #![trigger count_of(flat(o3), x)]
        #![trigger count_of(folder_ids(o3), x)]
        count_of(flat(o3), x) == count_of(flat(o2), x) + count_of(aff, x)
        && count_of(folder_ids(o3), x) == count_of(folder_ids(o2), x) by {
        lemma_loose_parts(a, aff, b, x, seq![]);
    }
    assert forall|x: Seq<char>| #[trigger] count_of(flat(o3), x) <= 1 by {
        lemma_no_dup_counts(flat(o2), x);
        lemma_no_dup_counts(aff, x);
        lemma_count_contains(flat(o2), x);
        lemma_count_contains(aff, x);
    }
    lemma_counts_no_dup(flat(o3));
    assert forall|x: Seq<char>| #[trigger] count_of(folder_ids(o3), x) <= 1 by {
        lemma_no_dup_counts(folder_ids(o2), x);
    }
    lemma_counts_no_dup(folder_ids(o3));
    assert forall|x: Seq<char>| flat(o3).contains(x) implies ws_ids(ws).contains(x) by {
        lemma_count_contains(flat(o3), x);
        lemma_count_contains(flat(o2), x);
        lemma_count_contains(aff, x);
    }
    if names_ok(o2) {
        assert forall|q: int| 0 <= q < o3.len() implies (#[trigger] o3[q] matches EntryV::Folder(h) ==> !crate::text::is_blank(h.name)) by {
            if q < idx {
                assert(o3[q] == o2[q]);
            } else if q >= idx + aff.len() {
                assert(o3[q] == o2[q - aff.len()]);
            } else {
                assert(o3[q] == loose_entries(aff)[q - idx]);
            }
        }
    }
    assert forall|w: Seq<char>| #[trigger] folder_of_spec(o3, w) == folder_of_spec(o2, w) by {
        assert forall|f: Seq<char>| #[trigger] in_folder(o3, f, w) == in_folder(o2, f, w) by {}
        lemma_same_holder(o3, o2, w);
    }
}

/// The state after taking `aff` out of a normalized order and putting it
/// into folder `fid` (or loose, when there is none) at `position`.
spec fn assigned_state(s1: StateV, aff: Seq<Seq<char>>, fid: Option<Seq<char>>, position: Option<usize>) -> StateV {
    let order2 = remove_block(s1.order, aff);
    match fid {
        Some(f) => match folder_index(order2, f) {
            None => sync_spec(StateV { order: order2, ..s1 }),
            Some(p) => {
                let g = folder_at(order2, p);
                let idx = clamp_position(position, g.members.len());
                let members = g.members.take(idx) + aff + g.members.skip(idx);
                let order3 = order2.update(p, EntryV::Folder(FolderV { members, ..g }));
                StateV { dirty: true, ..sync_spec(StateV { order: order3, ..s1 }) }
            },
        },
        None => {
            let idx = clamp_position(position, order2.len());
            let order3 = order2.take(idx) + loose_entries(aff) + order2.skip(idx);
            StateV { dirty: true, ..sync_spec(StateV { order: order3, ..s1 }) }
        },
    }
}

/// The order of `assigned_state`, before the workspaces are re-sorted.
spec fn assigned_order(s1: StateV, aff: Seq<Seq<char>>, fid: Option<Seq<char>>, position: Option<usize>) -> Seq<EntryV> {
    let order2 = remove_block(s1.order, aff);
    match fid {
        Some(f) => match folder_index(order2, f) {
            None => order2,
            Some(p) => {
                let g = folder_at(order2, p);
                let idx = clamp_position(position, g.members.len());
                order2.update(p, EntryV::Folder(FolderV { members: g.members.take(idx) + aff + g.members.skip(idx), ..g }))
            },
        },
        None => {
            let idx = clamp_position(position, order2.len());
            order2.take(idx) + loose_entries(aff) + order2.skip(idx)
        },
    }
}

proof fn lemma_assigned_order(s1: StateV, aff: Seq<Seq<char>>, fid: Option<Seq<char>>, position: Option<usize>, done: Set<Seq<char>>, k: Seq<char>)
    requires
        healing(s1, done),
        aff.no_duplicates(),
        forall|x: Seq<char>| aff.contains(x) ==> ws_ids(s1.ws).contains(x),
        family_closed(s1.ws, aff),
    ensures
        order_base(s1.ws, assigned_order(s1, aff, fid, position)),
        names_ok(s1.order) ==> names_ok(assigned_order(s1, aff, fid, position)),
        together_in(s1.ws, assigned_order(s1, aff, fid, position), done),
        family_covers(s1.ws, aff, k) ==> together_in(s1.ws, assigned_order(s1, aff, fid, position), done.insert(k)),
        assigned_state(s1, aff, fid, position) == (match fid {
            Some(f) => if folder_index(remove_block(s1.order, aff), f) is None {
                sync_spec(StateV { order: assigned_order(s1, aff, fid, position), ..s1 })
            } else {
                StateV { dirty: true, ..sync_spec(StateV { order: assigned_order(s1, aff, fid, position), ..s1 }) }
            },
            None => StateV { dirty: true, ..sync_spec(StateV { order: assigned_order(s1, aff, fid, position), ..s1 }) },
        }),
{
    let ws = s1.ws;
    let n = s1.order;
    lemma_remove_order(ws, n, aff);
    let o2 = remove_block(n, aff);
    assert forall|x: Seq<char>| aff.contains(x) implies ws_ids(ws).contains(x) && !flat(o2).contains(x) by {
        lemma_count_contains(flat(o2), x);
    }
    match fid {
        Some(f) => match folder_index(o2, f) {
            None => {
                lemma_families_by_aff(ws, n, o2, aff, None, done, k);
            },
            Some(p) => {
                lemma_folder_index_found_pub(o2, f);
                let g = folder_at(o2, p);
                assert(g == o2[p]->Folder_0);
                let idx = clamp_position(position, g.members.len());
                lemma_insert_folder_order(ws, o2, aff, p, idx);
                let o3 = o2.update(p, EntryV::Folder(FolderV { members: g.members.take(idx) + aff + g.members.skip(idx), ..g }));
                lemma_families_by_aff(ws, n, o3, aff, Some(g.id), done, k);
            },
        },
        None => {
            let idx = clamp_position(position, o2.len());
            lemma_insert_loose_order(ws, o2, aff, idx);
            let o3 = o2.take(idx) + loose_entries(aff) + o2.skip(idx);
            lemma_families_by_aff(ws, n, o3, aff, None, done, k);
        },
    }
}

proof fn lemma_assigned_state(s1: StateV, aff: Seq<Seq<char>>, fid: Option<Seq<char>>, position: Option<usize>, done: Set<Seq<char>>, k: Seq<char>)
    requires
        healing(s1, done),
        aff.no_duplicates(),
        forall|x: Seq<char>| aff.contains(x) ==> ws_ids(s1.ws).contains(x),
        family_closed(s1.ws, aff),
    ensures
        healing(assigned_state(s1, aff, fid, position), done),
        family_covers(s1.ws, aff, k) ==> healing(assigned_state(s1, aff, fid, position), done.insert(k)),
        names_ok(s1.order) ==> names_ok(assigned_state(s1, aff, fid, position).order),
        ws_sorted(assigned_state(s1, aff, fid, position)),
        ws_from(assigned_state(s1, aff, fid, position).ws, s1.ws),
{
    lemma_assigned_order(s1, aff, fid, position, done, k);
    let t = StateV { order: assigned_order(s1, aff, fid, position), ..s1 };
    lemma_sync_base(t, done);
    if family_covers(s1.ws, aff, k) {
        lemma_sync_base(t, done.insert(k));
    }
}

proof fn lemma_family_ids_count(ws: Seq<Workspace>, ids: Seq<Seq<char>>, k: Seq<char>, x: Seq<char>)
    ensures
        count_of(family_ids(ws, ids, k), x) == if in_family(ws, x, k) { count_of(ids, x) } else { 0nat },
    decreases ids.len(),
{
    if ids.len() > 0 {
        lemma_family_ids_count(ws, ids.drop_last(), k, x);
        let tail = if in_family(ws, ids.last(), k) { seq![ids.last()] } else { Seq::<Seq<char>>::empty() };
        lemma_count_concat_pub(family_ids(ws, ids.drop_last(), k), tail, x);
        assert(seq![ids.last()].drop_last() =~= Seq::<Seq<char>>::empty());
        assert(count_of(Seq::<Seq<char>>::empty(), x) == 0);
    }
}

proof fn lemma_in_family_self(ws: Seq<Workspace>, i: int, k: Seq<char>)
    requires
        ws_ids(ws).no_duplicates(),
        0 <= i < ws.len(),
    ensures
        in_family(ws, ws[i].id@, k) == (ws[i].worktree_space matches Some(sp) && sp.key@ == k),
{
    if in_family(ws, ws[i].id@, k) {
        let q = choose|q: int| 0 <= q < ws.len() && #[trigger] ws[q].id@ == ws[i].id@
            && (ws[q].worktree_space matches Some(sp) && sp.key@ == k);
        assert(ws_ids(ws)[q] == ws_ids(ws)[i]);
    }
    if ws[i].worktree_space matches Some(sp) && sp.key@ == k {
        assert(ws[i].id@ == ws[i].id@);
    }
}

/// The workspaces an assignment moves: the whole family of the workspace,
/// or the workspace alone when it has none.
proof fn lemma_affected(s: StateV, s1: StateV, wid: Seq<char>, aff: Seq<Seq<char>>)
    requires
        aff == match family_key_of(s.ws, wid) {
            Some(k) => family_ids(s1.ws, canonical_of(s1), k),
            None => seq![wid],
        },
        state_wf(s),
        state_wf(s1),
        first_pos(ws_ids(s.ws), wid) is Some,
        ws_from(s1.ws, s.ws),
        same_ids(s1.ws, s.ws),
    ensures
        aff.no_duplicates(),
        forall|x: Seq<char>| aff.contains(x) ==> ws_ids(s1.ws).contains(x),
        family_closed(s1.ws, aff),
        family_key_of(s.ws, wid) matches Some(k) ==> family_covers(s1.ws, aff, k),
{
    let ws = s1.ws;
    let ids = ws_ids(ws);
    let canon = canonical_of(s1);
    lemma_canonical_is_permutation(s1.order, ids);
    assert forall|x: Seq<char>| #[trigger] canon.contains(x) == ids.contains(x) by {
        lemma_count_contains(canon, x);
        lemma_count_contains(ids, x);
        lemma_no_dup_counts(ids, x);
    }
    match family_key_of(s.ws, wid) {
        Some(k) => {
            assert(aff == family_ids(ws, canon, k));
            assert forall|x: Seq<char>| #[trigger] count_of(aff, x) <= 1 by {
                lemma_family_ids_count(ws, canon, k, x);
                lemma_no_dup_counts(ids, x);
                lemma_count_contains(ids, x);
            }
            lemma_counts_no_dup(aff);
            assert forall|x: Seq<char>| aff.contains(x) implies ids.contains(x) by {
                lemma_family_ids_count(ws, canon, k, x);
                lemma_count_contains(aff, x);
                lemma_count_contains(canon, x);
            }
            assert forall|i: int| 0 <= i < ws.len() implies #[trigger] aff.contains(ws[i].id@)
                == (ws[i].worktree_space matches Some(sp) && sp.key@ == k) by {
                lemma_in_family_self(ws, i, k);
                lemma_family_ids_count(ws, canon, k, ws[i].id@);
                lemma_count_contains(aff, ws[i].id@);
                assert(ids[i] == ws[i].id@);
                assert(ids.contains(ws[i].id@));
                lemma_count_contains(canon, ws[i].id@);
            }
            assert forall|i: int, j: int| 0 <= i < ws.len() && 0 <= j < ws.len() && same_family(#[trigger] ws[i], #[trigger] ws[j])
                implies aff.contains(ws[i].id@) == aff.contains(ws[j].id@) by {
                assert(aff.contains(ws[i].id@) == (ws[i].worktree_space matches Some(sp) && sp.key@ == k));
                assert(aff.contains(ws[j].id@) == (ws[j].worktree_space matches Some(sp) && sp.key@ == k));
            }
            assert forall|i: int| 0 <= i < ws.len() && (#[trigger] ws[i].worktree_space matches Some(sp) && sp.key@ == k)
                implies aff.contains(ws[i].id@) by {
                assert(aff.contains(ws[i].id@) == (ws[i].worktree_space matches Some(sp) && sp.key@ == k));
            }
        },
        None => {
            assert(aff == seq![wid]);
            lemma_first_pos(ws_ids(s.ws), wid);
            let q = first_pos(ws_ids(s.ws), wid)->Some_0;
            assert(ws_ids(s.ws).contains(wid));
            assert forall|x: Seq<char>| aff.contains(x) implies ids.contains(x) by {
                assert(x == wid);
            }
            assert forall|i: int, j: int| 0 <= i < ws.len() && 0 <= j < ws.len() && same_family(#[trigger] ws[i], #[trigger] ws[j])
                implies aff.contains(ws[i].id@) == aff.contains(ws[j].id@) by {
                assert forall|t: int| 0 <= t < ws.len() && ws[t].worktree_space is Some implies !aff.contains(#[trigger] ws[t].id@) by {
                    if aff.contains(ws[t].id@) {
                        assert(ws[t].id@ == wid);
                        let a = choose|a: int| 0 <= a < s.ws.len() && #[trigger] ws[t] == #[trigger] s.ws[a];
                        assert(ws_ids(s.ws)[a] == ws_ids(s.ws)[q]);
                    }
                }
            }
        },
    }
}

/// An assignment keeps a healing state healing, and when the workspace
/// belongs to family `k`, brings that family together.
proof fn lemma_assign_base(s: StateV, wid: Seq<char>, fid: Option<Seq<char>>, position: Option<usize>, done: Set<Seq<char>>, k: Seq<char>)
    requires
        healing(s, done),
    ensures
        healing(assign_spec(s, wid, fid, position).0, done),
        ws_from(assign_spec(s, wid, fid, position).0.ws, s.ws),
        first_pos(ws_ids(s.ws), wid) is Some && !(fid matches Some(f) && folder_index(s.order, f) is None)
            && family_key_of(s.ws, wid) == Some(k) ==> healing(assign_spec(s, wid, fid, position).0, done.insert(k)),
{
    if first_pos(ws_ids(s.ws), wid) is Some && !(fid matches Some(f) && folder_index(s.order, f) is None) {
        lemma_normalize_base(s, done);
        let s1 = normalize_state_spec(s);
        let aff = match family_key_of(s.ws, wid) {
            Some(k) => family_ids(s1.ws, canonical_of(s1), k),
            None => seq![wid],
        };
        lemma_affected(s, s1, wid, aff);
        lemma_assigned_state(s1, aff, fid, position, done, k);
        assert(assign_spec(s, wid, fid, position).0 == assigned_state(s1, aff, fid, position));
        let r = assigned_state(s1, aff, fid, position);
        assert forall|i: int| 0 <= i < r.ws.len() implies exists|j: int| 0 <= j < s.ws.len() && #[trigger] r.ws[i] == #[trigger] s.ws[j] by {
            let a = choose|a: int| 0 <= a < s1.ws.len() && #[trigger] r.ws[i] == #[trigger] s1.ws[a];
            let b = choose|b: int| 0 <= b < s.ws.len() && #[trigger] s1.ws[a] == #[trigger] s.ws[b];
        }
    } else {
        assert forall|i: int| 0 <= i < s.ws.len() implies exists|j: int| 0 <= j < s.ws.len() && #[trigger] s.ws[i] == #[trigger] s.ws[j] by {
            assert(s.ws[i] == s.ws[i]);
        }
    }
}

/// Assigning a workspace and its worktree family to a folder or to the top
/// level keeps every space-order invariant.
#[verifier::spinoff_prover]
pub proof fn lemma_assign_keeps_invariants(s: StateV, wid: Seq<char>, fid: Option<Seq<char>>, position: Option<usize>)
    requires
        state_wf(s),
        space_order_invariants(s),
    ensures
        space_order_invariants(assign_spec(s, wid, fid, position).0),
{
    lemma_together_full(s.ws, s.order);
    lemma_assign_base(s, wid, fid, position, Set::full(), seq![]);
    let r = assign_spec(s, wid, fid, position).0;
    lemma_together_full(r.ws, r.order);
    crate::name_laws::lemma_assign_keeps_names(s, wid, fid, position);
    crate::state_laws::lemma_assign_keeps_sorted(s, wid, fid, position);
}

/// Bringing a split worktree family together keeps every space-order
/// invariant.
pub proof fn lemma_colocate_keeps_invariants(s: StateV, key: Seq<char>)
    requires
        state_wf(s),
        space_order_invariants(s),
    ensures
        space_order_invariants(colocate_spec(s, key)),
{
    let members = crate::state::family_members_of(s.ws, key);
    if !(s.order.len() == 0 || members.len() < 2) {
        let anchor = match crate::state::first_unlinked(members) {
            Some(a) => a,
            None => members[0].0,
        };
        lemma_assign_keeps_invariants(s, anchor, folder_of_spec(s.order, anchor), None);
    }
}

proof fn lemma_family_members(ws: Seq<Workspace>, k: Seq<char>)
    ensures
        forall|i: int| 0 <= i < ws.len() && (#[trigger] ws[i].worktree_space matches Some(sp) && sp.key@ == k)
            ==> exists|q: int| 0 <= q < family_members_of(ws, k).len() && #[trigger] family_members_of(ws, k)[q].0 == ws[i].id@,
        forall|q: int| 0 <= q < family_members_of(ws, k).len()
            ==> exists|i: int| 0 <= i < ws.len() && #[trigger] ws[i].id@ == #[trigger] family_members_of(ws, k)[q].0
                && (ws[i].worktree_space matches Some(sp) && sp.key@ == k),
    decreases ws.len(),
{
    if ws.len() > 0 {
        let pre = ws.drop_last();
        lemma_family_members(pre, k);
        let mp = family_members_of(pre, k);
        let m = family_members_of(ws, k);
        let l = ws.last();
        let tail = match l.worktree_space {
            Some(sp) => if sp.key@ == k { seq![(l.id@, sp.is_linked_worktree)] } else { Seq::<(Seq<char>, bool)>::empty() },
            None => Seq::<(Seq<char>, bool)>::empty(),
        };
        assert(m == mp + tail);
        assert forall|i: int| 0 <= i < ws.len() && (#[trigger] ws[i].worktree_space matches Some(sp) && sp.key@ == k)
            implies exists|q: int| 0 <= q < m.len() && #[trigger] m[q].0 == ws[i].id@ by {
            if i < ws.len() - 1 {
                assert(pre[i] == ws[i]);
                let q = choose|q: int| 0 <= q < mp.len() && #[trigger] mp[q].0 == pre[i].id@;
                assert(m[q] == mp[q]);
            } else {
                assert(ws[i] == l);
                assert(tail.len() == 1);
                assert(m[mp.len() as int] == tail[0]);
                assert(m[mp.len() as int].0 == ws[i].id@);
            }
        }
        assert forall|q: int| 0 <= q < m.len() implies exists|i: int| 0 <= i < ws.len() && #[trigger] ws[i].id@ == #[trigger] m[q].0
            && (ws[i].worktree_space matches Some(sp) && sp.key@ == k) by {
            if q < mp.len() {
                assert(m[q] == mp[q]);
                let i = choose|i: int| 0 <= i < pre.len() && #[trigger] pre[i].id@ == #[trigger] mp[q].0
                    && (pre[i].worktree_space matches Some(sp) && sp.key@ == k);
                assert(ws[i] == pre[i]);
            } else {
                assert(m[q] == tail[0]);
                assert(ws[ws.len() - 1] == l);
            }
        }
    }
}

proof fn lemma_first_unlinked_member(m: Seq<(Seq<char>, bool)>)
    ensures
        first_unlinked(m) matches Some(a) ==> exists|q: int| 0 <= q < m.len() && #[trigger] m[q].0 == a,
    decreases m.len(),
{
    if m.len() > 0 {
        lemma_first_unlinked_member(m.drop_last());
        if let Some(a) = first_unlinked(m.drop_last()) {
            let q = choose|q: int| 0 <= q < m.drop_last().len() && #[trigger] m.drop_last()[q].0 == a;
            assert(m[q] == m.drop_last()[q]);
        } else {
            assert(m[m.len() - 1] == m.last());
        }
    }
}

/// Where every member of family `k` sits with the same folder, the family
/// is together.
proof fn lemma_family_at_one_place(t: StateV, k: Seq<char>, done: Set<Seq<char>>, target: Option<Seq<char>>)
    requires
        together_in(t.ws, t.order, done),
        forall|q: int| 0 <= q < family_members_of(t.ws, k).len()
            ==> folder_of_spec(t.order, #[trigger] family_members_of(t.ws, k)[q].0) == target,
    ensures
        together_in(t.ws, t.order, done.insert(k)),
{
    let ws = t.ws;
    let members = family_members_of(ws, k);
    lemma_family_members(ws, k);
    assert forall|i: int, j: int| 0 <= i < ws.len() && 0 <= j < ws.len() && same_family(#[trigger] ws[i], #[trigger] ws[j])
        && key_in(ws[i], done.insert(k)) implies folder_of_spec(t.order, ws[i].id@) == folder_of_spec(t.order, ws[j].id@) by {
        if !key_in(ws[i], done) {
            assert(ws[i].worktree_space matches Some(sp) && sp.key@ == k);
            assert(ws[j].worktree_space matches Some(sp) && sp.key@ == k);
            let qi = choose|q: int| 0 <= q < members.len() && #[trigger] members[q].0 == ws[i].id@;
            let qj = choose|q: int| 0 <= q < members.len() && #[trigger] members[q].0 == ws[j].id@;
            assert(folder_of_spec(t.order, members[qi].0) == target);
            assert(folder_of_spec(t.order, members[qj].0) == target);
        }
    }
}

/// The anchor of a family colocation: a member of the family, found in the
/// workspaces, whose folder (if any) is in the order.
proof fn lemma_colocate_anchor(t: StateV, k: Seq<char>)
    requires
        healing(t, Set::empty()),
        family_members_of(t.ws, k).len() >= 2,
    ensures
        ({
            let members = family_members_of(t.ws, k);
            let anchor = match first_unlinked(members) {
                Some(a) => a,
                None => members[0].0,
            };
            &&& first_pos(ws_ids(t.ws), anchor) is Some
            &&& family_key_of(t.ws, anchor) == Some(k)
            &&& (folder_of_spec(t.order, anchor) matches Some(f) ==> folder_index(t.order, f) is Some)
        }),
{
    let ws = t.ws;
    let members = family_members_of(ws, k);
    lemma_family_members(ws, k);
    let anchor = match first_unlinked(members) {
        Some(a) => a,
        None => members[0].0,
    };
    lemma_first_unlinked_member(members);
    let qa = if first_unlinked(members) is Some {
        choose|q: int| 0 <= q < members.len() && #[trigger] members[q].0 == anchor
    } else {
        0
    };
    assert(0 <= qa < members.len() && members[qa].0 == anchor);
    let ia = choose|i: int| 0 <= i < ws.len() && #[trigger] ws[i].id@ == #[trigger] members[qa].0
        && (ws[i].worktree_space matches Some(sp) && sp.key@ == k);
    assert(ws_ids(ws)[ia] == anchor);
    lemma_first_pos(ws_ids(ws), anchor);
    let fp = first_pos(ws_ids(ws), anchor)->Some_0;
    assert(ws_ids(ws)[fp] == ws_ids(ws)[ia]);
    if let Some(f) = folder_of_spec(t.order, anchor) {
        lemma_folder_of_holds(t.order, anchor);
        let p = choose|p: int| 0 <= p < t.order.len() && #[trigger] holds_in(t.order[p], f, anchor);
        lemma_folder_in_ids(t.order, p);
        lemma_folder_index_found_pub(t.order, f);
    }
}

proof fn lemma_healing_weaken(t: StateV, done: Set<Seq<char>>)
    requires
        healing(t, done),
    ensures
        healing(t, Set::empty()),
{
}

/// Colocating family `k` brings it together and keeps the families already
/// together.
#[verifier::spinoff_prover]
#[verifier::rlimit(40)]
proof fn lemma_colocate_base(t: StateV, k: Seq<char>, done: Set<Seq<char>>)
    requires
        healing(t, done),
    ensures
        healing(colocate_spec(t, k), done.insert(k)),
        ws_from(colocate_spec(t, k).ws, t.ws),
{
    let members = family_members_of(t.ws, k);
    assert forall|i: int| 0 <= i < t.ws.len() implies exists|j: int| 0 <= j < t.ws.len() && #[trigger] t.ws[i] == #[trigger] t.ws[j] by {
            assert(t.ws[i] == t.ws[i]);
        }
    if t.order.len() == 0 || members.len() < 2 {
        assert(colocate_spec(t, k) == t);
        if t.order.len() == 0 {
            lemma_family_at_one_place(t, k, done, None);
        } else {
            if members.len() == 1 {
                lemma_family_at_one_place(t, k, done, folder_of_spec(t.order, members[0].0));
            } else {
                lemma_family_at_one_place(t, k, done, None);
            }
        }
    } else {
        let anchor = match first_unlinked(members) {
            Some(a) => a,
            None => members[0].0,
        };
        let target = folder_of_spec(t.order, anchor);
        let split = exists|i: int| 0 <= i < members.len() && folder_of_spec(t.order, #[trigger] members[i].0) != target;
        if !split {
            assert(colocate_spec(t, k) == t);
            lemma_family_at_one_place(t, k, done, target);
        } else {
            lemma_healing_weaken(t, done);
            lemma_colocate_anchor(t, k);
            assert(colocate_spec(t, k) == assign_spec(t, anchor, target, None).0);
            lemma_assign_base(t, anchor, target, None, done, k);
        }
    }
}

proof fn lemma_keys_set_push(done: Set<Seq<char>>, keys: Seq<Seq<char>>)
    requires
        keys.len() > 0,
    ensures
        done.union(keys.drop_last().to_set()).insert(keys.last()) == done.union(keys.to_set()),
{
    let pre = keys.drop_last();
    assert forall|x: Seq<char>| #[trigger] keys.contains(x) == (pre.contains(x) || x == keys.last()) by {
        if keys.contains(x) {
            let q = choose|q: int| 0 <= q < keys.len() && keys[q] == x;
            if q < keys.len() - 1 {
                assert(pre[q] == x);
            }
        }
        if pre.contains(x) {
            let q = choose|q: int| 0 <= q < pre.len() && pre[q] == x;
            assert(keys[q] == x);
        }
        if x == keys.last() {
            assert(keys[keys.len() - 1] == x);
        }
    }
    assert(done.union(pre.to_set()).insert(keys.last()) =~= done.union(keys.to_set()));
}

/// Every worktree key of the workspaces is in `keys`.
pub open spec fn keys_from(ws: Seq<Workspace>, keys: Set<Seq<char>>) -> bool {
    forall|i: int| 0 <= i < ws.len() && (#[trigger] ws[i].worktree_space is Some) ==> keys.contains(ws[i].worktree_space->Some_0.key@)
}

proof fn lemma_keys_from_transfer(a: Seq<Workspace>, b: Seq<Workspace>, keys: Set<Seq<char>>)
    requires
        ws_from(a, b),
        keys_from(b, keys),
    ensures
        keys_from(a, keys),
{
    assert forall|i: int| 0 <= i < a.len() && (#[trigger] a[i].worktree_space is Some) implies keys.contains(a[i].worktree_space->Some_0.key@) by {
        let p = choose|p: int| 0 <= p < b.len() && #[trigger] a[i] == #[trigger] b[p];
        assert(b[p].worktree_space matches Some(sp));
    }
}

/// Colocating each of `keys` brings all those families together.
proof fn lemma_colocate_all_base(t: StateV, keys: Seq<Seq<char>>, done: Set<Seq<char>>, all: Set<Seq<char>>)
    requires
        healing(t, done),
        keys_from(t.ws, all),
    ensures
        healing(colocate_all(t, keys), done.union(keys.to_set())),
        keys_from(colocate_all(t, keys).ws, all),
    decreases keys.len(),
{
    if keys.len() == 0 {
        assert(done.union(keys.to_set()) =~= done);
    } else {
        let pre = keys.drop_last();
        lemma_colocate_all_base(t, pre, done, all);
        let r0 = colocate_all(t, pre);
        lemma_colocate_base(r0, keys.last(), done.union(pre.to_set()));
        lemma_keys_set_push(done, keys);
        lemma_keys_from_transfer(colocate_all(t, keys).ws, r0.ws, all);
    }
}

proof fn lemma_family_keys_cover(ws: Seq<Workspace>)
    ensures
        keys_from(ws, family_keys(ws).to_set()),
    decreases ws.len(),
{
    if ws.len() > 0 {
        let pre = ws.drop_last();
        lemma_family_keys_cover(pre);
        let prev = family_keys(pre);
        let l = ws.last();
        let tail = match l.worktree_space {
            Some(sp) => if prev.contains(sp.key@) { Seq::<Seq<char>>::empty() } else { seq![sp.key@] },
            None => Seq::<Seq<char>>::empty(),
        };
        assert(family_keys(ws) == prev + tail);
        assert forall|i: int| 0 <= i < ws.len() && (#[trigger] ws[i].worktree_space is Some)
            implies family_keys(ws).to_set().contains(ws[i].worktree_space->Some_0.key@) by {
            let key = ws[i].worktree_space->Some_0.key@;
            crate::folder_laws::lemma_contains_concat(prev, tail, key);
            if i < ws.len() - 1 {
                assert(pre[i] == ws[i]);
                assert(prev.to_set().contains(key));
            } else if !prev.contains(key) {
                assert(tail[0] == key);
            }
        }
    }
}

/// Healing a state whose order is sound brings every worktree family
/// together.
proof fn lemma_heal_base(s1: StateV)
    requires
        state_wf(s1),
        order_base(s1.ws, s1.order),
    ensures
        healing(heal_spec(s1), family_keys(s1.ws).to_set()),
        keys_from(heal_spec(s1).ws, family_keys(s1.ws).to_set()),
{
    let keys = family_keys(s1.ws);
    lemma_family_keys_cover(s1.ws);
    if s1.order.len() == 0 {
        assert forall|i: int, j: int| 0 <= i < s1.ws.len() && 0 <= j < s1.ws.len() && same_family(#[trigger] s1.ws[i], #[trigger] s1.ws[j])
            && key_in(s1.ws[i], keys.to_set()) implies folder_of_spec(s1.order, s1.ws[i].id@) == folder_of_spec(s1.order, s1.ws[j].id@) by {}
    } else {
        assert(together_in(s1.ws, s1.order, Set::empty()));
        lemma_colocate_all_base(s1, keys, Set::empty(), keys.to_set());
        assert(Set::<Seq<char>>::empty().union(keys.to_set()) =~= keys.to_set());
    }
}

/// With every family key of the workspaces in `keys`, the families whose
/// keys are in `keys` are all the families.
proof fn lemma_together_all_keys(ws: Seq<Workspace>, keys: Set<Seq<char>>, order: Seq<EntryV>)
    requires
        keys_from(ws, keys),
        together_in(ws, order, keys),
    ensures
        families_together(ws, order),
{
    assert forall|i: int, j: int| 0 <= i < ws.len() && 0 <= j < ws.len() && same_family(#[trigger] ws[i], #[trigger] ws[j])
        implies folder_of_spec(order, ws[i].id@) == folder_of_spec(order, ws[j].id@) by {
        assert(ws[i].worktree_space matches Some(sp));
        assert(key_in(ws[i], keys));
    }
}

/// Installing a restored order establishes every space-order invariant,
/// whatever the order held.
pub proof fn lemma_install_establishes_invariants(s: StateV, entries: Seq<EntryV>)
    requires
        state_wf(s),
    ensures
        space_order_invariants(install_spec(s, entries)),
{
    crate::state_laws::lemma_install_establishes_order_and_names(s, entries);
    let r = install_spec(s, entries);
    let next = crate::folder::reserved_next(s.next_id, entries);
    if entries.len() == 0 {
        assert(r.order == named_order(entries));
        assert(named_order(entries) =~= Seq::<EntryV>::empty());
        assert(flat(r.order) == Seq::<Seq<char>>::empty());
        assert(folder_ids(r.order) == Seq::<Seq<char>>::empty());
    } else {
        let ids = ws_ids(s.ws);
        let n0 = normalize_spec(entries, ids).0;
        let n = coalesce_entries_spec(s.ws, n0);
        let s1 = StateV { order: n, next_id: next, ..s };
        lemma_normalized_order_is_clean(entries, ids);
        lemma_coalesce_entries_keeps(s.ws, n0);
        assert forall|x: Seq<char>| #[trigger] count_of(flat(n), x) <= 1 by {}
        lemma_counts_no_dup(flat(n));
        assert forall|x: Seq<char>| #[trigger] count_of(folder_ids(n), x) <= 1 by {
            lemma_no_dup_counts(folder_ids(n0), x);
        }
        lemma_counts_no_dup(folder_ids(n));
        assert forall|x: Seq<char>| flat(n).contains(x) implies ids.contains(x) by {
            lemma_count_contains(flat(n), x);
        }
        lemma_heal_base(s1);
        let h = heal_spec(s1);
        let keys = family_keys(s1.ws);
        lemma_sync_base(h, keys.to_set());
        let installed = sync_spec(h);
        lemma_keys_from_transfer(installed.ws, h.ws, keys.to_set());
        lemma_together_all_keys(installed.ws, keys.to_set(), installed.order);
        assert(r == StateV { order: named_order(installed.order), ..installed });
        crate::state_laws::lemma_named_unnamed(installed.order);
        crate::state_laws::lemma_flat_unnamed(named_order(installed.order), installed.order);
        crate::state_laws::lemma_folder_ids_unnamed(named_order(installed.order), installed.order);
        assert forall|w: Seq<char>| #[trigger] folder_of_spec(r.order, w) == folder_of_spec(installed.order, w) by {
            crate::state_laws::lemma_folder_of_unnamed(named_order(installed.order), installed.order, w);
        }
        lemma_families_by_map(r.ws, installed.order, r.order, |x: Option<Seq<char>>| x);
    }
}

proof fn lemma_update_folder_ids(order: Seq<EntryV>, p: int, e: EntryV)
    requires
        0 <= p < order.len(),
        entry_folder_ids(order[p]) == entry_folder_ids(e),
    ensures
        folder_ids(order.update(p, e)) == folder_ids(order),
{
    let a = order.take(p);
    let b = order.skip(p + 1);
    assert(order =~= a + seq![order[p]] + b);
    assert(order.update(p, e) =~= a + seq![e] + b);
    lemma_folder_ids_concat(a + seq![order[p]], b);
    lemma_folder_ids_concat(a, seq![order[p]]);
    lemma_folder_ids_concat(a + seq![e], b);
    lemma_folder_ids_concat(a, seq![e]);
    assert(seq![e].drop_last() =~= Seq::<EntryV>::empty());
    assert(seq![order[p]].drop_last() =~= Seq::<EntryV>::empty());
    crate::order_laws::lemma_single_parts(e);
    crate::order_laws::lemma_single_parts(order[p]);
}

proof fn lemma_prefix_keeps_folder_ids(entries: Seq<EntryV>, ids: Seq<Seq<char>>, f: Seq<char>)
    ensures
        folder_ids(crate::folder::normalize_prefix(entries, ids).out).contains(f) == folder_ids(entries).contains(f),
    decreases entries.len(),
{
    if entries.len() > 0 {
        let pre = entries.drop_last();
        let e = entries.last();
        lemma_prefix_keeps_folder_ids(pre, ids, f);
        let st = crate::folder::normalize_prefix(pre, ids);
        lemma_folder_ids_concat(pre, seq![e]);
        assert(pre + seq![e] =~= entries);
        assert(seq![e].drop_last() =~= Seq::<EntryV>::empty());
        crate::order_laws::lemma_single_parts(e);
        crate::folder_laws::lemma_contains_concat(folder_ids(pre), entry_folder_ids(e), f);
        match e {
            EntryV::Workspace(id) => {
                let (st1, k) = crate::folder::keep_spec(st, ids, id);
                assert(st1.out == st.out);
                if k {
                    let w = EntryV::Workspace(id);
                    lemma_folder_ids_concat(st.out, seq![w]);
                    assert(st.out.push(w) =~= st.out + seq![w]);
                    assert(seq![w].drop_last() =~= Seq::<EntryV>::empty());
                    crate::order_laws::lemma_single_parts(w);
                    assert(folder_ids(st.out) + Seq::<Seq<char>>::empty() =~= folder_ids(st.out));
                }
                assert(entry_folder_ids(e) =~= Seq::<Seq<char>>::empty());
            },
            EntryV::Folder(g) => {
                crate::name_laws::lemma_filter_keeps_out(g.members, st, ids);
                let (kept, st1) = crate::folder::filter_members(g.members, st, ids);
                assert(entry_folder_ids(e) == seq![g.id]);
                lemma_folder_index_found_pub(st1.out, g.id);
                match folder_index(st1.out, g.id) {
                    Some(p) => {
                        let existing = st1.out[p];
                        let updated = match existing {
                            EntryV::Folder(h) => EntryV::Folder(FolderV { members: h.members + kept, ..h }),
                            EntryV::Workspace(w) => EntryV::Workspace(w),
                        };
                        lemma_update_folder_ids(st1.out, p, updated);
                        if f == g.id {
                            assert(folder_ids(st1.out).contains(f));
                        }
                    },
                    None => {
                        let added = EntryV::Folder(FolderV { id: g.id, name: g.name, members: kept });
                        lemma_folder_ids_concat(st1.out, seq![added]);
                        assert(st1.out.push(added) =~= st1.out + seq![added]);
                        assert(seq![added].drop_last() =~= Seq::<EntryV>::empty());
                        crate::order_laws::lemma_single_parts(added);
                        crate::folder_laws::lemma_contains_concat(folder_ids(st1.out), seq![g.id], f);
                        if f == g.id {
                            assert(seq![g.id][0] == f);
                        }
                    },
                }
            },
        }
    }
}

/// Normalizing and gathering families keep every folder id of the order,
/// and bring in none: a folder found before is found after.
pub proof fn lemma_normalize_keeps_folder_ids(ws: Seq<Workspace>, order: Seq<EntryV>, f: Seq<char>)
    ensures
        folder_ids(coalesce_entries_spec(ws, normalize_spec(order, ws_ids(ws)).0)).contains(f)
            == folder_ids(order).contains(f),
        (folder_index(coalesce_entries_spec(ws, normalize_spec(order, ws_ids(ws)).0), f) is Some)
            == (folder_index(order, f) is Some),
{
    let ids = ws_ids(ws);
    let st = crate::folder::normalize_prefix(order, ids);
    let m = missing_ids(ids, st.seen);
    lemma_prefix_keeps_folder_ids(order, ids, f);
    lemma_flat_loose(st.out, m);
    let n0 = normalize_spec(order, ids).0;
    let n = coalesce_entries_spec(ws, n0);
    lemma_coalesce_entries_keeps(ws, n0);
    lemma_count_contains(folder_ids(n), f);
    lemma_count_contains(folder_ids(n0), f);
    lemma_folder_index_found_pub(n, f);
    lemma_folder_index_found_pub(order, f);
}

/// Normalizing a state keeps every folder id of its order.
pub proof fn lemma_normalize_state_keeps_folder_ids(s: StateV, f: Seq<char>)
    ensures
        (folder_index(normalize_state_spec(s).order, f) is Some) == (folder_index(s.order, f) is Some),
{
    lemma_normalize_keeps_folder_ids(s.ws, s.order, f);
}

/// Deleting a folder fails exactly when the order has no folder with that id.
pub proof fn lemma_delete_folder_fails_only_when_missing(s: StateV, id: Seq<char>)
    ensures
        (delete_folder_spec(s, id).1 is Err) == (folder_index(s.order, id) is None),
{
    lemma_normalize_state_keeps_folder_ids(s, id);
}

/// Moving a folder fails exactly when the order has no folder with that id.
pub proof fn lemma_move_folder_fails_only_when_missing(s: StateV, id: Seq<char>, position: usize)
    ensures
        (move_folder_spec(s, id, position).1 is Err) == (folder_index(s.order, id) is None),
{
    lemma_normalize_state_keeps_folder_ids(s, id);
}

/// Assigning fails exactly when the workspace is unknown or the named
/// folder is not in the order.
pub proof fn lemma_assign_fails_only_when_missing(s: StateV, wid: Seq<char>, fid: Option<Seq<char>>, position: Option<usize>)
    ensures
        (assign_spec(s, wid, fid, position).1 is Ok)
            == (first_pos(ws_ids(s.ws), wid) is Some && !(fid matches Some(f) && folder_index(s.order, f) is None)),
{
    if first_pos(ws_ids(s.ws), wid) is Some {
        if let Some(f) = fid {
            lemma_normalize_state_keeps_folder_ids(s, f);
            let s1 = normalize_state_spec(s);
            let aff = match family_key_of(s.ws, wid) {
                Some(k) => family_ids(s1.ws, canonical_of(s1), k),
                None => seq![wid],
            };
            lemma_remove_block_keeps(s1.order, aff, seq![], seq![]);
            lemma_folder_index_found_pub(s1.order, f);
            lemma_folder_index_found_pub(remove_block(s1.order, aff), f);
        }
    }
}

proof fn lemma_ws_no_dup(ws: Seq<Workspace>)
    requires
        ws_ids(ws).no_duplicates(),
    ensures
        ws.no_duplicates(),
{
    assert forall|i: int, j: int| 0 <= i < ws.len() && 0 <= j < ws.len() && i != j implies ws[i] != ws[j] by {
        assert(ws_ids(ws)[i] != ws_ids(ws)[j]);
    }
}

/// Two duplicate-free lists with the same elements hold them equally often.
proof fn lemma_same_elements_multiset(a: Seq<Workspace>, b: Seq<Workspace>)
    requires
        a.no_duplicates(),
        b.no_duplicates(),
        forall|w: Workspace| a.contains(w) == b.contains(w),
    ensures
        a.to_multiset() == b.to_multiset(),
{
    broadcast use vstd::seq_lib::group_to_multiset_ensures;
    a.lemma_multiset_has_no_duplicates();
    b.lemma_multiset_has_no_duplicates();
    assert forall|w: Workspace| #[trigger] a.to_multiset().count(w) == b.to_multiset().count(w) by {
        if a.contains(w) {
            assert(a.to_multiset().contains(w));
            assert(b.to_multiset().contains(w));
        } else {
            assert(!a.to_multiset().contains(w));
            assert(!b.to_multiset().contains(w));
        }
    }
    assert(a.to_multiset() =~= b.to_multiset());
}

/// Re-sorting the workspaces only reorders them.
pub proof fn lemma_sync_permutes(t: StateV)
    requires
        state_wf(t),
    ensures
        sync_spec(t).ws.to_multiset() == t.ws.to_multiset(),
{
    let ids = ws_ids(t.ws);
    let canon = canonical_of(t);
    lemma_sync_from(t);
    crate::state::lemma_sync_sorts(t);
    let u = sync_spec(t);
    lemma_ws_no_dup(t.ws);
    lemma_ws_no_dup(u.ws);
    assert forall|w: Workspace| t.ws.contains(w) == u.ws.contains(w) by {
        if u.ws.contains(w) {
            let i = choose|i: int| 0 <= i < u.ws.len() && u.ws[i] == w;
            let j = choose|j: int| 0 <= j < t.ws.len() && #[trigger] u.ws[i] == #[trigger] t.ws[j];
            assert(t.ws[j] == w);
        }
        if t.ws.contains(w) && ids != canon {
            let j = choose|j: int| 0 <= j < t.ws.len() && t.ws[j] == w;
            assert(ids[j] == w.id@);
            assert(ids.contains(w.id@));
            assert(ws_ids(u.ws).contains(w.id@));
            let k = choose|k: int| 0 <= k < ws_ids(u.ws).len() && ws_ids(u.ws)[k] == w.id@;
            let j2 = choose|j2: int| 0 <= j2 < t.ws.len() && #[trigger] u.ws[k] == #[trigger] t.ws[j2];
            assert(ids[j2] == ids[j]);
            assert(u.ws[k] == w);
        }
    }
    lemma_same_elements_multiset(t.ws, u.ws);
}

/// Normalizing only reorders the workspaces.
pub proof fn lemma_normalize_permutes(s: StateV)
    requires
        state_wf(s),
    ensures
        normalize_state_spec(s).ws.to_multiset() == s.ws.to_multiset(),
{
    let (t, changed) = normalize_entries_spec(s);
    if changed {
        lemma_sync_permutes(t);
    }
}

/// An assignment only reorders the workspaces.
pub proof fn lemma_assign_permutes(s: StateV, wid: Seq<char>, fid: Option<Seq<char>>, position: Option<usize>)
    requires
        state_wf(s),
    ensures
        assign_spec(s, wid, fid, position).0.ws.to_multiset() == s.ws.to_multiset(),
{
    if first_pos(ws_ids(s.ws), wid) is Some && !(fid matches Some(f) && folder_index(s.order, f) is None) {
        lemma_normalize_permutes(s);
        crate::state::lemma_normalize_state_wf(s);
        let s1 = normalize_state_spec(s);
        let aff = match family_key_of(s.ws, wid) {
            Some(k) => family_ids(s1.ws, canonical_of(s1), k),
            None => seq![wid],
        };
        assert(assign_spec(s, wid, fid, position).0 == assigned_state(s1, aff, fid, position));
        let order2 = remove_block(s1.order, aff);
        match fid {
            Some(f) => match folder_index(order2, f) {
                None => {
                    lemma_sync_permutes(StateV { order: order2, ..s1 });
                },
                Some(p) => {
                    let g = folder_at(order2, p);
                    let idx = clamp_position(position, g.members.len());
                    let order3 = order2.update(p, EntryV::Folder(FolderV { members: g.members.take(idx) + aff + g.members.skip(idx), ..g }));
                    lemma_sync_permutes(StateV { order: order3, ..s1 });
                },
            },
            None => {
                let idx = clamp_position(position, order2.len());
                lemma_sync_permutes(StateV { order: order2.take(idx) + loose_entries(aff) + order2.skip(idx), ..s1 });
            },
        }
    }
}

/// Creating, deleting or moving a folder only reorders the workspaces.
pub proof fn lemma_folder_mutations_permute(s: StateV, id: Seq<char>, name: Seq<char>, position: usize)
    requires
        state_wf(s),
    ensures
        create_folder_spec(s, name).0.ws.to_multiset() == s.ws.to_multiset(),
        delete_folder_spec(s, id).0.ws.to_multiset() == s.ws.to_multiset(),
        move_folder_spec(s, id, position).0.ws.to_multiset() == s.ws.to_multiset(),
{
    lemma_normalize_permutes(s);
    crate::state::lemma_normalize_state_wf(s);
    let s1 = normalize_state_spec(s);
    if let Some(p) = folder_index(s1.order, id) {
        let released = folder_at(s1.order, p).members;
        let order2 = s1.order.take(p) + loose_entries(released) + s1.order.skip(p + 1);
        lemma_sync_permutes(StateV { order: order2, ..s1 });
        let e = s1.order[p];
        let rest = s1.order.remove(p);
        let target = if position < rest.len() { position } else { rest.len() as usize };
        lemma_sync_permutes(StateV { order: rest.insert(target as int, e), ..s1 });
    }
}

} // verus!
