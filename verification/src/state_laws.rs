//! Laws of the folder operations on the application state: the workspaces
//! stay sorted to the canonical flattening of the space order.
use vstd::prelude::*;
use crate::folder::{
    canonical_spec, filter_members, flat, folder_index, keep_spec, loose_entries, missing_ids, normalize_prefix,
    normalize_spec, normalize_step, count_of, entry_refs, EntryV, FolderV, NormState,
};
use crate::folder_laws::{lemma_count_contains, lemma_flat_loose, lemma_folder_index_found_pub, lemma_pass_inv};
use crate::state::{
    assign_spec, canonical_of, create_folder_spec, delete_folder_spec, lemma_normalize_state_wf, lemma_sync_sorts,
    move_folder_spec, normalize_entries_spec, rename_folder_spec, normalize_state_spec, state_wf, sync_spec, ws_ids, StateV,
};
use crate::folder_laws::lemma_canonical_is_permutation;
use crate::state::{space_order_invariants, same_family, install_spec, named_order, named_entry, rebuild_spec};
use crate::folder::{folder_ids, folder_of_spec};

verus! {

/// The workspaces are listed in the canonical flattening of the space order.
pub open spec fn ws_sorted(s: StateV) -> bool {
    ws_ids(s.ws) == canonical_of(s)
}

/// Two id lists with the same elements.
pub open spec fn same_elements(a: Seq<Seq<char>>, b: Seq<Seq<char>>) -> bool {
    forall|x: Seq<char>| #[trigger] a.contains(x) == b.contains(x)
}

proof fn lemma_filter_known(members: Seq<Seq<char>>, st: crate::folder::NormState, k1: Seq<Seq<char>>, k2: Seq<Seq<char>>)
    requires
        same_elements(k1, k2),
    ensures
        filter_members(members, st, k1) == filter_members(members, st, k2),
    decreases members.len(),
{
    if members.len() > 0 {
        lemma_filter_known(members.drop_last(), st, k1, k2);
        let (_, st1) = filter_members(members.drop_last(), st, k1);
        assert(k1.contains(members.last()) == k2.contains(members.last()));
        assert(keep_spec(st1, k1, members.last()) == keep_spec(st1, k2, members.last()));
    }
}

/// The normalization pass reads the live ids only through membership.
proof fn lemma_prefix_known(entries: Seq<EntryV>, k1: Seq<Seq<char>>, k2: Seq<Seq<char>>)
    requires
        same_elements(k1, k2),
    ensures
        normalize_prefix(entries, k1) == normalize_prefix(entries, k2),
    decreases entries.len(),
{
    if entries.len() > 0 {
        lemma_prefix_known(entries.drop_last(), k1, k2);
        let st = normalize_prefix(entries.drop_last(), k1);
        match entries.last() {
            EntryV::Workspace(id) => {
                assert(k1.contains(id) == k2.contains(id));
                assert(keep_spec(st, k1, id) == keep_spec(st, k2, id));
            },
            EntryV::Folder(f) => {
                lemma_filter_known(f.members, st, k1, k2);
            },
        }
    }
}

proof fn lemma_missing_concat(a: Seq<Seq<char>>, b: Seq<Seq<char>>, seen: Seq<Seq<char>>)
    ensures
        missing_ids(a + b, seen) == missing_ids(a, seen) + missing_ids(b, seen),
    decreases b.len(),
{
    if b.len() == 0 {
        assert(a + b =~= a);
        assert(missing_ids(a, seen) + missing_ids(b, seen) =~= missing_ids(a, seen));
    } else {
        lemma_missing_concat(a, b.drop_last(), seen);
        assert((a + b).drop_last() =~= a + b.drop_last());
        assert((a + b).last() == b.last());
        let ma = missing_ids(a, seen);
        let mb = missing_ids(b.drop_last(), seen);
        if !seen.contains(b.last()) {
            assert((ma + mb).push(b.last()) =~= ma + mb.push(b.last()));
        }
    }
}

proof fn lemma_missing_all_seen(a: Seq<Seq<char>>, seen: Seq<Seq<char>>)
    requires
        forall|i: int| 0 <= i < a.len() ==> seen.contains(#[trigger] a[i]),
    ensures
        missing_ids(a, seen) == Seq::<Seq<char>>::empty(),
    decreases a.len(),
{
    if a.len() > 0 {
        assert(seen.contains(a[a.len() - 1]));
        lemma_missing_all_seen(a.drop_last(), seen);
    }
}

proof fn lemma_missing_none_seen(a: Seq<Seq<char>>, seen: Seq<Seq<char>>)
    requires
        forall|i: int| 0 <= i < a.len() ==> !seen.contains(#[trigger] a[i]),
    ensures
        missing_ids(a, seen) == a,
    decreases a.len(),
{
    if a.len() > 0 {
        assert(!seen.contains(a[a.len() - 1]));
        lemma_missing_none_seen(a.drop_last(), seen);
        assert(a.drop_last().push(a.last()) =~= a);
    }
}

proof fn lemma_missing_unseen(ids: Seq<Seq<char>>, seen: Seq<Seq<char>>)
    ensures
        forall|i: int| 0 <= i < missing_ids(ids, seen).len() ==> !seen.contains(#[trigger] missing_ids(ids, seen)[i]),
    decreases ids.len(),
{
    if ids.len() > 0 {
        lemma_missing_unseen(ids.drop_last(), seen);
        let m0 = missing_ids(ids.drop_last(), seen);
        if !seen.contains(ids.last()) {
            assert forall|i: int| 0 <= i < m0.push(ids.last()).len()
                implies !seen.contains(#[trigger] m0.push(ids.last())[i]) by {
                if i < m0.len() {
                    assert(m0.push(ids.last())[i] == m0[i]);
                }
            }
        }
    }
}

/// Normalizing against the canonical flattening gives the same order as
/// normalizing against the workspaces it was computed from.
proof fn lemma_normalize_against_canonical(order: Seq<EntryV>, ids: Seq<Seq<char>>)
    requires
        ids.no_duplicates(),
    ensures
        normalize_spec(order, canonical_spec(order, ids)).0 == normalize_spec(order, ids).0,
{
    let canon = canonical_spec(order, ids);
    lemma_canonical_is_permutation(order, ids);
    assert forall|x: Seq<char>| #[trigger] ids.contains(x) == canon.contains(x) by {
        lemma_count_contains(canon, x);
    }
    lemma_prefix_known(order, ids, canon);
    let st = normalize_prefix(order, ids);
    let m = missing_ids(ids, st.seen);
    lemma_flat_loose(st.out, m);
    lemma_pass_inv(order, ids);
    assert forall|i: int| 0 <= i < flat(st.out).len() implies st.seen.contains(#[trigger] flat(st.out)[i]) by {
        let x = flat(st.out)[i];
        assert(flat(st.out).contains(x));
        lemma_count_contains(flat(st.out), x);
    }
    lemma_missing_all_seen(flat(st.out), st.seen);
    lemma_missing_unseen(ids, st.seen);
    lemma_missing_none_seen(m, st.seen);
    lemma_missing_concat(flat(st.out), m, st.seen);
    assert(Seq::<Seq<char>>::empty() + m =~= m);
}

/// Re-sorting the workspaces leaves the canonical flattening as it was.
pub proof fn lemma_sync_keeps_canonical(s: StateV)
    requires
        state_wf(s),
    ensures
        canonical_of(sync_spec(s)) == canonical_of(s),
{
    lemma_sync_sorts(s);
    if ws_ids(s.ws) != canonical_of(s) {
        lemma_normalize_against_canonical(s.order, ws_ids(s.ws));
    }
}

/// After re-sorting, the workspaces follow the canonical flattening.
pub proof fn lemma_sync_sorted(s: StateV)
    requires
        state_wf(s),
    ensures
        ws_sorted(sync_spec(s)),
        state_wf(sync_spec(s)),
{
    lemma_sync_sorts(s);
    lemma_sync_keeps_canonical(s);
}

/// Normalizing the space order keeps the workspaces sorted.
pub proof fn lemma_normalize_keeps_sorted(s: StateV)
    requires
        state_wf(s),
        ws_sorted(s),
    ensures
        ws_sorted(normalize_state_spec(s)),
        state_wf(normalize_state_spec(s)),
{
    lemma_normalize_state_wf(s);
    let (s1, changed) = normalize_entries_spec(s);
    if changed {
        lemma_sync_sorted(s1);
    }
}

/// Appending an empty folder leaves the canonical flattening as it was.
proof fn lemma_push_empty_folder(order: Seq<EntryV>, ids: Seq<Seq<char>>, f: FolderV)
    requires
        f.members == Seq::<Seq<char>>::empty(),
    ensures
        canonical_spec(order.push(EntryV::Folder(f)), ids) == canonical_spec(order, ids),
{
    let e = EntryV::Folder(f);
    let pushed = order.push(e);
    assert(pushed.drop_last() =~= order);
    assert(pushed.last() == e);
    let st = normalize_prefix(order, ids);
    let st2 = normalize_prefix(pushed, ids);
    assert(st2 == normalize_step(st, e, ids));
    assert(filter_members(f.members, st, ids) == (Seq::<Seq<char>>::empty(), st));
    lemma_folder_index_found_pub(st.out, f.id);
    match folder_index(st.out, f.id) {
        Some(p) => {
            let g = match st.out[p] {
                EntryV::Folder(g) => g,
                EntryV::Workspace(_) => f,
            };
            assert(g.members + Seq::<Seq<char>>::empty() =~= g.members);
            assert(st2.out =~= st.out);
        },
        None => {
            let added = EntryV::Folder(FolderV { id: f.id, name: f.name, members: Seq::<Seq<char>>::empty() });
            assert(st2.out == st.out.push(added));
            assert(st.out.push(added).drop_last() =~= st.out);
            assert(flat(st2.out) =~= flat(st.out));
        },
    }
    assert(st2.seen == st.seen);
    let m = missing_ids(ids, st.seen);
    lemma_flat_loose(st.out, m);
    lemma_flat_loose(st2.out, m);
}

/// Creating a folder keeps the workspaces sorted.
pub proof fn lemma_create_folder_keeps_sorted(s: StateV, name: Seq<char>)
    requires
        state_wf(s),
        ws_sorted(s),
    ensures
        ws_sorted(create_folder_spec(s, name).0),
{
    lemma_normalize_keeps_sorted(s);
    let s1 = normalize_state_spec(s);
    let s2 = create_folder_spec(s, name).0;
    if s2 != s {
        let f = crate::folder::FolderV {
            id: crate::folder::folder_id_spec(s1.next_id as usize as nat),
            name: crate::text::trim_spec(name),
            members: seq![],
        };
        lemma_push_empty_folder(s1.order, ws_ids(s1.ws), f);
    }
}

/// Deleting a folder keeps the workspaces sorted.
pub proof fn lemma_delete_folder_keeps_sorted(s: StateV, id: Seq<char>)
    requires
        state_wf(s),
        ws_sorted(s),
    ensures
        ws_sorted(delete_folder_spec(s, id).0),
{
    lemma_normalize_keeps_sorted(s);
    let s1 = normalize_state_spec(s);
    match folder_index(s1.order, id) {
        Some(p) => {
            let released = crate::state::folder_at(s1.order, p).members;
            let order2 = s1.order.take(p) + loose_entries(released) + s1.order.skip(p + 1);
            lemma_sync_sorted(StateV { order: order2, ..s1 });
        },
        None => {},
    }
}

/// Moving a folder keeps the workspaces sorted.
pub proof fn lemma_move_folder_keeps_sorted(s: StateV, id: Seq<char>, position: usize)
    requires
        state_wf(s),
        ws_sorted(s),
    ensures
        ws_sorted(move_folder_spec(s, id, position).0),
{
    lemma_normalize_keeps_sorted(s);
    let s1 = normalize_state_spec(s);
    match folder_index(s1.order, id) {
        Some(p) => {
            lemma_folder_index_found_pub(s1.order, id);
            let e = s1.order[p];
            let rest = s1.order.remove(p);
            let target = if position < rest.len() { position } else { rest.len() as usize };
            let order2 = rest.insert(target as int, e);
            if target == p {
                assert(order2 =~= s1.order);
            } else {
                lemma_sync_sorted(StateV { order: order2, ..s1 });
            }
        },
        None => {},
    }
}

/// Assigning a workspace to a folder or to the top level keeps the
/// workspaces sorted.
pub proof fn lemma_assign_keeps_sorted(s: StateV, wid: Seq<char>, fid: Option<Seq<char>>, position: Option<usize>)
    requires
        state_wf(s),
        ws_sorted(s),
    ensures
        ws_sorted(assign_spec(s, wid, fid, position).0),
{
    lemma_normalize_keeps_sorted(s);
    let s1 = normalize_state_spec(s);
    let key = crate::state::family_key_of(s.ws, wid);
    let affected = match key {
        Some(k) => crate::state::family_ids(s1.ws, canonical_of(s1), k),
        None => seq![wid],
    };
    let order2 = crate::state::remove_block(s1.order, affected);
    match fid {
        Some(f) => match folder_index(order2, f) {
            None => {
                lemma_sync_sorted(StateV { order: order2, ..s1 });
            },
            Some(p) => {
                let g = crate::state::folder_at(order2, p);
                let idx = crate::state::clamp_position(position, g.members.len());
                let members = g.members.take(idx) + affected + g.members.skip(idx);
                let order3 = order2.update(p, EntryV::Folder(FolderV { members, ..g }));
                lemma_sync_sorted(StateV { order: order3, ..s1 });
            },
        },
        None => {
            let idx = crate::state::clamp_position(position, order2.len());
            let order3 = order2.take(idx) + loose_entries(affected) + order2.skip(idx);
            lemma_sync_sorted(StateV { order: order3, ..s1 });
        },
    }
}

/// An entry with its folder name blanked out.
pub open spec fn unnamed_entry(e: EntryV) -> EntryV {
    match e {
        EntryV::Folder(f) => EntryV::Folder(FolderV { name: Seq::<char>::empty(), ..f }),
        EntryV::Workspace(w) => EntryV::Workspace(w),
    }
}

/// An order with every folder name blanked out.
pub open spec fn unnamed(entries: Seq<EntryV>) -> Seq<EntryV> {
    entries.map_values(|e: EntryV| unnamed_entry(e))
}

proof fn lemma_unnamed_drop_last(a: Seq<EntryV>)
    requires
        a.len() > 0,
    ensures
        unnamed(a.drop_last()) == unnamed(a).drop_last(),
        unnamed(a)[a.len() - 1] == unnamed_entry(a.last()),
{
    assert(unnamed(a.drop_last()) =~= unnamed(a).drop_last());
}

proof fn lemma_unnamed_entry_eq(x: EntryV, y: EntryV)
    requires
        unnamed_entry(x) == unnamed_entry(y),
    ensures
        entry_refs(x) == entry_refs(y),
        match (x, y) {
            (EntryV::Folder(f), EntryV::Folder(g)) => f.id == g.id && f.members == g.members,
            (EntryV::Workspace(v), EntryV::Workspace(w)) => v == w,
            _ => false,
        },
{
    match (x, y) {
        (EntryV::Folder(f), EntryV::Folder(g)) => {
            assert(FolderV { name: Seq::<char>::empty(), ..f } == FolderV { name: Seq::<char>::empty(), ..g });
        },
        _ => {},
    }
}

proof fn lemma_folder_index_unnamed(a: Seq<EntryV>, b: Seq<EntryV>, id: Seq<char>)
    requires
        unnamed(a) == unnamed(b),
    ensures
        folder_index(a, id) == folder_index(b, id),
    decreases a.len(),
{
    if a.len() > 0 {
        assert(unnamed(a).len() == a.len() && unnamed(b).len() == b.len());
        lemma_unnamed_drop_last(a);
        lemma_unnamed_drop_last(b);
        lemma_folder_index_unnamed(a.drop_last(), b.drop_last(), id);
        lemma_unnamed_entry_eq(a.last(), b.last());
    } else {
        assert(b.len() == unnamed(b).len());
    }
}

pub(crate) proof fn lemma_flat_unnamed(a: Seq<EntryV>, b: Seq<EntryV>)
    requires
        unnamed(a) == unnamed(b),
    ensures
        flat(a) == flat(b),
    decreases a.len(),
{
    if a.len() > 0 {
        assert(unnamed(a).len() == a.len() && unnamed(b).len() == b.len());
        lemma_unnamed_drop_last(a);
        lemma_unnamed_drop_last(b);
        lemma_flat_unnamed(a.drop_last(), b.drop_last());
        lemma_unnamed_entry_eq(a.last(), b.last());
    } else {
        assert(b.len() == unnamed(b).len());
    }
}

/// Filtering folder members reads the pass state only through the ids seen
/// and the repairs so far, and leaves its output alone.
proof fn lemma_filter_out_irrelevant(members: Seq<Seq<char>>, sa: NormState, sb: NormState, known: Seq<Seq<char>>)
    requires
        sa.seen == sb.seen,
        sa.repairs == sb.repairs,
    ensures
        filter_members(members, sa, known).0 == filter_members(members, sb, known).0,
        filter_members(members, sa, known).1.seen == filter_members(members, sb, known).1.seen,
        filter_members(members, sa, known).1.repairs == filter_members(members, sb, known).1.repairs,
        filter_members(members, sa, known).1.out == sa.out,
        filter_members(members, sb, known).1.out == sb.out,
    decreases members.len(),
{
    if members.len() > 0 {
        lemma_filter_out_irrelevant(members.drop_last(), sa, sb, known);
    }
}

/// Folder names play no part in what normalization keeps, merges or appends.
proof fn lemma_prefix_unnamed(a: Seq<EntryV>, b: Seq<EntryV>, known: Seq<Seq<char>>)
    requires
        unnamed(a) == unnamed(b),
    ensures
        normalize_prefix(a, known).seen == normalize_prefix(b, known).seen,
        normalize_prefix(a, known).repairs == normalize_prefix(b, known).repairs,
        unnamed(normalize_prefix(a, known).out) == unnamed(normalize_prefix(b, known).out),
    decreases a.len(),
{
    if a.len() == 0 {
        assert(b.len() == unnamed(b).len());
    } else {
        assert(unnamed(a).len() == a.len() && unnamed(b).len() == b.len());
        lemma_unnamed_drop_last(a);
        lemma_unnamed_drop_last(b);
        lemma_prefix_unnamed(a.drop_last(), b.drop_last(), known);
        let sa = normalize_prefix(a.drop_last(), known);
        let sb = normalize_prefix(b.drop_last(), known);
        lemma_unnamed_entry_eq(a.last(), b.last());
        match (a.last(), b.last()) {
            (EntryV::Workspace(x), EntryV::Workspace(y)) => {
                assert(x == y);
                let (_, ka) = keep_spec(sa, known, x);
                if ka {
                    let ua = sa.out.push(EntryV::Workspace(x));
                    let ub = sb.out.push(EntryV::Workspace(x));
                    assert(unnamed(ua) =~= unnamed(sa.out).push(EntryV::Workspace(x)));
                    assert(unnamed(ub) =~= unnamed(sb.out).push(EntryV::Workspace(x)));
                }
            },
            (EntryV::Folder(fa), EntryV::Folder(fb)) => {
                assert(fa.id == fb.id && fa.members == fb.members);
                lemma_filter_out_irrelevant(fa.members, sa, sb, known);
                let (kept, s1a) = filter_members(fa.members, sa, known);
                let s1b = filter_members(fb.members, sb, known).1;
                lemma_folder_index_unnamed(s1a.out, s1b.out, fa.id);
                match folder_index(s1a.out, fa.id) {
                    Some(p) => {
                        lemma_folder_index_found_pub(s1a.out, fa.id);
                        lemma_folder_index_found_pub(s1b.out, fa.id);
                        assert(unnamed(s1a.out)[p] == unnamed_entry(s1a.out[p]));
                        assert(unnamed(s1b.out)[p] == unnamed_entry(s1b.out[p]));
                        let ga = match s1a.out[p] { EntryV::Folder(g) => g, EntryV::Workspace(_) => fa };
                        let gb = match s1b.out[p] { EntryV::Folder(g) => g, EntryV::Workspace(_) => fb };
                        let ua = EntryV::Folder(FolderV { members: ga.members + kept, ..ga });
                        let ub = EntryV::Folder(FolderV { members: gb.members + kept, ..gb });
                        assert(unnamed_entry(ua) == unnamed_entry(ub));
                        assert(unnamed(s1a.out.update(p, ua)) =~= unnamed(s1a.out).update(p, unnamed_entry(ua)));
                        assert(unnamed(s1b.out.update(p, ub)) =~= unnamed(s1b.out).update(p, unnamed_entry(ub)));
                    },
                    None => {
                        let ua = EntryV::Folder(FolderV { id: fa.id, name: fa.name, members: kept });
                        let ub = EntryV::Folder(FolderV { id: fb.id, name: fb.name, members: kept });
                        assert(unnamed(s1a.out.push(ua)) =~= unnamed(s1a.out).push(unnamed_entry(ua)));
                        assert(unnamed(s1b.out.push(ub)) =~= unnamed(s1b.out).push(unnamed_entry(ub)));
                    },
                }
            },
            _ => {},
        }
    }
}

/// Renaming folders leaves the canonical flattening as it was.
proof fn lemma_canonical_unnamed(a: Seq<EntryV>, b: Seq<EntryV>, ids: Seq<Seq<char>>)
    requires
        unnamed(a) == unnamed(b),
    ensures
        canonical_spec(a, ids) == canonical_spec(b, ids),
{
    lemma_prefix_unnamed(a, b, ids);
    let sa = normalize_prefix(a, ids);
    let sb = normalize_prefix(b, ids);
    let m = missing_ids(ids, sa.seen);
    lemma_flat_loose(sa.out, m);
    lemma_flat_loose(sb.out, m);
    lemma_flat_unnamed(sa.out, sb.out);
}

/// Renaming a folder keeps the workspaces sorted.
pub proof fn lemma_rename_folder_keeps_sorted(s: StateV, id: Seq<char>, name: Seq<char>)
    requires
        ws_sorted(s),
    ensures
        ws_sorted(rename_folder_spec(s, id, name).0),
{
    match folder_index(s.order, id) {
        Some(p) => {
            lemma_folder_index_found_pub(s.order, id);
            let f = crate::state::folder_at(s.order, p);
            let order2 = s.order.update(p, EntryV::Folder(FolderV { name: crate::text::trim_spec(name), ..f }));
            assert(unnamed(order2) =~= unnamed(s.order));
            lemma_canonical_unnamed(order2, s.order, ws_ids(s.ws));
        },
        None => {},
    }
}

/// Renaming folders leaves the folder ids as they were.
pub(crate) proof fn lemma_folder_ids_unnamed(a: Seq<EntryV>, b: Seq<EntryV>)
    requires
        unnamed(a) == unnamed(b),
    ensures
        folder_ids(a) == folder_ids(b),
    decreases a.len(),
{
    assert(unnamed(a).len() == a.len() && unnamed(b).len() == b.len());
    if a.len() > 0 {
        lemma_unnamed_drop_last(a);
        lemma_unnamed_drop_last(b);
        lemma_folder_ids_unnamed(a.drop_last(), b.drop_last());
        lemma_unnamed_entry_eq(a.last(), b.last());
        assert(folder_ids(a) == folder_ids(a.drop_last()) + match a.last() {
            EntryV::Folder(f) => seq![f.id],
            EntryV::Workspace(_) => Seq::<Seq<char>>::empty(),
        });
        assert(folder_ids(b) == folder_ids(b.drop_last()) + match b.last() {
            EntryV::Folder(f) => seq![f.id],
            EntryV::Workspace(_) => Seq::<Seq<char>>::empty(),
        });
    }
}

/// Renaming folders leaves every workspace's folder as it was.
pub(crate) proof fn lemma_folder_of_unnamed(a: Seq<EntryV>, b: Seq<EntryV>, w: Seq<char>)
    requires
        unnamed(a) == unnamed(b),
    ensures
        folder_of_spec(a, w) == folder_of_spec(b, w),
    decreases a.len(),
{
    assert(unnamed(a).len() == a.len() && unnamed(b).len() == b.len());
    if a.len() > 0 {
        assert(unnamed(a.drop_first()) =~= unnamed(a).drop_first());
        assert(unnamed(b.drop_first()) =~= unnamed(b).drop_first());
        assert(unnamed(a)[0] == unnamed_entry(a[0]) && unnamed(b)[0] == unnamed_entry(b[0]));
        lemma_unnamed_entry_eq(a[0], b[0]);
        lemma_folder_of_unnamed(a.drop_first(), b.drop_first(), w);
    }
}

/// Renaming a folder keeps every space-order invariant.
pub proof fn lemma_rename_folder_keeps_invariants(s: StateV, id: Seq<char>, name: Seq<char>)
    requires
        space_order_invariants(s),
    ensures
        space_order_invariants(rename_folder_spec(s, id, name).0),
{
    lemma_rename_folder_keeps_sorted(s, id, name);
    if !crate::text::is_blank(name) {
        match folder_index(s.order, id) {
            Some(p) => {
                lemma_folder_index_found_pub(s.order, id);
                let f = crate::state::folder_at(s.order, p);
                let t = rename_folder_spec(s, id, name).0;
                if t != s {
                    let order2 = s.order.update(p, EntryV::Folder(FolderV { name: crate::text::trim_spec(name), ..f }));
                    assert(t.order == order2);
                    assert(unnamed(order2) =~= unnamed(s.order));
                    lemma_flat_unnamed(order2, s.order);
                    lemma_folder_ids_unnamed(order2, s.order);
                    crate::text::lemma_trim_not_blank(name);
                    assert forall|w: Seq<char>| #![trigger folder_of_spec(order2, w)] folder_of_spec(order2, w) == folder_of_spec(s.order, w) by {
                        lemma_folder_of_unnamed(order2, s.order, w);
                    }
                    assert forall|q: int| 0 <= q < order2.len() implies (#[trigger] order2[q] matches EntryV::Folder(g) ==> !crate::text::is_blank(g.name)) by {
                        if q != p {
                            assert(order2[q] == s.order[q]);
                        }
                    }
                    assert forall|i: int, j: int| 0 <= i < t.ws.len() && 0 <= j < t.ws.len() && same_family(#[trigger] t.ws[i], #[trigger] t.ws[j])
                        implies folder_of_spec(t.order, t.ws[i].id@) == folder_of_spec(t.order, t.ws[j].id@) by {
                        assert(folder_of_spec(order2, s.ws[i].id@) == folder_of_spec(s.order, s.ws[i].id@));
                        assert(folder_of_spec(order2, s.ws[j].id@) == folder_of_spec(s.order, s.ws[j].id@));
                    }
                }
            },
            None => {},
        }
    }
}

/// Giving blank folders a name changes nothing but names.
pub(crate) proof fn lemma_named_unnamed(order: Seq<EntryV>)
    ensures
        unnamed(named_order(order)) == unnamed(order),
{
    assert(unnamed(named_order(order)) =~= unnamed(order));
}

/// With an empty order, the workspaces are in canonical order as they stand.
proof fn lemma_empty_order_sorted(s: StateV)
    requires
        s.order.len() == 0,
    ensures
        ws_sorted(s),
{
    let ids = ws_ids(s.ws);
    assert(normalize_prefix(s.order, ids) == NormState { out: Seq::<EntryV>::empty(), seen: Seq::<Seq<char>>::empty(), repairs: crate::folder::no_repairs() });
    lemma_missing_none_seen(ids, Seq::<Seq<char>>::empty());
    lemma_flat_loose(Seq::<EntryV>::empty(), ids);
    assert(Seq::<EntryV>::empty() + loose_entries(ids) =~= loose_entries(ids));
    assert(flat(Seq::<EntryV>::empty()) + ids =~= ids);
}

/// Installing a restored order establishes the workspace order and the
/// folder names outright: the workspaces end in the canonical flattening
/// of the installed order, ids stay unique, and no folder name is blank.
pub proof fn lemma_install_establishes_order_and_names(s: StateV, entries: Seq<EntryV>)
    requires
        state_wf(s),
    ensures
        ws_sorted(install_spec(s, entries)),
        state_wf(install_spec(s, entries)),
        crate::name_laws::names_ok(install_spec(s, entries).order),
{
    crate::name_laws::lemma_install_names_ok(s, entries);
    let next = crate::folder::reserved_next(s.next_id, entries);
    let installed = if entries.len() == 0 {
        StateV { order: entries, next_id: next, ..s }
    } else {
        let n = normalize_spec(entries, ws_ids(s.ws)).0;
        let s1 = StateV { order: crate::state::coalesce_entries_spec(s.ws, n), next_id: next, ..s };
        crate::state::lemma_heal_wf(s1);
        lemma_sync_sorted(crate::state::heal_spec(s1));
        sync_spec(crate::state::heal_spec(s1))
    };
    if entries.len() == 0 {
        lemma_empty_order_sorted(installed);
    }
    lemma_named_unnamed(installed.order);
    lemma_canonical_unnamed(named_order(installed.order), installed.order, ws_ids(installed.ws));
}

/// Rebuilding the order after a reorder ends with the workspaces in the
/// canonical flattening of the rebuilt order, ids unique, and keeps folder
/// names non-blank.
pub proof fn lemma_rebuild_establishes_order(s: StateV)
    requires
        state_wf(s),
    ensures
        ws_sorted(rebuild_spec(s)),
        state_wf(rebuild_spec(s)),
        crate::name_laws::names_ok(s.order) ==> crate::name_laws::names_ok(rebuild_spec(s).order),
{
    if crate::name_laws::names_ok(s.order) {
        crate::name_laws::lemma_rebuild_keeps_names(s);
    }
    if s.order.len() > 0 {
        let s1 = StateV { order: crate::state::rebuilt_order(s.order, ws_ids(s.ws)), ..s };
        crate::state::lemma_normalize_state_wf(s1);
        lemma_sync_sorted(normalize_state_spec(s1));
    } else {
        lemma_empty_order_sorted(s);
    }
}

} // verus!
