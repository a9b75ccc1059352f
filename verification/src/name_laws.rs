//! Folder names stay non-blank: no folder operation brings in a blank
//! name, and installing a restored order leaves none.
use vstd::prelude::*;
use crate::coalesce::{coalesce_order, lemma_coalesce_order_range};
use crate::folder::{
    filter_members, folder_index, keep_spec, loose_entries, normalize_prefix, normalize_spec, normalize_step,
    EntryV, FolderV, NormState,
};
use crate::state::{
    assign_spec, coalesce_entries_spec, create_folder_spec, delete_folder_spec, entry_fams, folder_at, install_spec,
    move_folder_spec, normalize_entries_spec, normalize_state_spec, remove_block, sync_spec, StateV,
};
use crate::text::is_blank;

verus! {

/// No folder of the order has a blank name.
pub open spec fn names_ok(order: Seq<EntryV>) -> bool {
    forall|p: int| 0 <= p < order.len() ==> (#[trigger] order[p] matches EntryV::Folder(g) ==> !is_blank(g.name))
}

proof fn lemma_names_concat(a: Seq<EntryV>, b: Seq<EntryV>)
    requires
        names_ok(a),
        names_ok(b),
    ensures
        names_ok(a + b),
{
    assert forall|p: int| 0 <= p < (a + b).len() implies (#[trigger] (a + b)[p] matches EntryV::Folder(g) ==> !is_blank(g.name)) by {
        if p < a.len() {
            assert((a + b)[p] == a[p]);
        } else {
            assert((a + b)[p] == b[p - a.len()]);
        }
    }
}

proof fn lemma_names_sub(a: Seq<EntryV>, lo: int, hi: int)
    requires
        names_ok(a),
        0 <= lo <= hi <= a.len(),
    ensures
        names_ok(a.subrange(lo, hi)),
{
    assert forall|p: int| 0 <= p < a.subrange(lo, hi).len() implies (#[trigger] a.subrange(lo, hi)[p] matches EntryV::Folder(g) ==> !is_blank(g.name)) by {
        assert(a.subrange(lo, hi)[p] == a[lo + p]);
    }
}

proof fn lemma_names_loose(ids: Seq<Seq<char>>)
    ensures
        names_ok(loose_entries(ids)),
{
}

pub(crate) proof fn lemma_filter_keeps_out(members: Seq<Seq<char>>, st: NormState, known: Seq<Seq<char>>)
    ensures
        filter_members(members, st, known).1.out == st.out,
    decreases members.len(),
{
    if members.len() > 0 {
        lemma_filter_keeps_out(members.drop_last(), st, known);
    }
}

proof fn lemma_names_normalize_prefix(entries: Seq<EntryV>, known: Seq<Seq<char>>)
    requires
        names_ok(entries),
    ensures
        names_ok(normalize_prefix(entries, known).out),
    decreases entries.len(),
{
    if entries.len() > 0 {
        let d = entries.drop_last();
        assert forall|p: int| 0 <= p < d.len() implies (#[trigger] d[p] matches EntryV::Folder(g) ==> !is_blank(g.name)) by {
            assert(d[p] == entries[p]);
        }
        lemma_names_normalize_prefix(d, known);
        let st = normalize_prefix(d, known);
        let e = entries.last();
        assert(entries[entries.len() - 1] == e);
        let r = normalize_step(st, e, known);
        match e {
            EntryV::Workspace(id) => {
                let (st1, k) = keep_spec(st, known, id);
                assert(st1.out == st.out);
                if k {
                    assert forall|p: int| 0 <= p < r.out.len() implies (#[trigger] r.out[p] matches EntryV::Folder(g) ==> !is_blank(g.name)) by {
                        if p < st.out.len() {
                            assert(r.out[p] == st.out[p]);
                        }
                    }
                }
            },
            EntryV::Folder(f) => {
                lemma_filter_keeps_out(f.members, st, known);
                let (kept, st1) = filter_members(f.members, st, known);
                match folder_index(st1.out, f.id) {
                    Some(q) => {
                        crate::folder_laws::lemma_folder_index_found_pub(st1.out, f.id);
                        assert(r.out == st.out.update(q, match st.out[q] {
                            EntryV::Folder(g) => EntryV::Folder(FolderV { members: g.members + kept, ..g }),
                            EntryV::Workspace(w) => EntryV::Workspace(w),
                        }));
                        assert forall|p: int| 0 <= p < r.out.len() implies (#[trigger] r.out[p] matches EntryV::Folder(g) ==> !is_blank(g.name)) by {
                            if p != q {
                                assert(r.out[p] == st.out[p]);
                            } else {
                                assert(st.out[q] == st1.out[q]);
                            }
                        }
                    },
                    None => {
                        assert forall|p: int| 0 <= p < r.out.len() implies (#[trigger] r.out[p] matches EntryV::Folder(g) ==> !is_blank(g.name)) by {
                            if p < st.out.len() {
                                assert(r.out[p] == st.out[p]);
                            }
                        }
                    },
                }
            },
        }
    }
}

proof fn lemma_names_coalesce(ws: Seq<crate::state::Workspace>, entries: Seq<EntryV>)
    requires
        names_ok(entries),
    ensures
        names_ok(coalesce_entries_spec(ws, entries)),
{
    let fams = entry_fams(ws, entries);
    assert(fams.len() == entries.len());
    lemma_coalesce_order_range(fams, fams.len() as int);
    let ord = coalesce_order(fams, fams.len() as int);
    let c = coalesce_entries_spec(ws, entries);
    assert forall|p: int| 0 <= p < c.len() implies (#[trigger] c[p] matches EntryV::Folder(g) ==> !is_blank(g.name)) by {
        let i = ord[p];
        assert(0 <= i < entries.len());
        assert(crate::coalesce::coalesce_seq(entries, fams)[p] == entries[i]);
    }
}

pub(crate) proof fn lemma_names_normalize_state(s: StateV)
    requires
        names_ok(s.order),
    ensures
        names_ok(normalize_state_spec(s).order),
{
    let ids = crate::state::ws_ids(s.ws);
    lemma_names_normalize_prefix(s.order, ids);
    let st = normalize_prefix(s.order, ids);
    lemma_names_concat(st.out, loose_entries(crate::folder::missing_ids(ids, st.seen)));
    lemma_names_coalesce(s.ws, normalize_spec(s.order, ids).0);
}

/// Creating a folder keeps folder names non-blank.
pub proof fn lemma_create_folder_keeps_names(s: StateV, name: Seq<char>)
    requires
        names_ok(s.order),
    ensures
        names_ok(create_folder_spec(s, name).0.order),
{
    if !is_blank(name) {
        lemma_names_normalize_state(s);
        crate::text::lemma_trim_not_blank(name);
        let o = normalize_state_spec(s).order;
        let t = create_folder_spec(s, name).0.order;
        assert forall|p: int| 0 <= p < t.len() implies (#[trigger] t[p] matches EntryV::Folder(g) ==> !is_blank(g.name)) by {
            if p < o.len() {
                assert(t[p] == o[p]);
            }
        }
    }
}

/// Deleting a folder keeps folder names non-blank.
pub proof fn lemma_delete_folder_keeps_names(s: StateV, id: Seq<char>)
    requires
        names_ok(s.order),
    ensures
        names_ok(delete_folder_spec(s, id).0.order),
{
    if folder_index(s.order, id) is Some {
        lemma_names_normalize_state(s);
        let s1 = normalize_state_spec(s);
        match folder_index(s1.order, id) {
            Some(p) => {
                crate::folder_laws::lemma_folder_index_found_pub(s1.order, id);
                let released = folder_at(s1.order, p).members;
                lemma_names_sub(s1.order, 0, p);
                lemma_names_sub(s1.order, p + 1, s1.order.len() as int);
                lemma_names_concat(s1.order.take(p), loose_entries(released));
                lemma_names_concat(s1.order.take(p) + loose_entries(released), s1.order.skip(p + 1));
            },
            None => {},
        }
    }
}

/// Moving a folder keeps folder names non-blank.
pub proof fn lemma_move_folder_keeps_names(s: StateV, id: Seq<char>, position: usize)
    requires
        names_ok(s.order),
    ensures
        names_ok(move_folder_spec(s, id, position).0.order),
{
    if folder_index(s.order, id) is Some {
        lemma_names_normalize_state(s);
        let s1 = normalize_state_spec(s);
        match folder_index(s1.order, id) {
            Some(p) => {
                crate::folder_laws::lemma_folder_index_found_pub(s1.order, id);
                let e = s1.order[p];
                let rest = s1.order.remove(p);
                let target = if position < rest.len() { position } else { rest.len() as usize };
                let order2 = rest.insert(target as int, e);
                assert forall|q: int| 0 <= q < rest.len() implies (#[trigger] rest[q] matches EntryV::Folder(g) ==> !is_blank(g.name)) by {
                    if q < p {
                        assert(rest[q] == s1.order[q]);
                    } else {
                        assert(rest[q] == s1.order[q + 1]);
                    }
                }
                rest.insert_ensures(target as int, e);
                assert forall|q: int| 0 <= q < order2.len() implies (#[trigger] order2[q] matches EntryV::Folder(g) ==> !is_blank(g.name)) by {
                    if q < target {
                        assert(order2[q] == rest[q]);
                    } else if q > target {
                        assert(order2[q] == rest[q - 1]);
                    }
                }
            },
            None => {},
        }
    }
}

pub(crate) proof fn lemma_names_remove_block(order: Seq<EntryV>, aff: Seq<Seq<char>>)
    requires
        names_ok(order),
    ensures
        names_ok(remove_block(order, aff)),
    decreases order.len(),
{
    if order.len() > 0 {
        let d = order.drop_last();
        assert forall|p: int| 0 <= p < d.len() implies (#[trigger] d[p] matches EntryV::Folder(g) ==> !is_blank(g.name)) by {
            assert(d[p] == order[p]);
        }
        lemma_names_remove_block(d, aff);
        assert(order[order.len() - 1] == order.last());
        let tail = match order.last() {
            EntryV::Folder(f) => seq![EntryV::Folder(FolderV { members: crate::state::without(f.members, aff), ..f })],
            EntryV::Workspace(id) => if aff.contains(id) { seq![] } else { seq![EntryV::Workspace(id)] },
        };
        lemma_names_concat(remove_block(d, aff), tail);
    }
}

/// Assigning a workspace keeps folder names non-blank.
pub proof fn lemma_assign_keeps_names(s: StateV, wid: Seq<char>, fid: Option<Seq<char>>, position: Option<usize>)
    requires
        names_ok(s.order),
    ensures
        names_ok(assign_spec(s, wid, fid, position).0.order),
{
    lemma_names_normalize_state(s);
    let s1 = normalize_state_spec(s);
    let key = crate::state::family_key_of(s.ws, wid);
    let affected = match key {
        Some(k) => crate::state::family_ids(s1.ws, crate::state::canonical_of(s1), k),
        None => seq![wid],
    };
    lemma_names_remove_block(s1.order, affected);
    let order2 = remove_block(s1.order, affected);
    match fid {
        Some(f) => match folder_index(order2, f) {
            Some(p) => {
                crate::folder_laws::lemma_folder_index_found_pub(order2, f);
                let g = folder_at(order2, p);
                let idx = crate::state::clamp_position(position, g.members.len());
                let members = g.members.take(idx) + affected + g.members.skip(idx);
                let order3 = order2.update(p, EntryV::Folder(FolderV { members, ..g }));
                assert forall|q: int| 0 <= q < order3.len() implies (#[trigger] order3[q] matches EntryV::Folder(h) ==> !is_blank(h.name)) by {
                    if q != p {
                        assert(order3[q] == order2[q]);
                    } else {
                        assert(order2[p] == EntryV::Folder(g));
                    }
                }
            },
            None => {},
        },
        None => {
            let idx = crate::state::clamp_position(position, order2.len());
            lemma_names_sub(order2, 0, idx as int);
            lemma_names_sub(order2, idx as int, order2.len() as int);
            lemma_names_concat(order2.take(idx as int), loose_entries(affected));
            lemma_names_concat(order2.take(idx as int) + loose_entries(affected), order2.skip(idx as int));
        },
    }
}

/// Installing a restored order leaves no folder with a blank name,
/// whatever the restored names were.
pub proof fn lemma_install_names_ok(s: StateV, entries: Seq<EntryV>)
    ensures
        names_ok(install_spec(s, entries).order),
{
    crate::state::lemma_installed_names_not_blank(s, entries);
}

/// No folder of the list has a blank name.
pub open spec fn folder_names_ok(fs: Seq<FolderV>) -> bool {
    forall|q: int| 0 <= q < fs.len() ==> !is_blank(#[trigger] fs[q].name)
}

proof fn lemma_first_folders_names(order: Seq<EntryV>)
    requires
        names_ok(order),
    ensures
        folder_names_ok(crate::state::first_folders(order)),
    decreases order.len(),
{
    if order.len() > 0 {
        let d = order.drop_last();
        assert forall|p: int| 0 <= p < d.len() implies (#[trigger] d[p] matches EntryV::Folder(g) ==> !is_blank(g.name)) by {
            assert(d[p] == order[p]);
        }
        lemma_first_folders_names(d);
        assert(order[order.len() - 1] == order.last());
        let prev = crate::state::first_folders(d);
        let cur = crate::state::first_folders(order);
        assert forall|q: int| 0 <= q < cur.len() implies !is_blank(#[trigger] cur[q].name) by {
            if q < prev.len() {
                assert(cur[q] == prev[q]);
            }
        }
    }
}

proof fn lemma_rebuild_walk_names(ids: Seq<Seq<char>>, order: Seq<EntryV>, filled: Seq<FolderV>)
    requires
        folder_names_ok(filled),
        filled.len() == crate::state::first_folders(order).len(),
    ensures
        names_ok(crate::state::rebuild_walk(ids, order, filled).0),
    decreases ids.len(),
{
    if ids.len() > 0 {
        lemma_rebuild_walk_names(ids.drop_last(), order, filled);
        let (out, em) = crate::state::rebuild_walk(ids.drop_last(), order, filled);
        let id = ids.last();
        match crate::state::member_folder_id(order, id) {
            Some(x) => crate::state::lemma_first_pos(crate::state::fids(crate::state::first_folders(order)), x),
            None => {},
        }
        let r = crate::state::rebuild_walk(ids, order, filled).0;
        assert forall|p: int| 0 <= p < r.len() implies (#[trigger] r[p] matches EntryV::Folder(g) ==> !is_blank(g.name)) by {
            if p < out.len() {
                assert(r[p] == out[p]);
            }
        }
    }
}

proof fn lemma_leftover_names(filled: Seq<FolderV>, em: Seq<int>, n: int)
    requires
        folder_names_ok(filled),
        n <= filled.len(),
    ensures
        names_ok(crate::state::leftover_folders(filled, em, n)),
    decreases n,
{
    if n > 0 {
        lemma_leftover_names(filled, em, n - 1);
        let prev = crate::state::leftover_folders(filled, em, n - 1);
        let tail = if em.contains(n - 1) { Seq::<EntryV>::empty() } else { seq![EntryV::Folder(filled[n - 1])] };
        lemma_names_concat(prev, tail);
    }
}

/// Rebuilding the order after a reorder keeps folder names non-blank.
pub proof fn lemma_rebuild_keeps_names(s: StateV)
    requires
        names_ok(s.order),
    ensures
        names_ok(crate::state::rebuild_spec(s).order),
{
    if s.order.len() > 0 {
        let ids = crate::state::ws_ids(s.ws);
        let ff = crate::state::first_folders(s.order);
        lemma_first_folders_names(s.order);
        let filled = crate::state::filled_folders(s.order, ids);
        assert forall|q: int| 0 <= q < filled.len() implies !is_blank(#[trigger] filled[q].name) by {
            assert(filled[q].name == ff[q].name);
        }
        lemma_rebuild_walk_names(ids, s.order, filled);
        let (out, em) = crate::state::rebuild_walk(ids, s.order, filled);
        lemma_leftover_names(filled, em, filled.len() as int);
        lemma_names_concat(out, crate::state::leftover_folders(filled, em, filled.len() as int));
        let s1 = StateV { order: crate::state::rebuilt_order(s.order, ids), ..s };
        lemma_names_normalize_state(s1);
    }
}

} // verus!
