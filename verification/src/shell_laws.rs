//! Laws of the client's drag and drop: folders stay at the top level, and
//! settled drop slots sit on strictly increasing rows inside the panel.
use vstd::prelude::*;
use crate::shell::{
    drop_method_spec, drop_slot_spec, naturals, nearest_slot, placed, settle_drop, settle_spec,
    settled, lemma_settled_len, ClientShellSnapshot, ClientShellState, MethodV, SpaceDragSource,
    SpaceDropSlot, SpaceDropTarget,
};

use crate::shell::{family_spec, folder_pos, workspace_pos, kept, not_in_ids, eq_id, first_match, lemma_first_match};
use crate::folder::strs;
use crate::state::without;

verus! {

proof fn lemma_nearest_slot_top_level(slots: Seq<SpaceDropSlot>, y: u16, n: int)
    requires
        n <= slots.len(),
    ensures
        nearest_slot(slots, y, true, n) matches Some(k) ==> 0 <= k < n && slots[k].target.is_top_level_spec(),
    decreases n,
{
    if n > 0 {
        lemma_nearest_slot_top_level(slots, y, n - 1);
    }
}

/// A folder can never be dropped into another folder: every slot a folder
/// drag reaches is a top-level one.
pub proof fn lemma_folder_drags_reach_only_top_level_slots(st: ClientShellState, point: (u16, u16), folder_id: String)
    ensures
        drop_slot_spec(st, point, SpaceDragSource::Folder(folder_id)) matches Some(slot) ==> slot.target.is_top_level_spec(),
{
    if let Some(snap) = st.snapshot {
        let slots = settle_spec(crate::shell::natural_slots(snap, st.hits, st.active_endpoint_id@, true), crate::shell::panel_limit(st.hits));
        lemma_nearest_slot_top_level(slots, point.1, slots.len() as int);
    }
}

/// Dropping a folder only ever moves it among the top-level entries: it
/// resolves to a folder move, and only for a top-level target.
pub proof fn lemma_folder_drops_only_move_folders(snap: ClientShellSnapshot, folder_id: String, target: SpaceDropTarget)
    ensures
        drop_method_spec(snap, SpaceDragSource::Folder(folder_id), target) matches Some(m) ==> {
            &&& target.is_top_level_spec()
            &&& m matches MethodV::Move { folder_id: f, .. } && f == folder_id@
        },
{
}

/// Settled rows never go up, and step down by at least one while they can.
proof fn lemma_settled_steps(nats: Seq<u16>)
    ensures
        forall|k: int| 0 < k < nats.len() ==> {
            &&& settled(nats)[k - 1] <= #[trigger] settled(nats)[k]
            &&& settled(nats)[k - 1] < u16::MAX ==> settled(nats)[k - 1] < settled(nats)[k]
        },
    decreases nats.len(),
{
    lemma_settled_len(nats);
    if nats.len() > 0 {
        let d = nats.drop_last();
        lemma_settled_steps(d);
        lemma_settled_len(d);
        let r = settled(d);
        let s = settled(nats);
        assert forall|k: int| 0 < k < nats.len() implies {
            &&& s[k - 1] <= #[trigger] s[k]
            &&& s[k - 1] < u16::MAX ==> s[k - 1] < s[k]
        } by {
            if k < nats.len() - 1 {
                assert(s[k - 1] == r[k - 1] && s[k] == r[k]);
            } else {
                assert(s[k - 1] == r.last());
            }
        }
    }
}

proof fn lemma_placed_increasing(slots: Seq<(SpaceDropTarget, u16)>, rows: Seq<u16>, limit: u16, n: int)
    requires
        0 <= n <= rows.len(),
        forall|k: int| 0 < k < rows.len() ==> {
            &&& rows[k - 1] <= #[trigger] rows[k]
            &&& rows[k - 1] < u16::MAX ==> rows[k - 1] < rows[k]
        },
    ensures
        forall|i: int| 0 <= i < placed(slots, rows, limit, n).len() ==>
            ((#[trigger] placed(slots, rows, limit, n)[i]).row matches Some(r) && r < limit && r <= rows[n - 1]),
        forall|i: int, j: int| 0 <= i < j < placed(slots, rows, limit, n).len() ==>
            (#[trigger] placed(slots, rows, limit, n)[i]).row->0 < (#[trigger] placed(slots, rows, limit, n)[j]).row->0,
    decreases n,
{
    if n > 0 {
        lemma_placed_increasing(slots, rows, limit, n - 1);
        let prev = placed(slots, rows, limit, n - 1);
        let cur = placed(slots, rows, limit, n);
        if n > 1 {
            assert(rows[n - 2] <= rows[n - 1]);
        }
        assert forall|i: int| 0 <= i < cur.len() implies
            ((#[trigger] cur[i]).row matches Some(r) && r < limit && r <= rows[n - 1]) by {
            if i < prev.len() {
                assert(cur[i] == prev[i]);
            }
        }
        assert forall|i: int, j: int| 0 <= i < j < cur.len() implies (#[trigger] cur[i]).row->0 < (#[trigger] cur[j]).row->0 by {
            assert(cur[i] == prev[i]);
            if j < prev.len() {
                assert(cur[j] == prev[j]);
            } else {
                assert(rows[n - 1] < limit);
                assert(rows[n - 2] < u16::MAX);
            }
        }
    }
}

/// Settled drop slots each sit on a row inside the panel (above `limit`),
/// on strictly increasing rows, so every one of them can be reached.
pub proof fn lemma_settled_slots_strictly_increase(slots: Seq<(SpaceDropTarget, u16)>, limit: u16)
    ensures
        forall|i: int| 0 <= i < settle_spec(slots, limit).len() ==>
            ((#[trigger] settle_spec(slots, limit)[i]).row matches Some(r) && r < limit),
        forall|i: int, j: int| 0 <= i < j < settle_spec(slots, limit).len() ==>
            (#[trigger] settle_spec(slots, limit)[i]).row->0 < (#[trigger] settle_spec(slots, limit)[j]).row->0,
{
    let s = settle_drop(slots, limit);
    let rows = settled(naturals(s));
    lemma_settled_len(naturals(s));
    lemma_settled_steps(naturals(s));
    lemma_placed_increasing(s, rows, limit, s.len() as int);
}

proof fn lemma_kept_is_without(members: Seq<Seq<char>>, family: Seq<Seq<char>>)
    ensures
        kept(members, not_in_ids(family)) == without(members, family),
        without(members, family).len() <= members.len(),
    decreases members.len(),
{
    if members.len() > 0 {
        lemma_kept_is_without(members.drop_last(), family);
        let k = kept(members.drop_last(), not_in_ids(family));
        if !family.contains(members.last()) {
            assert(k.push(members.last()) =~= k + seq![members.last()]);
        } else {
            assert(k + Seq::<Seq<char>>::empty() =~= k);
        }
    }
}

/// Dropping a workspace inside a folder, before member `before`, asks to
/// assign it to that folder at the position `before` holds once the dragged
/// family is taken out of the folder's members; putting the family back
/// there leaves it immediately before `before`.
pub proof fn lemma_in_folder_drop_lands_before(snap: ClientShellSnapshot, wid: String, fid: String, before: String)
    requires
        forall|i: int| 0 <= i < snap.folders@.len() ==> #[trigger] snap.folders@[i].members@.len() <= usize::MAX,
    ensures
        drop_method_spec(snap, SpaceDragSource::Workspace(wid), SpaceDropTarget::InFolderBefore { folder_id: fid, workspace_id: before })
            matches Some(m) ==> ({
            let wi = workspace_pos(snap, wid@)->Some_0;
            let family = family_spec(snap, snap.workspaces@[wi]);
            let fi = folder_pos(snap, fid@)->Some_0;
            let rem = without(strs(snap.folders@[fi].members@), family);
            m matches MethodV::Assign { workspace_id, folder_id: Some(f), position: Some(p) }
                && workspace_id == wid@ && f == fid@
                && p < rem.len() && rem[p as int] == before@
                && (rem.take(p as int) + family + rem.skip(p as int))[p + family.len()] == before@
        }),
{
    if let Some(m) = drop_method_spec(snap, SpaceDragSource::Workspace(wid), SpaceDropTarget::InFolderBefore { folder_id: fid, workspace_id: before }) {
        let wi = workspace_pos(snap, wid@)->Some_0;
        let family = family_spec(snap, snap.workspaces@[wi]);
        let fi = folder_pos(snap, fid@)->Some_0;
        let members = strs(snap.folders@[fi].members@);
        crate::shell::lemma_first_match(snap.folders@, crate::shell::folder_has_id(fid@));
        lemma_kept_is_without(members, family);
        let remaining = kept(members, not_in_ids(family));
        lemma_first_match(remaining, eq_id(before@));
        assert(snap.folders@[fi].members@.len() <= usize::MAX);
        let p = first_match(remaining, eq_id(before@))->Some_0;
        assert(remaining[p] == before@);
        let ins = remaining.take(p) + family + remaining.skip(p);
        assert(ins[p + family.len()] == remaining.skip(p)[0]);
    }
}

proof fn lemma_kept_contains(s: Seq<Seq<char>>, p: spec_fn(Seq<char>) -> bool, x: Seq<char>)
    requires
        s.contains(x),
        p(x),
    ensures
        kept(s, p).contains(x),
    decreases s.len(),
{
    if s.last() == x {
        assert(kept(s, p).last() == x);
    } else {
        let j = choose|j: int| 0 <= j < s.len() && s[j] == x;
        assert(s.drop_last()[j] == x);
        lemma_kept_contains(s.drop_last(), p, x);
        let k = kept(s.drop_last(), p);
        let q = choose|q: int| 0 <= q < k.len() && k[q] == x;
        assert(kept(s, p)[q] == x);
    }
}

/// Dropping a workspace (not a linked worktree) from elsewhere into a
/// folder, before a member outside its family, always asks for an
/// assignment.
pub proof fn lemma_in_folder_drop_from_elsewhere_acts(snap: ClientShellSnapshot, wid: String, fid: String, before: String)
    requires
        workspace_pos(snap, wid@) matches Some(wi)
            && !(snap.workspaces@[wi].worktree matches Some(t) && t.is_linked_worktree)
            && !family_spec(snap, snap.workspaces@[wi]).contains(before@),
        folder_pos(snap, fid@) matches Some(fi) && strs(snap.folders@[fi].members@).contains(before@),
        match crate::shell::folder_of_workspace_pos(snap, wid@) {
            Some(i) => snap.folders@[i].folder_id@ != fid@,
            None => true,
        },
    ensures
        drop_method_spec(snap, SpaceDragSource::Workspace(wid), SpaceDropTarget::InFolderBefore { folder_id: fid, workspace_id: before }) is Some,
{
    let wi = workspace_pos(snap, wid@)->Some_0;
    let family = family_spec(snap, snap.workspaces@[wi]);
    let fi = folder_pos(snap, fid@)->Some_0;
    let members = strs(snap.folders@[fi].members@);
    lemma_kept_contains(members, not_in_ids(family), before@);
    let remaining = kept(members, not_in_ids(family));
    lemma_first_match(remaining, eq_id(before@));
    let q = choose|q: int| 0 <= q < remaining.len() && remaining[q] == before@;
    assert(eq_id(before@)(remaining[q]));
}

} // verus!
