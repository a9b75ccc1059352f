//! Resolving a finished sidebar drag into folder API parameters.
use vstd::prelude::*;
use crate::folder::{
    entries_view, folder_index, ids_view, loose_entries, normalize_spec, normalized_space_order, strs, EntryV,
    FolderV, SpaceOrderEntry, Folder,
};
use crate::schema::{FolderAssignParams, FolderMoveParams};
use crate::state::{
    clamp_position, entries_equal, folder_at, insert_loose, remove_block, remove_block_exec, splice_strings,
    workspace_id_strs, ws_ids, AppState, StateV, Workspace,
};
use crate::folder::{contains_string, find_folder};
use crate::text::str_eq;

verus! {

/// Where a drag over the spaces panel would land.
#[derive(Debug, Clone, PartialEq, Eq)]
pub enum WorkspaceDropTarget {
    /// Before the top-level block of the workspace at this index.
    Before(usize),
    /// Before the folder with this id.
    BeforeFolder(String),
    /// After the last top-level entry.
    End,
    /// Inside a folder, before the block of the workspace at `ws_idx`.
    InFolderBefore { folder_id: String, ws_idx: usize },
    /// At the end of a folder's members.
    InFolderEnd { folder_id: String },
    /// Onto a folder's header row: appended to the folder.
    IntoFolder(String),
}

/// The ids of the workspaces of family `key`, in workspace order.
pub open spec fn key_ids(ws: Seq<Workspace>, key: Seq<char>) -> Seq<Seq<char>>
    decreases ws.len(),
{
    if ws.len() == 0 {
        seq![]
    } else {
        key_ids(ws.drop_last(), key) + match ws.last().worktree_space {
            Some(sp) => if sp.key@ == key { seq![ws.last().id@] } else { seq![] },
            None => seq![],
        }
    }
}

/// The workspace ids forming the block anchored at `idx`: the whole worktree
/// family when the workspace has one, else just itself.
pub open spec fn block_ids_spec(ws: Seq<Workspace>, idx: int) -> Option<Seq<Seq<char>>> {
    if 0 <= idx < ws.len() {
        match ws[idx].worktree_space {
            Some(sp) => Some(key_ids(ws, sp.key@)),
            None => Some(seq![ws[idx].id@]),
        }
    } else {
        None
    }
}

/// The index of the first top-level loose entry belonging to `block`.
pub open spec fn block_start(entries: Seq<EntryV>, block: Seq<Seq<char>>) -> Option<int>
    decreases entries.len(),
{
    if entries.len() == 0 {
        None
    } else {
        match block_start(entries.drop_last(), block) {
            Some(i) => Some(i),
            None => match entries.last() {
                EntryV::Workspace(id) => if block.contains(id) { Some(entries.len() - 1) } else { None },
                EntryV::Folder(_) => None,
            },
        }
    }
}

/// The number of top-level entries before `anchor` that survive removing
/// the ids of `affected`.
pub open spec fn surviving_before(entries: Seq<EntryV>, affected: Seq<Seq<char>>, anchor: int) -> nat
    decreases anchor,
{
    if anchor <= 0 {
        0
    } else {
        surviving_before(entries, affected, anchor - 1) + match entries[anchor - 1] {
            EntryV::Workspace(id) => if affected.contains(id) { 0nat } else { 1nat },
            EntryV::Folder(_) => 1nat,
        }
    }
}

/// The number of ids among the first `anchor` of `members` that are not affected.
pub open spec fn surviving_members(members: Seq<Seq<char>>, affected: Seq<Seq<char>>, anchor: int) -> nat
    decreases anchor,
{
    if anchor <= 0 {
        0
    } else {
        surviving_members(members, affected, anchor - 1) + if affected.contains(members[anchor - 1]) { 0nat } else { 1nat }
    }
}

/// The position of the first member belonging to `block`.
pub open spec fn first_in_block(members: Seq<Seq<char>>, block: Seq<Seq<char>>) -> Option<int>
    decreases members.len(),
{
    if members.len() == 0 {
        None
    } else {
        match first_in_block(members.drop_last(), block) {
            Some(i) => Some(i),
            None => if block.contains(members.last()) { Some(members.len() - 1) } else { None },
        }
    }
}

/// The target container and position a drop addresses, before checking
/// whether it changes anything.
pub open spec fn drop_destination(ws: Seq<Workspace>, entries: Seq<EntryV>, affected: Seq<Seq<char>>, target: WorkspaceDropTarget)
    -> Option<(Option<Seq<char>>, Option<usize>)>
{
    match target {
        WorkspaceDropTarget::Before(a) => match block_ids_spec(ws, a as int) {
            Some(b) => match block_start(entries, b) {
                Some(anchor) => Some((None, Some(surviving_before(entries, affected, anchor) as usize))),
                None => None,
            },
            None => None,
        },
        WorkspaceDropTarget::BeforeFolder(f) => match folder_index(entries, f@) {
            Some(anchor) => Some((None, Some(surviving_before(entries, affected, anchor) as usize))),
            None => None,
        },
        WorkspaceDropTarget::End => Some((None, Some(surviving_before(entries, affected, entries.len() as int) as usize))),
        WorkspaceDropTarget::InFolderBefore { folder_id, ws_idx } => match folder_index(entries, folder_id@) {
            Some(p) => match block_ids_spec(ws, ws_idx as int) {
                Some(b) => match first_in_block(folder_at(entries, p).members, b) {
                    Some(anchor) => Some((Some(folder_id@), Some(surviving_members(folder_at(entries, p).members, affected, anchor) as usize))),
                    None => None,
                },
                None => None,
            },
            None => None,
        },
        WorkspaceDropTarget::InFolderEnd { folder_id } => Some((Some(folder_id@), None)),
        WorkspaceDropTarget::IntoFolder(f) => Some((Some(f@), None)),
    }
}

/// The order that assigning `affected` to `dest` would produce from
/// `entries`, or `None` when the target folder is missing.
pub open spec fn simulate_assign(entries: Seq<EntryV>, affected: Seq<Seq<char>>, dest: (Option<Seq<char>>, Option<usize>)) -> Option<Seq<EntryV>> {
    let order2 = remove_block(entries, affected);
    match dest.0 {
        Some(f) => match folder_index(order2, f) {
            Some(p) => {
                let g = folder_at(order2, p);
                let idx = clamp_position(dest.1, g.members.len());
                Some(order2.update(p, EntryV::Folder(FolderV { members: g.members.take(idx) + affected + g.members.skip(idx), ..g })))
            },
            None => None,
        },
        None => {
            let idx = clamp_position(dest.1, order2.len());
            Some(order2.take(idx) + loose_entries(affected) + order2.skip(idx))
        },
    }
}

/// The `folder.assign` parameters a finished space drag resolves to:
/// membership and position in one gesture, or `None` when the drop changes
/// nothing or addresses nothing.
pub open spec fn drop_assign_spec(s: StateV, source: int, target: WorkspaceDropTarget) -> Option<(Seq<char>, Option<Seq<char>>, Option<usize>)> {
    match block_ids_spec(s.ws, source) {
        None => None,
        Some(affected) => {
            let entries = normalize_spec(s.order, ws_ids(s.ws)).0;
            match drop_destination(s.ws, entries, affected, target) {
                None => None,
                Some(dest) => match simulate_assign(entries, affected, dest) {
                    None => None,
                    Some(fin) => if fin == entries { None } else { Some((s.ws[source].id@, dest.0, dest.1)) },
                },
            }
        },
    }
}

/// A folder's final index when dropped before `anchor`: anchors past its
/// current slot shift down by one once it is taken out.
pub open spec fn final_index_before(anchor: int, current: int) -> int {
    if anchor > current { anchor - 1 } else { anchor }
}

/// The `folder.move` position a finished folder drag resolves to, or `None`
/// for no-op drops and for targets inside folders.
pub open spec fn drop_move_spec(s: StateV, folder_id: Seq<char>, target: WorkspaceDropTarget) -> Option<usize> {
    let entries = normalize_spec(s.order, ws_ids(s.ws)).0;
    match folder_index(entries, folder_id) {
        None => None,
        Some(current) => {
            let position: Option<int> = match target {
                WorkspaceDropTarget::Before(a) => match block_ids_spec(s.ws, a as int) {
                    Some(b) => match block_start(entries, b) {
                        Some(anchor) => Some(final_index_before(anchor, current)),
                        None => None,
                    },
                    None => None,
                },
                WorkspaceDropTarget::BeforeFolder(o) => if o@ == folder_id {
                    None
                } else {
                    match folder_index(entries, o@) {
                        Some(anchor) => Some(final_index_before(anchor, current)),
                        None => None,
                    }
                },
                WorkspaceDropTarget::End => Some(if entries.len() > 0 { entries.len() - 1 } else { 0 }),
                _ => None,
            };
            match position {
                Some(p) => if p == current { None } else { Some(p as usize) },
                None => None,
            }
        },
    }
}

fn key_ids_exec(ws: &Vec<Workspace>, key: &String) -> (r: Vec<String>)
    ensures
        strs(r@) == key_ids(ws@, key@),
{
    let mut r: Vec<String> = Vec::new();
    let mut i: usize = 0;
    assert(ws@.take(0) =~= Seq::<Workspace>::empty());
    assert(strs(r@) =~= Seq::<Seq<char>>::empty());
    while i < ws.len()
        invariant
            i <= ws@.len(),
            strs(r@) == key_ids(ws@.take(i as int), key@),
        decreases ws.len() - i,
    {
        assert(ws@.take(i + 1).drop_last() =~= ws@.take(i as int));
        assert(ws@.take(i + 1).last() == ws@[i as int]);
        let ghost before = strs(r@);
        match &ws[i].worktree_space {
            Some(sp) => {
                if str_eq(sp.key.as_str(), key.as_str()) {
                    r.push(ws[i].id.clone());
                    assert(strs(r@) =~= before + seq![ws@[i as int].id@]);
                } else {
                    assert(before + Seq::<Seq<char>>::empty() =~= before);
                }
            },
            None => {
                assert(before + Seq::<Seq<char>>::empty() =~= before);
            },
        }
        i = i + 1;
    }
    assert(ws@.take(ws@.len() as int) =~= ws@);
    r
}

fn block_start_exec(entries: &Vec<SpaceOrderEntry>, block: &Vec<String>) -> (r: Option<usize>)
    ensures
        match block_start(entries_view(entries@), strs(block@)) {
            Some(i) => r == Some(i as usize) && 0 <= i < entries@.len(),
            None => r is None,
        },
        r matches Some(k) ==> k < entries@.len() && block_start(entries_view(entries@), strs(block@)) == Some(k as int),
{
    let ghost v = entries_view(entries@);
    let mut i: usize = 0;
    assert(v.take(0) =~= Seq::<EntryV>::empty());
    while i < entries.len()
        invariant
            i <= entries@.len(),
            v == entries_view(entries@),
            block_start(v.take(i as int), strs(block@)) is None,
        decreases entries.len() - i,
    {
        assert(v.take(i + 1).drop_last() =~= v.take(i as int));
        assert(v.take(i + 1).last() == entries@[i as int]@);
        match &entries[i] {
            SpaceOrderEntry::Workspace(id) => {
                if contains_string(block, id.as_str()) {
                    proof { lemma_block_start_prefix(v, i + 1, strs(block@)); }
                    return Some(i);
                }
            },
            SpaceOrderEntry::Folder(_) => {},
        }
        i = i + 1;
    }
    assert(v.take(entries@.len() as int) =~= v);
    None
}

proof fn lemma_block_start_prefix(s: Seq<EntryV>, k: int, b: Seq<Seq<char>>)
    requires
        0 <= k <= s.len(),
        block_start(s.take(k), b) is Some,
    ensures
        block_start(s, b) == block_start(s.take(k), b),
        block_start(s, b) matches Some(i) ==> 0 <= i < k,
    decreases s.len(),
{
    if k == s.len() {
        assert(s.take(k) =~= s);
        lemma_block_start_range(s, b);
    } else {
        assert(s.drop_last().take(k) =~= s.take(k));
        lemma_block_start_prefix(s.drop_last(), k, b);
    }
}

proof fn lemma_block_start_range(s: Seq<EntryV>, b: Seq<Seq<char>>)
    ensures
        block_start(s, b) matches Some(i) ==> 0 <= i < s.len(),
    decreases s.len(),
{
    if s.len() > 0 {
        lemma_block_start_range(s.drop_last(), b);
    }
}

proof fn lemma_first_in_block_prefix(s: Seq<Seq<char>>, k: int, b: Seq<Seq<char>>)
    requires
        0 <= k <= s.len(),
        first_in_block(s.take(k), b) is Some,
    ensures
        first_in_block(s, b) == first_in_block(s.take(k), b),
    decreases s.len(),
{
    if k == s.len() {
        assert(s.take(k) =~= s);
    } else {
        assert(s.drop_last().take(k) =~= s.take(k));
        lemma_first_in_block_prefix(s.drop_last(), k, b);
    }
}

fn first_in_block_exec(members: &Vec<String>, block: &Vec<String>) -> (r: Option<usize>)
    ensures
        match first_in_block(strs(members@), strs(block@)) {
            Some(i) => r == Some(i as usize) && 0 <= i < members@.len(),
            None => r is None,
        },
{
    let ghost v = strs(members@);
    let mut i: usize = 0;
    assert(v.take(0) =~= Seq::<Seq<char>>::empty());
    while i < members.len()
        invariant
            i <= members@.len(),
            v == strs(members@),
            first_in_block(v.take(i as int), strs(block@)) is None,
        decreases members.len() - i,
    {
        assert(v.take(i + 1).drop_last() =~= v.take(i as int));
        assert(v.take(i + 1).last() == members@[i as int]@);
        if contains_string(block, members[i].as_str()) {
            assert(first_in_block(v.take(i + 1), strs(block@)) == Some(i as int));
            proof { lemma_first_in_block_prefix(v, i + 1, strs(block@)); }
            return Some(i);
        }
        i = i + 1;
    }
    assert(v.take(members@.len() as int) =~= v);
    None
}

fn surviving_before_exec(entries: &Vec<SpaceOrderEntry>, affected: &Vec<String>, anchor: usize) -> (r: usize)
    requires
        anchor <= entries@.len(),
    ensures
        r == surviving_before(entries_view(entries@), strs(affected@), anchor as int),
{
    let mut count: usize = 0;
    let mut i: usize = 0;
    while i < anchor
        invariant
            i <= anchor <= entries@.len(),
            count == surviving_before(entries_view(entries@), strs(affected@), i as int),
            count <= i,
        decreases anchor - i,
    {
        assert(entries_view(entries@)[i as int] == entries@[i as int]@);
        match &entries[i] {
            SpaceOrderEntry::Workspace(id) => {
                if !contains_string(affected, id.as_str()) {
                    count = count + 1;
                }
            },
            SpaceOrderEntry::Folder(_) => {
                count = count + 1;
            },
        }
        i = i + 1;
    }
    count
}

fn surviving_members_exec(members: &Vec<String>, affected: &Vec<String>, anchor: usize) -> (r: usize)
    requires
        anchor <= members@.len(),
    ensures
        r == surviving_members(strs(members@), strs(affected@), anchor as int),
{
    let mut count: usize = 0;
    let mut i: usize = 0;
    while i < anchor
        invariant
            i <= anchor <= members@.len(),
            count == surviving_members(strs(members@), strs(affected@), i as int),
            count <= i,
        decreases anchor - i,
    {
        assert(strs(members@)[i as int] == members@[i as int]@);
        if !contains_string(affected, members[i].as_str()) {
            count = count + 1;
        }
        i = i + 1;
    }
    count
}

/// Apply an assignment of `affected` to a destination to a copy of an
/// order; `None` when the target folder is missing.
fn simulate_assign_exec(entries: &Vec<SpaceOrderEntry>, affected: &Vec<String>, folder_id: &Option<String>, position: Option<usize>)
    -> (r: Option<Vec<SpaceOrderEntry>>)
    ensures
        ({
            let fid = match folder_id { Some(f) => Some(f@), None => None };
            match simulate_assign(entries_view(entries@), strs(affected@), (fid, position)) {
                Some(fin) => r matches Some(v) && entries_view(v@) == fin,
                None => r is None,
            }
        }),
{
    let mut fin = remove_block_exec(entries, affected);
    let ghost order2 = entries_view(fin@);
    match folder_id {
        Some(fid) => {
            let p = match find_folder(&fin, fid.as_str()) {
                Some(p) => p,
                None => return None,
            };
            proof { crate::folder_laws::lemma_folder_index_found_pub(order2, fid@); }
            let updated = match &fin[p] {
                SpaceOrderEntry::Folder(folder) => {
                    let len = folder.members.len();
                    let index = match position {
                        Some(q) => if q < len { q } else { len },
                        None => len,
                    };
                    let members = splice_strings(&folder.members, index, affected);
                    SpaceOrderEntry::Folder(Folder { id: folder.id.clone(), name: folder.name.clone(), members })
                },
                SpaceOrderEntry::Workspace(w) => SpaceOrderEntry::Workspace(w.clone()),
            };
            fin.set(p, updated);
            assert(entries_view(fin@) =~= order2.update(p as int, updated@));
            Some(fin)
        },
        None => {
            let len = fin.len();
            let index = match position {
                Some(q) => if q < len { q } else { len },
                None => len,
            };
            insert_loose(&mut fin, index, affected);
            Some(fin)
        },
    }
}

impl AppState {
    /// The workspace ids forming the block anchored at `ws_idx`, in workspace
    /// vec order: the whole worktree family when the workspace belongs to
    /// one, else just itself.
    pub fn block_workspace_ids(&self, ws_idx: usize) -> (r: Option<Vec<String>>)
        ensures
            match block_ids_spec(self@.ws, ws_idx as int) {
                Some(b) => r matches Some(v) && strs(v@) == b,
                None => r is None,
            },
    {
        if ws_idx >= self.workspaces.len() {
            return None;
        }
        match &self.workspaces[ws_idx].worktree_space {
            Some(space) => Some(key_ids_exec(&self.workspaces, &space.key)),
            None => {
                let mut v: Vec<String> = Vec::new();
                v.push(self.workspaces[ws_idx].id.clone());
                assert(strs(v@) =~= seq![self@.ws[ws_idx as int].id@]);
                Some(v)
            },
        }
    }

    /// The index in the top-level order of the first entry belonging to the
    /// block anchored at `anchor_ws_idx`.
    pub fn top_level_block_start_index(&self, entries: &Vec<SpaceOrderEntry>, anchor_ws_idx: usize) -> (r: Option<usize>)
        ensures
            match block_ids_spec(self@.ws, anchor_ws_idx as int) {
                Some(b) => match block_start(entries_view(entries@), b) {
                    Some(i) => r == Some(i as usize) && 0 <= i < entries@.len(),
                    None => r is None,
                },
                None => r is None,
            },
            r matches Some(k) ==> k < entries@.len() && block_ids_spec(self@.ws, anchor_ws_idx as int) is Some
                && block_start(entries_view(entries@), block_ids_spec(self@.ws, anchor_ws_idx as int)->Some_0) == Some(k as int),
    {
        let block = match self.block_workspace_ids(anchor_ws_idx) {
            Some(b) => b,
            None => return None,
        };
        block_start_exec(entries, &block)
    }

    /// Resolve a finished space drag into positional `folder.assign` params:
    /// membership and position in one gesture. Returns `None` when the drop
    /// changes nothing.
    pub fn workspace_drop_assign_params(&self, source_ws_idx: usize, drop_target: &WorkspaceDropTarget) -> (r: Option<FolderAssignParams>)
        ensures
            match drop_assign_spec(self@, source_ws_idx as int, *drop_target) {
                Some((w, f, p)) => r matches Some(params) && params.workspace_id@ == w
                    && params.position == p
                    && match (params.folder_id, f) {
                        (Some(a), Some(b)) => a@ == b,
                        (None, None) => true,
                        _ => false,
                    },
                None => r is None,
            },
    {
        let affected = match self.block_workspace_ids(source_ws_idx) {
            Some(a) => a,
            None => return None,
        };
        let ids = workspace_id_strs(&self.workspaces);
        let entries = normalized_space_order(self.space_order.as_slice(), ids.as_slice());
        let ghost ev = entries_view(entries@);
        let (folder_id, position): (Option<String>, Option<usize>) = match drop_target {
            WorkspaceDropTarget::Before(anchor_ws_idx) => {
                let anchor_idx = match self.top_level_block_start_index(&entries, *anchor_ws_idx) {
                    Some(i) => i,
                    None => return None,
                };
                (None, Some(surviving_before_exec(&entries, &affected, anchor_idx)))
            },
            WorkspaceDropTarget::BeforeFolder(folder_id) => {
                let anchor_idx = match find_folder(&entries, folder_id.as_str()) {
                    Some(i) => i,
                    None => return None,
                };
                (None, Some(surviving_before_exec(&entries, &affected, anchor_idx)))
            },
            WorkspaceDropTarget::End => (None, Some(surviving_before_exec(&entries, &affected, entries.len()))),
            WorkspaceDropTarget::InFolderBefore { folder_id, ws_idx } => {
                let p = match find_folder(&entries, folder_id.as_str()) {
                    Some(p) => p,
                    None => return None,
                };
                proof { crate::folder_laws::lemma_folder_index_found_pub(ev, folder_id@); }
                let members = match &entries[p] {
                    SpaceOrderEntry::Folder(folder) => &folder.members,
                    SpaceOrderEntry::Workspace(_) => return None,
                };
                let anchor_block = match self.block_workspace_ids(*ws_idx) {
                    Some(b) => b,
                    None => return None,
                };
                let anchor_pos = match first_in_block_exec(members, &anchor_block) {
                    Some(i) => i,
                    None => return None,
                };
                (Some(folder_id.clone()), Some(surviving_members_exec(members, &affected, anchor_pos)))
            },
            WorkspaceDropTarget::InFolderEnd { folder_id } => (Some(folder_id.clone()), None),
            WorkspaceDropTarget::IntoFolder(folder_id) => (Some(folder_id.clone()), None),
        };
        let final_entries = match simulate_assign_exec(&entries, &affected, &folder_id, position) {
            Some(v) => v,
            None => return None,
        };
        if entries_equal(&final_entries, &entries) {
            return None;
        }
        Some(FolderAssignParams { workspace_id: self.workspaces[source_ws_idx].id.clone(), folder_id, position })
    }

    /// Resolve a finished folder drag into `folder.move` params. Returns
    /// `None` for no-op drops (including dropping a folder before itself)
    /// and for targets that are not top-level.
    pub fn folder_drop_move_params(&self, folder_id: &str, drop_target: &WorkspaceDropTarget) -> (r: Option<FolderMoveParams>)
        ensures
            match drop_move_spec(self@, folder_id@, *drop_target) {
                Some(p) => r matches Some(params) && params.folder_id@ == folder_id@ && params.position == p,
                None => r is None,
            },
    {
        let ids = workspace_id_strs(&self.workspaces);
        let entries = normalized_space_order(self.space_order.as_slice(), ids.as_slice());
        let current = match find_folder(&entries, folder_id) {
            Some(c) => c,
            None => return None,
        };
        let position: usize = match drop_target {
            WorkspaceDropTarget::Before(anchor_ws_idx) => {
                let anchor_idx = match self.top_level_block_start_index(&entries, *anchor_ws_idx) {
                    Some(i) => i,
                    None => return None,
                };
                assert(block_start(entries_view(entries@), block_ids_spec(self@.ws, *anchor_ws_idx as int)->Some_0) == Some(anchor_idx as int));
                if anchor_idx > current { anchor_idx - 1 } else { anchor_idx }
            },
            WorkspaceDropTarget::BeforeFolder(other_folder_id) => {
                if str_eq(other_folder_id.as_str(), folder_id) {
                    return None;
                }
                let anchor_idx = match find_folder(&entries, other_folder_id.as_str()) {
                    Some(i) => i,
                    None => return None,
                };
                if anchor_idx > current { anchor_idx - 1 } else { anchor_idx }
            },
            WorkspaceDropTarget::End => {
                assert(entries_view(entries@).len() == entries@.len());
                if entries.len() > 0 { entries.len() - 1 } else { 0 }
            },
            WorkspaceDropTarget::InFolderBefore { .. } => return None,
            WorkspaceDropTarget::InFolderEnd { .. } => return None,
            WorkspaceDropTarget::IntoFolder(_) => return None,
        };
        if position == current {
            return None;
        }
        Some(FolderMoveParams { folder_id: folder_id.to_owned(), position })
    }
}

/// The anchor entry a top-level folder drop lands before, if any.
pub open spec fn move_anchor(s: StateV, target: WorkspaceDropTarget) -> Option<int> {
    let entries = normalize_spec(s.order, ws_ids(s.ws)).0;
    match target {
        WorkspaceDropTarget::Before(a) => match block_ids_spec(s.ws, a as int) {
            Some(b) => block_start(entries, b),
            None => None,
        },
        WorkspaceDropTarget::BeforeFolder(o) => folder_index(entries, o@),
        _ => None,
    }
}

/// A folder drag resolves to the position that, once the folder is taken
/// out of the top level and put back there, leaves it immediately before
/// the entry it was dropped on (before the anchor's block or folder), or
/// last for a drop at the end.
pub proof fn lemma_folder_drop_lands_before_anchor(s: StateV, folder_id: Seq<char>, target: WorkspaceDropTarget)
    requires
        normalize_spec(s.order, ws_ids(s.ws)).0.len() <= usize::MAX,
    ensures
        drop_move_spec(s, folder_id, target) matches Some(p) ==> ({
            let entries = normalize_spec(s.order, ws_ids(s.ws)).0;
            let current = folder_index(entries, folder_id)->Some_0;
            let moved = entries.remove(current).insert(p as int, entries[current]);
            &&& 0 <= current < entries.len()
            &&& p < entries.len()
            &&& moved[p as int] == entries[current]
            &&& match target {
                WorkspaceDropTarget::End => p == entries.len() - 1,
                _ => move_anchor(s, target) matches Some(anchor)
                    && 0 <= anchor < entries.len()
                    && p + 1 < moved.len()
                    && moved[p + 1] == entries[anchor],
            }
        }),
{
    let entries = normalize_spec(s.order, ws_ids(s.ws)).0;
    crate::folder_laws::lemma_folder_index_found_pub(entries, folder_id);
    if let Some(p) = drop_move_spec(s, folder_id, target) {
        let current = folder_index(entries, folder_id)->Some_0;
        let rest = entries.remove(current);
        let moved = rest.insert(p as int, entries[current]);
        match target {
            WorkspaceDropTarget::Before(a) => {
                let b = block_ids_spec(s.ws, a as int)->Some_0;
                lemma_block_start_range(entries, b);
                let anchor = block_start(entries, b)->Some_0;
                assert(entries[anchor] is Workspace) by {
                    lemma_block_start_is_loose(entries, b);
                }
                assert(anchor != current);
                if anchor > current {
                    assert(p as int == anchor - 1);
                    assert(moved[p + 1] == rest[p as int]);
                    assert(rest[p as int] == entries[p + 1]);
                } else {
                    assert(p as int == anchor);
                    assert(moved[p + 1] == rest[p as int]);
                }
            },
            WorkspaceDropTarget::BeforeFolder(o) => {
                crate::folder_laws::lemma_folder_index_found_pub(entries, o@);
                let anchor = folder_index(entries, o@)->Some_0;
                assert(anchor != current);
                if anchor > current {
                    assert(p as int == anchor - 1);
                    assert(moved[p + 1] == rest[p as int]);
                    assert(rest[p as int] == entries[p + 1]);
                } else {
                    assert(p as int == anchor);
                    assert(moved[p + 1] == rest[p as int]);
                }
            },
            _ => {},
        }
    }
}

proof fn lemma_block_start_is_loose(s: Seq<EntryV>, b: Seq<Seq<char>>)
    ensures
        block_start(s, b) matches Some(i) ==> s[i] is Workspace,
    decreases s.len(),
{
    if s.len() > 0 {
        lemma_block_start_is_loose(s.drop_last(), b);
        lemma_block_start_range(s.drop_last(), b);
        if let Some(i) = block_start(s.drop_last(), b) {
            assert(s[i] == s.drop_last()[i]);
        }
    }
}

/// A folder drag onto an anchor is a move whenever the folder is not
/// already right before that anchor.
pub proof fn lemma_folder_drop_moves_unless_in_place(s: StateV, folder_id: Seq<char>, target: WorkspaceDropTarget)
    requires
        folder_index(normalize_spec(s.order, ws_ids(s.ws)).0, folder_id) matches Some(current)
            && move_anchor(s, target) matches Some(anchor) && anchor != current && anchor != current + 1,
    ensures
        drop_move_spec(s, folder_id, target) is Some,
{
    let entries = normalize_spec(s.order, ws_ids(s.ws)).0;
    if let WorkspaceDropTarget::BeforeFolder(o) = target {
        crate::folder_laws::lemma_folder_index_found_pub(entries, folder_id);
        crate::folder_laws::lemma_folder_index_found_pub(entries, o@);
    }
}

} // verus!
