//! The client side of folders: the sidebar projection of a server snapshot,
//! and resolving space-order drags into folder API requests.
//!
//! Folder membership and the space order are server facts from the
//! snapshot; the client only projects and requests.
use vstd::prelude::*;
use crate::schema::{FolderAssignParams, FolderMoveParams, FolderTarget, Method};
use crate::text::str_eq;
use crate::folder::strs;

verus! {

/// A workspace's worktree family, as the snapshot reports it.
#[derive(Debug, Clone, PartialEq, Eq)]
pub struct ClientShellWorktree {
    pub key: String,
    pub label: String,
    pub is_linked_worktree: bool,
}

/// A workspace, as far as the sidebar folders are concerned.
#[derive(Debug, Clone, PartialEq, Eq)]
pub struct ClientShellWorkspace {
    pub workspace_id: String,
    pub label: String,
    pub custom_label: bool,
    pub branch: Option<String>,
    pub worktree: Option<ClientShellWorktree>,
    pub focused: bool,
    pub folder_id: Option<String>,
}

#[derive(Debug, Clone, PartialEq, Eq)]
pub struct ClientShellFolder {
    pub folder_id: String,
    pub name: String,
    pub members: Vec<String>,
}

/// One top-level entry of the snapshot's space order.
#[derive(Debug, Clone, PartialEq, Eq)]
pub enum ClientShellSpaceOrderEntry {
    Workspace(String),
    Folder(String),
    /// An entry kind this client does not know.
    Unknown,
}

/// An agent pane, as far as the agents panel folder view is concerned.
#[derive(Debug, Clone, PartialEq, Eq)]
pub struct ClientShellAgent {
    pub pane_id: String,
    pub workspace_id: String,
}

/// The part of a server snapshot the folder sidebar reads.
#[derive(Debug, Clone, PartialEq, Eq)]
pub struct ClientShellSnapshot {
    pub workspaces: Vec<ClientShellWorkspace>,
    pub folders: Vec<ClientShellFolder>,
    pub space_order: Vec<ClientShellSpaceOrderEntry>,
    pub focused_workspace_id: Option<String>,
    pub agents: Vec<ClientShellAgent>,
    /// Set while an API agent view replaces the agents panel's own listing.
    pub agent_view_label: Option<String>,
}

/// The first index of `s` whose element satisfies `p`.
pub open spec fn first_match<A>(s: Seq<A>, p: spec_fn(A) -> bool) -> Option<int>
    decreases s.len(),
{
    if s.len() == 0 {
        None
    } else {
        match first_match(s.drop_last(), p) {
            Some(i) => Some(i),
            None => if p(s.last()) { Some(s.len() - 1) } else { None },
        }
    }
}

/// The elements of `s` that satisfy `keep`, in order.
pub open spec fn kept<A>(s: Seq<A>, keep: spec_fn(A) -> bool) -> Seq<A>
    decreases s.len(),
{
    if s.len() == 0 {
        seq![]
    } else {
        let k = kept(s.drop_last(), keep);
        if keep(s.last()) { k.push(s.last()) } else { k }
    }
}

pub proof fn lemma_first_match<A>(s: Seq<A>, p: spec_fn(A) -> bool)
    ensures
        first_match(s, p) matches Some(i) ==> 0 <= i < s.len() && p(s[i])
            && forall|j: int| 0 <= j < i ==> !p(#[trigger] s[j]),
        first_match(s, p) is None ==> forall|j: int| 0 <= j < s.len() ==> !p(#[trigger] s[j]),
    decreases s.len(),
{
    if s.len() > 0 {
        lemma_first_match(s.drop_last(), p);
        assert forall|j: int| 0 <= j < s.len() - 1 implies s[j] == s.drop_last()[j] by {}
    }
}

/// Unfolding `first_match` and `kept` one element further.
pub(crate) proof fn lemma_step<A>(s: Seq<A>, i: int, p: spec_fn(A) -> bool)
    requires
        0 <= i < s.len(),
    ensures
        s.take(i + 1).drop_last() == s.take(i),
        s.take(i + 1).last() == s[i],
        first_match(s.take(i + 1), p) == match first_match(s.take(i), p) {
            Some(j) => Some(j),
            None => if p(s[i]) { Some(i) } else { None },
        },
        kept(s.take(i + 1), p) == if p(s[i]) { kept(s.take(i), p).push(s[i]) } else { kept(s.take(i), p) },
{
    assert(s.take(i + 1).drop_last() =~= s.take(i));
}

/// Whether an order entry is the folder `id`.
pub open spec fn is_folder_entry(e: ClientShellSpaceOrderEntry, id: Seq<char>) -> bool {
    e matches ClientShellSpaceOrderEntry::Folder(x) && x@ == id
}

/// Whether an order entry is the loose workspace `id`.
pub open spec fn is_workspace_entry(e: ClientShellSpaceOrderEntry, id: Seq<char>) -> bool {
    e matches ClientShellSpaceOrderEntry::Workspace(x) && x@ == id
}

/// Whether a folder has id `id`.
pub open spec fn folder_has_id(id: Seq<char>) -> spec_fn(ClientShellFolder) -> bool {
    |f: ClientShellFolder| f.folder_id@ == id
}

/// Whether a workspace has id `id`.
pub open spec fn workspace_has_id(id: Seq<char>) -> spec_fn(ClientShellWorkspace) -> bool {
    |w: ClientShellWorkspace| w.workspace_id@ == id
}

/// The index of the first folder with id `id`.
pub open spec fn folder_pos(snap: ClientShellSnapshot, id: Seq<char>) -> Option<int> {
    first_match(snap.folders@, folder_has_id(id))
}

/// The index of the first workspace with id `id`.
pub open spec fn workspace_pos(snap: ClientShellSnapshot, id: Seq<char>) -> Option<int> {
    first_match(snap.workspaces@, workspace_has_id(id))
}

/// The index of the folder the snapshot files workspace `id` under: the
/// workspace's own folder id, looked up among the folders.
pub open spec fn folder_of_workspace_pos(snap: ClientShellSnapshot, id: Seq<char>) -> Option<int> {
    match workspace_pos(snap, id) {
        Some(w) => match snap.workspaces@[w].folder_id {
            Some(f) => folder_pos(snap, f@),
            None => None,
        },
        None => None,
    }
}

pub fn has_folders(snapshot: &ClientShellSnapshot) -> (r: bool)
    ensures
        r == (snapshot.folders@.len() > 0),
{
    snapshot.folders.len() > 0
}

/// The folder with id `folder_id`.
pub fn folder_by_id<'a>(snapshot: &'a ClientShellSnapshot, folder_id: &str) -> (r: Option<&'a ClientShellFolder>)
    ensures
        match folder_pos(*snapshot, folder_id@) {
            Some(i) => r == Some(&snapshot.folders@[i]),
            None => r is None,
        },
{
    match folder_index_of(snapshot, folder_id) {
        Some(i) => Some(&snapshot.folders[i]),
        None => None,
    }
}

fn folder_index_of(snapshot: &ClientShellSnapshot, folder_id: &str) -> (r: Option<usize>)
    ensures
        r matches Some(k) ==> k < snapshot.folders@.len() && folder_pos(*snapshot, folder_id@) == Some(k as int),
        r is None ==> folder_pos(*snapshot, folder_id@) is None,
{
    let ghost p = folder_has_id(folder_id@);
    let mut i: usize = 0;
    while i < snapshot.folders.len()
        invariant
            i <= snapshot.folders@.len(),
            p == folder_has_id(folder_id@),
            first_match(snapshot.folders@.take(i as int), p) is None,
        decreases snapshot.folders.len() - i,
    {
        proof { lemma_step(snapshot.folders@, i as int, p); }
        if str_eq(snapshot.folders[i].folder_id.as_str(), folder_id) {
            proof { lemma_prefix_first(snapshot.folders@, i as int + 1, p); }
            return Some(i);
        }
        i = i + 1;
    }
    proof { assert(snapshot.folders@.take(i as int) =~= snapshot.folders@); }
    None
}

fn workspace_index_of(snapshot: &ClientShellSnapshot, workspace_id: &str) -> (r: Option<usize>)
    ensures
        r matches Some(k) ==> k < snapshot.workspaces@.len() && workspace_pos(*snapshot, workspace_id@) == Some(k as int),
        r is None ==> workspace_pos(*snapshot, workspace_id@) is None,
{
    let ghost p = workspace_has_id(workspace_id@);
    let mut i: usize = 0;
    while i < snapshot.workspaces.len()
        invariant
            i <= snapshot.workspaces@.len(),
            p == workspace_has_id(workspace_id@),
            first_match(snapshot.workspaces@.take(i as int), p) is None,
        decreases snapshot.workspaces.len() - i,
    {
        proof { lemma_step(snapshot.workspaces@, i as int, p); }
        if str_eq(snapshot.workspaces[i].workspace_id.as_str(), workspace_id) {
            proof { lemma_prefix_first(snapshot.workspaces@, i as int + 1, p); }
            return Some(i);
        }
        i = i + 1;
    }
    proof { assert(snapshot.workspaces@.take(i as int) =~= snapshot.workspaces@); }
    None
}

/// A match found in a prefix is the first match of the whole sequence.
pub(crate) proof fn lemma_prefix_first<A>(s: Seq<A>, k: int, p: spec_fn(A) -> bool)
    requires
        0 <= k <= s.len(),
        first_match(s.take(k), p) is Some,
    ensures
        first_match(s, p) == first_match(s.take(k), p),
    decreases s.len() - k,
{
    if k < s.len() {
        lemma_step(s, k, p);
        lemma_prefix_first(s, k + 1, p);
    } else {
        assert(s.take(k) =~= s);
    }
}

/// The folder the snapshot files `workspace_id` under.
pub fn folder_of_workspace<'a>(snapshot: &'a ClientShellSnapshot, workspace_id: &str) -> (r: Option<&'a ClientShellFolder>)
    ensures
        match folder_of_workspace_pos(*snapshot, workspace_id@) {
            Some(i) => r == Some(&snapshot.folders@[i]),
            None => r is None,
        },
{
    let w = match workspace_index_of(snapshot, workspace_id) {
        Some(w) => w,
        None => return None,
    };
    match &snapshot.workspaces[w].folder_id {
        Some(f) => folder_by_id(snapshot, f.as_str()),
        None => None,
    }
}

/// What a space-order drag carries.
#[derive(Debug, Clone, PartialEq, Eq)]
pub enum SpaceDragSource {
    Workspace(String),
    Folder(String),
}

/// Where a space-order drag would land.
#[derive(Debug, Clone, PartialEq, Eq)]
pub enum SpaceDropTarget {
    Before(String),
    BeforeFolder(String),
    InFolderBefore { folder_id: String, workspace_id: String },
    InFolderEnd { folder_id: String },
    /// Dropped onto the folder's header row.
    IntoFolder(String),
    End,
}

/// Columns an in-folder drop indicator is indented by.
pub const IN_FOLDER_DROP_INDENT: u16 = 3;

impl SpaceDropTarget {
    pub open spec fn is_top_level_spec(self) -> bool {
        self is Before || self is BeforeFolder || self is End
    }

    /// Whether the target lands among the top-level entries.
    pub fn is_top_level(&self) -> (r: bool)
        ensures
            r == self.is_top_level_spec(),
    {
        match self {
            SpaceDropTarget::Before(_) | SpaceDropTarget::BeforeFolder(_) | SpaceDropTarget::End => true,
            _ => false,
        }
    }

    /// The indicator's indent: in-folder slots sit under the members.
    pub fn indent(&self) -> (r: u16)
        ensures
            r == if self is InFolderBefore || self is InFolderEnd { IN_FOLDER_DROP_INDENT } else { 0 },
    {
        match self {
            SpaceDropTarget::InFolderBefore { .. } | SpaceDropTarget::InFolderEnd { .. } => IN_FOLDER_DROP_INDENT,
            _ => 0,
        }
    }
}

/// A drop target with the row its indicator is drawn on.
#[derive(Debug, Clone, PartialEq, Eq)]
pub struct SpaceDropSlot {
    pub target: SpaceDropTarget,
    /// Indicator row; `None` for header drops, which highlight the header instead.
    pub row: Option<u16>,
}

/// A copy of a drop target.
pub fn clone_target(t: &SpaceDropTarget) -> (r: SpaceDropTarget)
    ensures
        r == *t,
{
    match t {
        SpaceDropTarget::Before(w) => SpaceDropTarget::Before(w.clone()),
        SpaceDropTarget::BeforeFolder(f) => SpaceDropTarget::BeforeFolder(f.clone()),
        SpaceDropTarget::InFolderBefore { folder_id, workspace_id } => SpaceDropTarget::InFolderBefore {
            folder_id: folder_id.clone(),
            workspace_id: workspace_id.clone(),
        },
        SpaceDropTarget::InFolderEnd { folder_id } => SpaceDropTarget::InFolderEnd { folder_id: folder_id.clone() },
        SpaceDropTarget::IntoFolder(f) => SpaceDropTarget::IntoFolder(f.clone()),
        SpaceDropTarget::End => SpaceDropTarget::End,
    }
}

/// `x + 1`, stopping at the largest row.
pub open spec fn sat_add1(x: u16) -> u16 {
    if x < u16::MAX { (x + 1) as u16 } else { u16::MAX }
}

/// The natural rows of the slots.
pub open spec fn naturals(slots: Seq<(SpaceDropTarget, u16)>) -> Seq<u16> {
    slots.map_values(|s: (SpaceDropTarget, u16)| s.1)
}

/// Rows spread to be strictly increasing where they can: each row is its
/// natural row or one below the previous settled row, whichever is lower
/// on screen.
pub open spec fn settled(nats: Seq<u16>) -> Seq<u16>
    decreases nats.len(),
{
    if nats.len() == 0 {
        seq![]
    } else {
        let r = settled(nats.drop_last());
        let row = if r.len() == 0 {
            nats.last()
        } else if nats.last() >= sat_add1(r.last()) {
            nats.last()
        } else {
            sat_add1(r.last())
        };
        r.push(row)
    }
}

pub proof fn lemma_settled_len(nats: Seq<u16>)
    ensures
        settled(nats).len() == nats.len(),
    decreases nats.len(),
{
    if nats.len() > 0 {
        lemma_settled_len(nats.drop_last());
    }
}

/// The start of the run of slots pushed down into slot `k`: walking back
/// while a slot sits below its natural row.
pub open spec fn run_start(rows: Seq<u16>, nats: Seq<u16>, k: int) -> int
    decreases k,
{
    if k > 0 && rows[k] > nats[k] { run_start(rows, nats, k - 1) } else { k }
}

/// The last end-of-folder slot with index in `lo..hi`.
pub open spec fn last_folder_end(slots: Seq<(SpaceDropTarget, u16)>, lo: int, hi: int) -> Option<int>
    decreases hi - lo,
{
    if hi <= lo {
        None
    } else if slots[hi - 1].0 is InFolderEnd {
        Some(hi - 1)
    } else {
        last_folder_end(slots, lo, hi - 1)
    }
}

/// The slots left once end-of-folder slots have yielded, last first within
/// the run pushed into the trailing slot, until the trailing slot fits above
/// `limit` (or cannot be helped).
pub open spec fn settle_drop(slots: Seq<(SpaceDropTarget, u16)>, limit: u16) -> Seq<(SpaceDropTarget, u16)>
    decreases slots.len(),
{
    let rows = settled(naturals(slots));
    if slots.len() == 0 || rows.last() < limit || slots.last().1 >= limit {
        slots
    } else {
        match last_folder_end(slots, run_start(rows, naturals(slots), slots.len() - 1), slots.len() as int) {
            None => slots,
            Some(i) => if 0 <= i < slots.len() { settle_drop(slots.remove(i), limit) } else { slots },
        }
    }
}

/// The first `n` slots placed on their rows, those at or past `limit` left out.
pub open spec fn placed(slots: Seq<(SpaceDropTarget, u16)>, rows: Seq<u16>, limit: u16, n: int) -> Seq<SpaceDropSlot>
    decreases n,
{
    if n <= 0 {
        seq![]
    } else {
        placed(slots, rows, limit, n - 1) + if rows[n - 1] < limit {
            seq![SpaceDropSlot { target: slots[n - 1].0, row: Some(rows[n - 1]) }]
        } else {
            seq![]
        }
    }
}

/// The settled drop slots.
pub open spec fn settle_spec(slots: Seq<(SpaceDropTarget, u16)>, limit: u16) -> Seq<SpaceDropSlot> {
    let s = settle_drop(slots, limit);
    placed(s, settled(naturals(s)), limit, s.len() as int)
}

fn settled_rows(slots: &Vec<(SpaceDropTarget, u16)>) -> (rows: Vec<u16>)
    ensures
        rows@ == settled(naturals(slots@)),
{
    let ghost nats = naturals(slots@);
    let mut rows: Vec<u16> = Vec::new();
    let mut i: usize = 0;
    while i < slots.len()
        invariant
            i <= slots@.len(),
            nats == naturals(slots@),
            rows@ == settled(nats.take(i as int)),
        decreases slots.len() - i,
    {
        proof {
            assert(nats.take(i + 1).drop_last() =~= nats.take(i as int));
            lemma_settled_len(nats.take(i as int));
        }
        let natural = slots[i].1;
        let row = if rows.len() == 0 {
            natural
        } else {
            let previous = rows[rows.len() - 1];
            let bumped = previous.saturating_add(1);
            if natural >= bumped { natural } else { bumped }
        };
        rows.push(row);
        i = i + 1;
    }
    proof { assert(nats.take(slots@.len() as int) =~= nats); }
    rows
}

/// Spread natural slot rows into strictly increasing rows below `limit`.
///
/// Colliding slots shift down so each stays reachable. When that drift pushes
/// the trailing slot past `limit`, end-of-folder slots in the colliding run
/// are dropped last-first so the top-level `End` stays reachable. Slots whose
/// natural row is already past `limit` are simply dropped.
pub fn settle_slot_rows(slots: Vec<(SpaceDropTarget, u16)>, limit: u16) -> (r: Vec<SpaceDropSlot>)
    ensures
        r@ == settle_spec(slots@, limit),
{
    let ghost given = slots@;
    let mut slots = slots;
    let mut rows = settled_rows(&slots);
    loop
        invariant
            rows@ == settled(naturals(slots@)),
            settle_drop(slots@, limit) == settle_drop(given, limit),
        ensures
            rows@ == settled(naturals(slots@)),
            slots@ == settle_drop(given, limit),
        decreases slots.len(),
    {
        proof { lemma_settled_len(naturals(slots@)); }
        if slots.len() == 0 {
            break;
        }
        let last = rows[rows.len() - 1];
        let natural_last = slots[slots.len() - 1].1;
        if last < limit || natural_last >= limit {
            break;
        }
        let ghost nats = naturals(slots@);
        let mut anchor: usize = slots.len() - 1;
        while anchor > 0 && rows[anchor] > slots[anchor].1
            invariant
                anchor < slots@.len(),
                rows@.len() == slots@.len(),
                nats == naturals(slots@),
                run_start(rows@, nats, anchor as int) == run_start(rows@, nats, slots@.len() - 1),
            decreases anchor,
        {
            anchor = anchor - 1;
        }
        assert(run_start(rows@, nats, anchor as int) == anchor);
        let mut found: Option<usize> = None;
        let mut j: usize = slots.len();
        while j > anchor
            invariant_except_break
                anchor <= j <= slots@.len(),
                found is None,
                last_folder_end(slots@, anchor as int, j as int)
                    == last_folder_end(slots@, anchor as int, slots@.len() as int),
            invariant
                anchor < slots@.len(),
            ensures
                found matches Some(i) ==> i < slots@.len()
                    && last_folder_end(slots@, anchor as int, slots@.len() as int) == Some(i as int),
                found is None ==> last_folder_end(slots@, anchor as int, slots@.len() as int) is None,
            decreases j,
        {
            if matches!(slots[j - 1].0, SpaceDropTarget::InFolderEnd { .. }) {
                found = Some(j - 1);
                break;
            }
            j = j - 1;
        }
        match found {
            None => break,
            Some(i) => {
                slots.remove(i);
                rows = settled_rows(&slots);
            },
        }
    }
    let mut out: Vec<SpaceDropSlot> = Vec::new();
    let mut i: usize = 0;
    proof { lemma_settled_len(naturals(slots@)); }
    while i < slots.len()
        invariant
            i <= slots@.len(),
            rows@.len() == slots@.len(),
            out@ == placed(slots@, rows@, limit, i as int),
        decreases slots.len() - i,
    {
        if rows[i] < limit {
            let target = clone_target(&slots[i].0);
            out.push(SpaceDropSlot { target, row: Some(rows[i]) });
        }
        proof {
            let ghost extra = if rows@[i as int] < limit {
                seq![SpaceDropSlot { target: slots@[i as int].0, row: Some(rows@[i as int]) }]
            } else {
                Seq::<SpaceDropSlot>::empty()
            };
            assert(placed(slots@, rows@, limit, i + 1) == placed(slots@, rows@, limit, i as int) + extra);
        }
        i = i + 1;
    }
    out
}

/// The ids of the snapshot workspaces in family `key`, in order.
pub open spec fn key_member_ids(ws: Seq<ClientShellWorkspace>, key: Seq<char>) -> Seq<Seq<char>>
    decreases ws.len(),
{
    if ws.len() == 0 {
        seq![]
    } else {
        key_member_ids(ws.drop_last(), key) + match ws.last().worktree {
            Some(t) => if t.key@ == key { seq![ws.last().workspace_id@] } else { seq![] },
            None => seq![],
        }
    }
}

/// The ids a drag of `w` moves: its whole worktree family, or itself.
pub open spec fn family_spec(snap: ClientShellSnapshot, w: ClientShellWorkspace) -> Seq<Seq<char>> {
    match w.worktree {
        Some(t) => key_member_ids(snap.workspaces@, t.key@),
        None => seq![w.workspace_id@],
    }
}

/// The ids of the workspaces dragged together with `workspace`.
fn family_member_ids(snapshot: &ClientShellSnapshot, workspace: &ClientShellWorkspace) -> (r: Vec<String>)
    ensures
        strs(r@) == family_spec(*snapshot, *workspace),
{
    match &workspace.worktree {
        Some(worktree) => {
            let ghost ws = snapshot.workspaces@;
            let mut r: Vec<String> = Vec::new();
            let mut i: usize = 0;
            while i < snapshot.workspaces.len()
                invariant
                    i <= ws.len(),
                    ws == snapshot.workspaces@,
                    strs(r@) == key_member_ids(ws.take(i as int), worktree.key@),
                decreases snapshot.workspaces.len() - i,
            {
                proof { assert(ws.take(i + 1).drop_last() =~= ws.take(i as int)); }
                let ghost before = strs(r@);
                let candidate = &snapshot.workspaces[i];
                let same = match &candidate.worktree {
                    Some(t) => str_eq(t.key.as_str(), worktree.key.as_str()),
                    None => false,
                };
                if same {
                    r.push(candidate.workspace_id.clone());
                    proof { assert(strs(r@) =~= before + seq![candidate.workspace_id@]); }
                } else {
                    proof { assert(before + Seq::<Seq<char>>::empty() =~= before); }
                }
                i = i + 1;
            }
            proof { assert(ws.take(ws.len() as int) =~= ws); }
            r
        },
        None => {
            let r = vec![workspace.workspace_id.clone()];
            proof { assert(strs(r@) =~= seq![workspace.workspace_id@]); }
            r
        },
    }
}

/// Whether an order entry is the folder `id`, as a predicate.
pub open spec fn folder_entry_is(id: Seq<char>) -> spec_fn(ClientShellSpaceOrderEntry) -> bool {
    |e: ClientShellSpaceOrderEntry| is_folder_entry(e, id)
}

/// Whether an order entry is the loose workspace `id`, as a predicate.
pub open spec fn workspace_entry_is(id: Seq<char>) -> spec_fn(ClientShellSpaceOrderEntry) -> bool {
    |e: ClientShellSpaceOrderEntry| is_workspace_entry(e, id)
}

/// What stays of the order while something is dragged: everything but the
/// dragged folder, or everything but loose references to the dragged ids.
pub enum Dragged<'a> {
    Folder(&'a str),
    Workspaces(&'a Vec<String>),
}

pub open spec fn stays(d: Dragged) -> spec_fn(ClientShellSpaceOrderEntry) -> bool {
    match d {
        Dragged::Folder(f) => stays_folder(f@),
        Dragged::Workspaces(ids) => stays_ids(strs(ids@)),
    }
}

/// Every entry but the folder `f`.
pub open spec fn stays_folder(f: Seq<char>) -> spec_fn(ClientShellSpaceOrderEntry) -> bool {
    |e: ClientShellSpaceOrderEntry| !is_folder_entry(e, f)
}

/// Every entry but loose references to `ids`.
pub open spec fn stays_ids(ids: Seq<Seq<char>>) -> spec_fn(ClientShellSpaceOrderEntry) -> bool {
    |e: ClientShellSpaceOrderEntry| !(e matches ClientShellSpaceOrderEntry::Workspace(x) && ids.contains(x@))
}

/// The index of a top-level drop target among the remaining entries;
/// `None` appends.
pub open spec fn target_position(remaining: Seq<ClientShellSpaceOrderEntry>, target: SpaceDropTarget) -> Option<int> {
    first_match(remaining, target_pred(target))
}

/// Whether an order entry is what a top-level target names.
pub open spec fn target_pred(target: SpaceDropTarget) -> spec_fn(ClientShellSpaceOrderEntry) -> bool {
    match target {
        SpaceDropTarget::Before(w) => workspace_entry_is(w@),
        SpaceDropTarget::BeforeFolder(f) => folder_entry_is(f@),
        _ => |e: ClientShellSpaceOrderEntry| false,
    }
}

fn stays_exec(e: &ClientShellSpaceOrderEntry, d: &Dragged) -> (r: bool)
    ensures
        r == stays(*d)(*e),
{
    match d {
        Dragged::Folder(f) => match e {
            ClientShellSpaceOrderEntry::Folder(x) => !str_eq(x.as_str(), f),
            _ => true,
        },
        Dragged::Workspaces(ids) => match e {
            ClientShellSpaceOrderEntry::Workspace(x) => !crate::folder::contains_string(ids, x.as_str()),
            _ => true,
        },
    }
}

fn matches_target(e: &ClientShellSpaceOrderEntry, target: &SpaceDropTarget) -> (r: bool)
    ensures
        r == target_pred(*target)(*e),
{
    match (target, e) {
        (SpaceDropTarget::Before(w), ClientShellSpaceOrderEntry::Workspace(x)) => str_eq(x.as_str(), w.as_str()),
        (SpaceDropTarget::BeforeFolder(f), ClientShellSpaceOrderEntry::Folder(x)) => str_eq(x.as_str(), f.as_str()),
        _ => false,
    }
}

/// The entries that stay, counted, and the target's index among them.
fn remaining_position(order: &Vec<ClientShellSpaceOrderEntry>, d: &Dragged, target: &SpaceDropTarget) -> (r: (Option<usize>, usize))
    ensures
        r.1 == kept(order@, stays(*d)).len(),
        r.0 matches Some(k) ==> k < r.1 && target_position(kept(order@, stays(*d)), *target) == Some(k as int),
        r.0 is None ==> target_position(kept(order@, stays(*d)), *target) is None,
{
    let ghost keep = stays(*d);
    let ghost tp = target_pred(*target);
    let mut count: usize = 0;
    let mut found: Option<usize> = None;
    let mut i: usize = 0;
    while i < order.len()
        invariant
            i <= order@.len(),
            keep == stays(*d),
            count == kept(order@.take(i as int), keep).len(),
            count <= i,
            found matches Some(k) ==> k < count && first_match(kept(order@.take(i as int), keep), tp) == Some(k as int),
            found is None ==> first_match(kept(order@.take(i as int), keep), tp) is None,
            tp == target_pred(*target),
        decreases order.len() - i,
    {
        proof {
            lemma_step(order@, i as int, keep);
            let k = kept(order@.take(i as int), keep);
            assert(k.push(order@[i as int]).drop_last() =~= k);
        }
        if stays_exec(&order[i], d) {
            if found.is_none() && matches_target(&order[i], target) {
                found = Some(count);
            }
            count = count + 1;
        }
        i = i + 1;
    }
    proof { assert(order@.take(order@.len() as int) =~= order@); }
    (found, count)
}

/// How many entries before index `c` stay.
fn remaining_before(order: &Vec<ClientShellSpaceOrderEntry>, d: &Dragged, c: usize) -> (r: usize)
    requires
        c <= order@.len(),
    ensures
        r == kept(order@.take(c as int), stays(*d)).len(),
{
    let ghost keep = stays(*d);
    let mut count: usize = 0;
    let mut i: usize = 0;
    while i < c
        invariant
            i <= c <= order@.len(),
            keep == stays(*d),
            count == kept(order@.take(i as int), keep).len(),
            count <= i,
        decreases c - i,
    {
        proof { lemma_step(order@, i as int, keep); }
        if stays_exec(&order[i], d) {
            count = count + 1;
        }
        i = i + 1;
    }
    count
}

/// The first index of the order holding `target`-kind entry `id`.
fn order_position(order: &Vec<ClientShellSpaceOrderEntry>, id: &str, folder: bool) -> (r: Option<usize>)
    ensures
        r matches Some(k) ==> k < order@.len()
            && first_match(order@, if folder { folder_entry_is(id@) } else { workspace_entry_is(id@) }) == Some(k as int),
        r is None ==> first_match(order@, if folder { folder_entry_is(id@) } else { workspace_entry_is(id@) }) is None,
{
    let ghost p = if folder { folder_entry_is(id@) } else { workspace_entry_is(id@) };
    let mut i: usize = 0;
    while i < order.len()
        invariant
            i <= order@.len(),
            p == if folder { folder_entry_is(id@) } else { workspace_entry_is(id@) },
            first_match(order@.take(i as int), p) is None,
        decreases order.len() - i,
    {
        proof { lemma_step(order@, i as int, p); }
        let hit = match &order[i] {
            ClientShellSpaceOrderEntry::Folder(x) => folder && str_eq(x.as_str(), id),
            ClientShellSpaceOrderEntry::Workspace(x) => !folder && str_eq(x.as_str(), id),
            ClientShellSpaceOrderEntry::Unknown => false,
        };
        if hit {
            proof { lemma_prefix_first(order@, i as int + 1, p); }
            return Some(i);
        }
        i = i + 1;
    }
    proof { assert(order@.take(i as int) =~= order@); }
    None
}

/// The number of trailing elements of `s` that satisfy `p`.
pub open spec fn trailing_count<A>(s: Seq<A>, p: spec_fn(A) -> bool) -> nat
    decreases s.len(),
{
    if s.len() == 0 {
        0
    } else if p(s.last()) {
        trailing_count(s.drop_last(), p) + 1
    } else {
        0
    }
}

/// The number of leading elements of `s` that satisfy `p`.
pub open spec fn leading_count<A>(s: Seq<A>, p: spec_fn(A) -> bool) -> nat
    decreases s.len(),
{
    if s.len() == 0 {
        0
    } else {
        let c = leading_count(s.drop_last(), p);
        if c == s.len() - 1 && p(s.last()) { s.len() } else { c }
    }
}

pub proof fn lemma_leading_count_le<A>(s: Seq<A>, p: spec_fn(A) -> bool)
    ensures
        leading_count(s, p) <= s.len(),
    decreases s.len(),
{
    if s.len() > 0 {
        lemma_leading_count_le(s.drop_last(), p);
    }
}

/// Whether an id is one of `ids`.
pub open spec fn in_ids(ids: Seq<Seq<char>>) -> spec_fn(Seq<char>) -> bool {
    |x: Seq<char>| ids.contains(x)
}

/// Whether an id is not one of `ids`.
pub open spec fn not_in_ids(ids: Seq<Seq<char>>) -> spec_fn(Seq<char>) -> bool {
    |x: Seq<char>| !ids.contains(x)
}

/// Whether an id is `id`.
pub open spec fn eq_id(id: Seq<char>) -> spec_fn(Seq<char>) -> bool {
    |x: Seq<char>| x == id
}

/// `a < b` for optional positions, ordered as `Option` orders them: no
/// position before any position.
pub open spec fn opt_lt(a: Option<int>, b: Option<int>) -> bool {
    match (a, b) {
        (None, Some(_)) => true,
        (Some(x), Some(y)) => x < y,
        _ => false,
    }
}

/// Whether a member sits before `w` in `members`.
pub open spec fn before_in(members: Seq<Seq<char>>, w: Seq<char>) -> spec_fn(Seq<char>) -> bool {
    |m: Seq<char>| opt_lt(first_match(members, eq_id(m)), first_match(members, eq_id(w)))
}

pub open spec fn opt_usize(o: Option<int>) -> Option<usize> {
    match o {
        Some(p) => Some(p as usize),
        None => None,
    }
}

/// The abstract value of a folder API request.
pub enum MethodV {
    Move { folder_id: Seq<char>, position: usize },
    Assign { workspace_id: Seq<char>, folder_id: Option<Seq<char>>, position: Option<usize> },
    Other,
}

pub open spec fn method_view(m: Method) -> MethodV {
    match m {
        Method::FolderMove(p) => MethodV::Move { folder_id: p.folder_id@, position: p.position },
        Method::FolderAssign(p) => MethodV::Assign {
            workspace_id: p.workspace_id@,
            folder_id: match p.folder_id { Some(f) => Some(f@), None => None },
            position: p.position,
        },
        _ => MethodV::Other,
    }
}

/// Dropping a folder among the top-level entries: its final index, unless
/// that is where it already is.
pub open spec fn folder_drop_spec(snap: ClientShellSnapshot, f: Seq<char>, target: SpaceDropTarget) -> Option<MethodV> {
    if !target.is_top_level_spec() {
        None
    } else if target matches SpaceDropTarget::BeforeFolder(id) && id@ == f {
        None
    } else {
        let remaining = kept(snap.space_order@, stays_folder(f));
        match first_match(snap.space_order@, folder_entry_is(f)) {
            None => None,
            Some(current) => {
                let position = if target is End { Some(remaining.len() as int) } else { target_position(remaining, target) };
                match position {
                    None => None,
                    Some(p) => if p == current { None } else { Some(MethodV::Move { folder_id: f, position: p as usize }) },
                }
            },
        }
    }
}

/// Dropping workspace `w` (dragging `family`) at the end of folder `fid`.
pub open spec fn append_drop_spec(snap: ClientShellSnapshot, w: Seq<char>, family: Seq<Seq<char>>, current_folder: Option<Seq<char>>, fid: Seq<char>) -> Option<MethodV> {
    match folder_pos(snap, fid) {
        None => None,
        Some(fi) => {
            let members = strs(snap.folders@[fi].members@);
            let last_block_is_source = trailing_count(members, in_ids(family)) == family.len()
                && members.len() >= family.len();
            if current_folder == Some(fid) && last_block_is_source {
                None
            } else {
                Some(MethodV::Assign { workspace_id: w, folder_id: Some(fid), position: None })
            }
        },
    }
}

/// Dropping workspace `w` (dragging `family`) inside folder `fid`, before member `before`.
pub open spec fn in_folder_drop_spec(snap: ClientShellSnapshot, w: Seq<char>, family: Seq<Seq<char>>, current_folder: Option<Seq<char>>, fid: Seq<char>, before: Seq<char>) -> Option<MethodV> {
    if family.contains(before) {
        None
    } else {
        match folder_pos(snap, fid) {
            None => None,
            Some(fi) => {
                let members = strs(snap.folders@[fi].members@);
                let remaining = kept(members, not_in_ids(family));
                match first_match(remaining, eq_id(before)) {
                    None => None,
                    Some(position) => if current_folder == Some(fid)
                        && leading_count(remaining, before_in(members, w)) == position {
                        None
                    } else {
                        Some(MethodV::Assign { workspace_id: w, folder_id: Some(fid), position: Some(position as usize) })
                    },
                }
            },
        }
    }
}

/// Dropping workspace `w` (dragging `family`) among the top-level entries.
pub open spec fn top_level_drop_spec(snap: ClientShellSnapshot, w: Seq<char>, family: Seq<Seq<char>>, current_folder: Option<Seq<char>>, target: SpaceDropTarget) -> Option<MethodV> {
    if target matches SpaceDropTarget::Before(b) && family.contains(b@) {
        None
    } else {
        let order = snap.space_order@;
        let remaining = kept(order, stays_ids(family));
        let position = target_position(remaining, target);
        let unchanged = current_folder is None && match first_match(order, workspace_entry_is(w)) {
            Some(c) => kept(order.take(c), stays_ids(family)).len() == match position {
                Some(p) => p,
                None => remaining.len() as int,
            },
            None => false,
        };
        if unchanged { None } else { Some(MethodV::Assign { workspace_id: w, folder_id: None, position: opt_usize(position) }) }
    }
}

/// The folder API request a drop makes, or `None` for no-ops and illegal drops.
pub open spec fn drop_method_spec(snap: ClientShellSnapshot, source: SpaceDragSource, target: SpaceDropTarget) -> Option<MethodV> {
    match source {
        SpaceDragSource::Folder(f) => folder_drop_spec(snap, f@, target),
        SpaceDragSource::Workspace(wid) => {
            let w = wid@;
            match workspace_pos(snap, w) {
                None => None,
                Some(wi) => {
                    let ws = snap.workspaces@[wi];
                    if ws.worktree matches Some(t) && t.is_linked_worktree {
                        None
                    } else {
                        let family = family_spec(snap, ws);
                        let current_folder = match folder_of_workspace_pos(snap, w) {
                            Some(i) => Some(snap.folders@[i].folder_id@),
                            None => None,
                        };
                        match target {
                            SpaceDropTarget::IntoFolder(fid) => append_drop_spec(snap, w, family, current_folder, fid@),
                            SpaceDropTarget::InFolderEnd { folder_id } => append_drop_spec(snap, w, family, current_folder, folder_id@),
                            SpaceDropTarget::InFolderBefore { folder_id, workspace_id } =>
                                in_folder_drop_spec(snap, w, family, current_folder, folder_id@, workspace_id@),
                            _ => top_level_drop_spec(snap, w, family, current_folder, target),
                        }
                    }
                },
            }
        },
    }
}

/// The position of the first member equal to `x`.
fn member_position(members: &Vec<String>, x: &str) -> (r: Option<usize>)
    ensures
        r == opt_usize(first_match(strs(members@), eq_id(x@))),
        r matches Some(k) ==> k < members@.len(),
{
    let ghost ms = strs(members@);
    let ghost p = eq_id(x@);
    let mut i: usize = 0;
    while i < members.len()
        invariant
            i <= members@.len(),
            ms == strs(members@),
            p == eq_id(x@),
            first_match(ms.take(i as int), p) is None,
        decreases members.len() - i,
    {
        proof { lemma_step(ms, i as int, p); }
        if str_eq(members[i].as_str(), x) {
            proof { lemma_prefix_first(ms, i as int + 1, p); }
            return Some(i);
        }
        i = i + 1;
    }
    proof { assert(ms.take(i as int) =~= ms); }
    None
}

fn opt_lt_exec(a: Option<usize>, b: Option<usize>) -> (r: bool)
    ensures
        r == opt_lt(match a { Some(x) => Some(x as int), None => None }, match b { Some(x) => Some(x as int), None => None }),
{
    match (a, b) {
        (None, Some(_)) => true,
        (Some(x), Some(y)) => x < y,
        _ => false,
    }
}

/// Drop at the end of folder `folder_id`.
fn append_drop(
    snapshot: &ClientShellSnapshot,
    workspace_id: &String,
    family: &Vec<String>,
    current_folder: Option<&String>,
    folder_id: &String,
) -> (r: Option<Method>)
    ensures
        match append_drop_spec(*snapshot, workspace_id@, strs(family@), match current_folder { Some(c) => Some(c@), None => None }, folder_id@) {
            Some(m) => r matches Some(x) && method_view(x) == m,
            None => r is None,
        },
{
    let fi = match folder_index_of(snapshot, folder_id.as_str()) {
        Some(fi) => fi,
        None => return None,
    };
    let members = &snapshot.folders[fi].members;
    let ghost ms = strs(members@);
    let ghost fam = strs(family@);
    let mut trailing: usize = 0;
    let mut i: usize = 0;
    while i < members.len()
        invariant
            i <= members@.len(),
            ms == strs(members@),
            fam == strs(family@),
            trailing == trailing_count(ms.take(i as int), in_ids(fam)),
            trailing <= i,
        decreases members.len() - i,
    {
        proof { assert(ms.take(i + 1).drop_last() =~= ms.take(i as int)); }
        if crate::folder::contains_string(family, members[i].as_str()) {
            trailing = trailing + 1;
        } else {
            trailing = 0;
        }
        i = i + 1;
    }
    proof { assert(ms.take(members@.len() as int) =~= ms); }
    let same_folder = match current_folder {
        Some(c) => str_eq(c.as_str(), folder_id.as_str()),
        None => false,
    };
    if same_folder && trailing == family.len() && members.len() >= family.len() {
        return None;
    }
    Some(Method::FolderAssign(FolderAssignParams {
        workspace_id: workspace_id.clone(),
        folder_id: Some(folder_id.clone()),
        position: None,
    }))
}

/// Drop inside folder `folder_id`, before member `before`.
fn in_folder_drop(
    snapshot: &ClientShellSnapshot,
    workspace_id: &String,
    family: &Vec<String>,
    current_folder: Option<&String>,
    folder_id: &String,
    before: &String,
) -> (r: Option<Method>)
    ensures
        match in_folder_drop_spec(*snapshot, workspace_id@, strs(family@), match current_folder { Some(c) => Some(c@), None => None }, folder_id@, before@) {
            Some(m) => r matches Some(x) && method_view(x) == m,
            None => r is None,
        },
{
    if crate::folder::contains_string(family, before.as_str()) {
        return None;
    }
    let fi = match folder_index_of(snapshot, folder_id.as_str()) {
        Some(fi) => fi,
        None => return None,
    };
    let members = &snapshot.folders[fi].members;
    let ghost ms = strs(members@);
    let ghost fam = strs(family@);
    let ghost keep = not_in_ids(fam);
    let ghost q = eq_id(before@);
    let ghost lp = before_in(ms, workspace_id@);
    let wpos = member_position(members, workspace_id.as_str());
    let mut count: usize = 0;
    let mut position: Option<usize> = None;
    let mut lead: usize = 0;
    let mut i: usize = 0;
    while i < members.len()
        invariant
            i <= members@.len(),
            ms == strs(members@),
            fam == strs(family@),
            keep == not_in_ids(fam),
            q == eq_id(before@),
            lp == before_in(ms, workspace_id@),
            wpos == opt_usize(first_match(ms, eq_id(workspace_id@))),
            wpos matches Some(k) ==> k < members@.len(),
            count == kept(ms.take(i as int), keep).len(),
            count <= i,
            position == opt_usize(first_match(kept(ms.take(i as int), keep), q)),
            position matches Some(k) ==> k < count,
            lead == leading_count(kept(ms.take(i as int), keep), lp),
            lead <= count,
        decreases members.len() - i,
    {
        proof {
            lemma_step(ms, i as int, keep);
            let k = kept(ms.take(i as int), keep);
            assert(k.push(ms[i as int]).drop_last() =~= k);
            lemma_first_match(k, q);
        }
        if !crate::folder::contains_string(family, members[i].as_str()) {
            if position.is_none() && str_eq(members[i].as_str(), before.as_str()) {
                position = Some(count);
            }
            let mp = member_position(members, members[i].as_str());
            proof { lemma_first_match(ms, eq_id(workspace_id@)); lemma_first_match(ms, eq_id(ms[i as int])); }
            if lead == count && opt_lt_exec(mp, wpos) {
                lead = count + 1;
            }
            count = count + 1;
        }
        i = i + 1;
    }
    proof {
        assert(ms.take(members@.len() as int) =~= ms);
        lemma_first_match(kept(ms, keep), q);
    }
    let position = match position {
        Some(p) => p,
        None => return None,
    };
    let same_folder = match current_folder {
        Some(c) => str_eq(c.as_str(), folder_id.as_str()),
        None => false,
    };
    if same_folder && lead == position {
        return None;
    }
    Some(Method::FolderAssign(FolderAssignParams {
        workspace_id: workspace_id.clone(),
        folder_id: Some(folder_id.clone()),
        position: Some(position),
    }))
}

/// Drop of folder `folder_id` among the top-level entries.
fn folder_drop(snapshot: &ClientShellSnapshot, folder_id: &String, target: &SpaceDropTarget) -> (r: Option<Method>)
    ensures
        match folder_drop_spec(*snapshot, folder_id@, *target) {
            Some(m) => r matches Some(x) && method_view(x) == m,
            None => r is None,
        },
{
    if !target.is_top_level() {
        return None;
    }
    if let SpaceDropTarget::BeforeFolder(id) = target {
        if str_eq(id.as_str(), folder_id.as_str()) {
            return None;
        }
    }
    let dragged = Dragged::Folder(folder_id.as_str());
    let (position, count) = remaining_position(&snapshot.space_order, &dragged, target);
    let current = match order_position(&snapshot.space_order, folder_id.as_str(), true) {
        Some(c) => c,
        None => return None,
    };
    proof {
        lemma_first_match(snapshot.space_order@, folder_entry_is(folder_id@));
        lemma_first_match(kept(snapshot.space_order@, stays_folder(folder_id@)), target_pred(*target));
    }
    let position = match target {
        SpaceDropTarget::End => count,
        _ => match position {
            Some(p) => p,
            None => return None,
        },
    };
    if position == current {
        return None;
    }
    Some(Method::FolderMove(FolderMoveParams { folder_id: folder_id.clone(), position }))
}

/// Drop of workspace `workspace_id` (dragging `family`) among the top-level entries.
fn top_level_drop(
    snapshot: &ClientShellSnapshot,
    workspace_id: &String,
    family: &Vec<String>,
    current_folder: Option<&String>,
    target: &SpaceDropTarget,
) -> (r: Option<Method>)
    requires
        target is Before || target is BeforeFolder || target is End,
    ensures
        match top_level_drop_spec(*snapshot, workspace_id@, strs(family@), match current_folder { Some(c) => Some(c@), None => None }, *target) {
            Some(m) => r matches Some(x) && method_view(x) == m,
            None => r is None,
        },
{
    if let SpaceDropTarget::Before(b) = target {
        if crate::folder::contains_string(family, b.as_str()) {
            return None;
        }
    }
    let dragged = Dragged::Workspaces(family);
    let (position, count) = remaining_position(&snapshot.space_order, &dragged, target);
    proof { lemma_first_match(kept(snapshot.space_order@, stays_ids(strs(family@))), target_pred(*target)); }
    if current_folder.is_none() {
        if let Some(c) = order_position(&snapshot.space_order, workspace_id.as_str(), false) {
            proof { lemma_first_match(snapshot.space_order@, workspace_entry_is(workspace_id@)); }
            let current_remaining = remaining_before(&snapshot.space_order, &dragged, c);
            let position_or_end = match position {
                Some(p) => p,
                None => count,
            };
            if current_remaining == position_or_end {
                return None;
            }
        }
    }
    Some(Method::FolderAssign(FolderAssignParams { workspace_id: workspace_id.clone(), folder_id: None, position }))
}

/// The client shell state the folder features read and change.
pub struct ClientShellState {
    /// The latest server snapshot, once one arrived.
    pub snapshot: Option<ClientShellSnapshot>,
    /// Storage key of the endpoint the panels show.
    pub active_endpoint_id: String,
    /// Each endpoint's collapse state, by endpoint storage key; keys are unique.
    pub folder_collapse: Vec<(String, FolderCollapseState)>,
    /// The open menu or modal, if any.
    pub overlay: Option<ClientShellOverlay>,
    /// Worktree families collapsed in the spaces panel, by family key.
    pub collapsed_groups: Vec<String>,
    /// The narrow single-panel layout is in use.
    pub mobile_layout: bool,
    /// Where the last frame drew the spaces panel.
    pub hits: ShellHitMap,
}

impl ClientShellState {
    /// The API request for a drop, or `None` for no-ops and illegal drops.
    pub fn space_drop_method(&self, source: &SpaceDragSource, target: &SpaceDropTarget) -> (r: Option<Method>)
        ensures
            match self.snapshot {
                None => r is None,
                Some(snap) => match drop_method_spec(snap, *source, *target) {
                    Some(m) => r matches Some(x) && method_view(x) == m,
                    None => r is None,
                },
            },
    {
        let snapshot = match &self.snapshot {
            Some(s) => s,
            None => return None,
        };
        match source {
            SpaceDragSource::Folder(folder_id) => folder_drop(snapshot, folder_id, target),
            SpaceDragSource::Workspace(workspace_id) => {
                let wi = match workspace_index_of(snapshot, workspace_id.as_str()) {
                    Some(wi) => wi,
                    None => return None,
                };
                let workspace = &snapshot.workspaces[wi];
                if let Some(t) = &workspace.worktree {
                    if t.is_linked_worktree {
                        return None;
                    }
                }
                let family = family_member_ids(snapshot, workspace);
                let current_folder: Option<&String> = match folder_of_workspace(snapshot, workspace_id.as_str()) {
                    Some(f) => Some(&f.folder_id),
                    None => None,
                };
                match target {
                    SpaceDropTarget::IntoFolder(folder_id) => append_drop(snapshot, workspace_id, &family, current_folder, folder_id),
                    SpaceDropTarget::InFolderEnd { folder_id } => append_drop(snapshot, workspace_id, &family, current_folder, folder_id),
                    SpaceDropTarget::InFolderBefore { folder_id, workspace_id: before } =>
                        in_folder_drop(snapshot, workspace_id, &family, current_folder, folder_id, before),
                    _ => top_level_drop(snapshot, workspace_id, &family, current_folder, target),
                }
            },
        }
    }
}

/// A workspace row of the spaces panel.
#[derive(Debug, Clone, Copy, PartialEq, Eq)]
pub struct WorkspaceEntry {
    /// Index into the snapshot's workspaces.
    pub index: usize,
    /// A worktree child drawn under its parent.
    pub indented: bool,
    /// The last child of its family.
    pub last_child: bool,
}

/// A row of the spaces panel: a folder header or a workspace.
#[derive(Debug, Clone, Copy, PartialEq, Eq)]
pub enum SidebarEntry {
    Folder { folder_index: usize },
    Workspace { entry: WorkspaceEntry, foldered: bool },
}

impl SidebarEntry {
    pub fn is_indented_workspace(&self) -> (r: bool)
        ensures
            r == (*self matches SidebarEntry::Workspace { entry, .. } && entry.indented),
    {
        match self {
            SidebarEntry::Workspace { entry, .. } => entry.indented,
            SidebarEntry::Folder { .. } => false,
        }
    }
}

/// Whether workspace `w` belongs to family `key`.
pub open spec fn in_key(w: ClientShellWorkspace, key: Seq<char>) -> bool {
    w.worktree matches Some(t) && t.key@ == key
}

/// The indices of the workspaces of family `key`, in order.
pub open spec fn key_indices(ws: Seq<ClientShellWorkspace>, key: Seq<char>) -> Seq<int>
    decreases ws.len(),
{
    if ws.len() == 0 {
        seq![]
    } else if in_key(ws.last(), key) {
        key_indices(ws.drop_last(), key).push(ws.len() - 1)
    } else {
        key_indices(ws.drop_last(), key)
    }
}

/// Whether workspace `i` is a family's parent checkout.
pub open spec fn is_parent_at(ws: Seq<ClientShellWorkspace>, i: int) -> bool {
    ws[i].worktree matches Some(t) && !t.is_linked_worktree
}

/// The family's parent: its first parent checkout, else `default`.
pub open spec fn parent_of(ws: Seq<ClientShellWorkspace>, members: Seq<int>, default: int) -> int {
    match first_match(members, |i: int| is_parent_at(ws, i)) {
        Some(k) => members[k],
        None => default,
    }
}

/// A family is drawn grouped when it has two or more members and a parent.
pub open spec fn grouped(ws: Seq<ClientShellWorkspace>, key: Seq<char>) -> bool {
    let members = key_indices(ws, key);
    members.len() >= 2 && exists|k: int| 0 <= k < members.len() && is_parent_at(ws, #[trigger] members[k])
}

/// The rows a family's children take, the last one marked.
pub open spec fn child_rows(children: Seq<int>, foldered: bool) -> Seq<SidebarEntry> {
    Seq::new(children.len(), |k: int| SidebarEntry::Workspace {
        entry: WorkspaceEntry { index: children[k] as usize, indented: true, last_child: k + 1 == children.len() },
        foldered,
    })
}

/// The projection state: rows so far, families already drawn, workspaces listed.
pub struct SidebarProjection {
    pub rows: Seq<SidebarEntry>,
    pub emitted: Seq<Seq<char>>,
    pub listed: Seq<bool>,
}

/// A plain workspace row.
pub open spec fn plain_row(index: int, foldered: bool) -> SidebarEntry {
    SidebarEntry::Workspace { entry: WorkspaceEntry { index: index as usize, indented: false, last_child: false }, foldered }
}

/// Drawing workspace `index`: alone, or with its whole family hoisted at the
/// parent the first time a member comes up. A collapsed family shows only
/// its focused child.
pub open spec fn emit_spec(
    snap: ClientShellSnapshot,
    collapsed_groups: Seq<Seq<char>>,
    force_expanded: bool,
    st: SidebarProjection,
    index: int,
    foldered: bool,
) -> SidebarProjection {
    let ws = snap.workspaces@;
    if !(0 <= index < ws.len()) {
        st
    } else {
        match ws[index].worktree {
            Some(t) if grouped(ws, t.key@) => {
                let key = t.key@;
                if st.emitted.contains(key) {
                    st
                } else {
                    let members = key_indices(ws, key);
                    let parent = parent_of(ws, members, index);
                    let rows1 = st.rows.push(plain_row(parent, foldered));
                    let emitted = st.emitted.push(key);
                    if !force_expanded && collapsed_groups.contains(key) {
                        match first_match(members, |m: int| m != parent && ws[m].focused) {
                            Some(k) => SidebarProjection {
                                rows: rows1.push(SidebarEntry::Workspace {
                                    entry: WorkspaceEntry { index: members[k] as usize, indented: true, last_child: true },
                                    foldered,
                                }),
                                emitted,
                                ..st
                            },
                            None => SidebarProjection { rows: rows1, emitted, ..st },
                        }
                    } else {
                        let children = kept(members, |m: int| m != parent);
                        SidebarProjection { rows: rows1 + child_rows(children, foldered), emitted, ..st }
                    }
                }
            },
            _ => SidebarProjection { rows: st.rows.push(plain_row(index, foldered)), ..st },
        }
    }
}

/// The last index of `s` whose element satisfies `p`.
pub open spec fn last_match<A>(s: Seq<A>, p: spec_fn(A) -> bool) -> Option<int>
    decreases s.len(),
{
    if s.len() == 0 {
        None
    } else if p(s.last()) {
        Some(s.len() - 1)
    } else {
        last_match(s.drop_last(), p)
    }
}

/// The workspace an id names: the last workspace with that id.
pub open spec fn index_by_id(snap: ClientShellSnapshot, id: Seq<char>) -> Option<int> {
    last_match(snap.workspaces@, workspace_has_id(id))
}

/// Listing one referenced workspace, once.
pub open spec fn list_spec(
    snap: ClientShellSnapshot,
    collapsed_groups: Seq<Seq<char>>,
    force_expanded: bool,
    st: SidebarProjection,
    id: Seq<char>,
    foldered: bool,
    hidden: bool,
) -> SidebarProjection {
    match index_by_id(snap, id) {
        None => st,
        Some(index) => if st.listed[index] {
            st
        } else {
            let st1 = SidebarProjection { listed: st.listed.update(index, true), ..st };
            if hidden { st1 } else { emit_spec(snap, collapsed_groups, force_expanded, st1, index, foldered) }
        },
    }
}

/// Listing a folder's members in order.
pub open spec fn members_spec(
    snap: ClientShellSnapshot,
    collapsed_groups: Seq<Seq<char>>,
    force_expanded: bool,
    st: SidebarProjection,
    members: Seq<Seq<char>>,
    hidden: bool,
) -> SidebarProjection
    decreases members.len(),
{
    if members.len() == 0 {
        st
    } else {
        let st1 = members_spec(snap, collapsed_groups, force_expanded, st, members.drop_last(), hidden);
        list_spec(snap, collapsed_groups, force_expanded, st1, members.last(), true, hidden)
    }
}

/// One top-level entry of the space order.
pub open spec fn order_step_spec(
    snap: ClientShellSnapshot,
    collapsed_groups: Seq<Seq<char>>,
    collapsed_folders: Seq<Seq<char>>,
    force_expanded: bool,
    st: SidebarProjection,
    e: ClientShellSpaceOrderEntry,
) -> SidebarProjection {
    match e {
        ClientShellSpaceOrderEntry::Workspace(id) => list_spec(snap, collapsed_groups, force_expanded, st, id@, false, false),
        ClientShellSpaceOrderEntry::Folder(fid) => match folder_pos(snap, fid@) {
            None => st,
            Some(fi) => {
                let st1 = SidebarProjection { rows: st.rows.push(SidebarEntry::Folder { folder_index: fi as usize }), ..st };
                let collapsed = !force_expanded && collapsed_folders.contains(fid@);
                members_spec(snap, collapsed_groups, force_expanded, st1, strs(snap.folders@[fi].members@), collapsed)
            },
        },
        ClientShellSpaceOrderEntry::Unknown => st,
    }
}

/// The space order walked from the front.
pub open spec fn order_walk(
    snap: ClientShellSnapshot,
    collapsed_groups: Seq<Seq<char>>,
    collapsed_folders: Seq<Seq<char>>,
    force_expanded: bool,
    st: SidebarProjection,
    order: Seq<ClientShellSpaceOrderEntry>,
) -> SidebarProjection
    decreases order.len(),
{
    if order.len() == 0 {
        st
    } else {
        let st1 = order_walk(snap, collapsed_groups, collapsed_folders, force_expanded, st, order.drop_last());
        order_step_spec(snap, collapsed_groups, collapsed_folders, force_expanded, st1, order.last())
    }
}

/// The workspaces `0..n` the order did not list, drawn at the end.
pub open spec fn unlisted_walk(
    snap: ClientShellSnapshot,
    collapsed_groups: Seq<Seq<char>>,
    force_expanded: bool,
    st: SidebarProjection,
    listed: Seq<bool>,
    n: int,
) -> SidebarProjection
    decreases n,
{
    if n <= 0 {
        st
    } else {
        let st1 = unlisted_walk(snap, collapsed_groups, force_expanded, st, listed, n - 1);
        if listed[n - 1] { st1 } else { emit_spec(snap, collapsed_groups, force_expanded, st1, n - 1, false) }
    }
}

/// The spaces panel rows: folder members nested under their header,
/// worktree families hoisted at their parent, collapsed folders hiding their
/// members. Without folders the panel shows the flat listing.
pub open spec fn sidebar_spec(
    snap: ClientShellSnapshot,
    collapsed_groups: Seq<Seq<char>>,
    collapsed_folders: Seq<Seq<char>>,
    force_expanded: bool,
    flat: Seq<WorkspaceEntry>,
) -> Seq<SidebarEntry> {
    if snap.folders@.len() == 0 {
        flat.map_values(|e: WorkspaceEntry| SidebarEntry::Workspace { entry: e, foldered: false })
    } else {
        let start = SidebarProjection {
            rows: seq![],
            emitted: seq![],
            listed: Seq::new(snap.workspaces@.len(), |i: int| false),
        };
        let st = order_walk(snap, collapsed_groups, collapsed_folders, force_expanded, start, snap.space_order@);
        unlisted_walk(snap, collapsed_groups, force_expanded, st, st.listed, snap.workspaces@.len() as int).rows
    }
}

pub open spec fn ints(v: Seq<usize>) -> Seq<int> {
    v.map_values(|x: usize| x as int)
}

pub open spec fn projection(rows: Seq<SidebarEntry>, emitted: Seq<String>, listed: Seq<bool>) -> SidebarProjection {
    SidebarProjection { rows, emitted: strs(emitted), listed }
}

/// The indices of the workspaces of family `key`.
fn key_indices_exec(snapshot: &ClientShellSnapshot, key: &str) -> (r: Vec<usize>)
    ensures
        ints(r@) == key_indices(snapshot.workspaces@, key@),
        forall|k: int| 0 <= k < r@.len() ==> r@[k] < snapshot.workspaces@.len(),
{
    let ghost ws = snapshot.workspaces@;
    let mut r: Vec<usize> = Vec::new();
    let mut i: usize = 0;
    while i < snapshot.workspaces.len()
        invariant
            i <= ws.len(),
            ws == snapshot.workspaces@,
            ints(r@) == key_indices(ws.take(i as int), key@),
            forall|k: int| 0 <= k < r@.len() ==> r@[k] < i,
        decreases snapshot.workspaces.len() - i,
    {
        proof {
            assert(ws.take(i + 1).drop_last() =~= ws.take(i as int));
            assert(ws.take(i + 1).last() == ws[i as int]);
        }
        let hit = match &snapshot.workspaces[i].worktree {
            Some(t) => str_eq(t.key.as_str(), key),
            None => false,
        };
        if hit {
            let ghost before = r@;
            r.push(i);
            proof { assert(ints(r@) =~= ints(before).push(i as int)); }
        }
        i = i + 1;
    }
    proof { assert(ws.take(ws.len() as int) =~= ws); }
    r
}

fn is_parent_exec(snapshot: &ClientShellSnapshot, i: usize) -> (r: bool)
    requires
        i < snapshot.workspaces@.len(),
    ensures
        r == is_parent_at(snapshot.workspaces@, i as int),
{
    match &snapshot.workspaces[i].worktree {
        Some(t) => !t.is_linked_worktree,
        None => false,
    }
}

/// Whether the family with these members is drawn grouped, and its parent
/// (or `default`).
fn family_shape(snapshot: &ClientShellSnapshot, members: &Vec<usize>, default: usize) -> (r: (bool, usize))
    requires
        forall|k: int| 0 <= k < members@.len() ==> members@[k] < snapshot.workspaces@.len(),
    ensures
        r.0 == (members@.len() >= 2
            && exists|k: int| 0 <= k < members@.len() && is_parent_at(snapshot.workspaces@, #[trigger] ints(members@)[k])),
        r.1 as int == parent_of(snapshot.workspaces@, ints(members@), default as int),
{
    let ghost ws = snapshot.workspaces@;
    let ghost ms = ints(members@);
    let ghost p = |i: int| is_parent_at(ws, i);
    let mut i: usize = 0;
    while i < members.len()
        invariant
            i <= members@.len(),
            ws == snapshot.workspaces@,
            ms == ints(members@),
            p == (|i: int| is_parent_at(ws, i)),
            forall|k: int| 0 <= k < members@.len() ==> members@[k] < ws.len(),
            first_match(ms.take(i as int), p) is None,
            forall|k: int| 0 <= k < i ==> !is_parent_at(ws, #[trigger] ms[k]),
        decreases members.len() - i,
    {
        proof { lemma_step(ms, i as int, p); }
        if is_parent_exec(snapshot, members[i]) {
            proof {
                lemma_prefix_first(ms, i as int + 1, p);
                assert(is_parent_at(ws, ms[i as int]));
            }
            return (members.len() >= 2, members[i]);
        }
        i = i + 1;
    }
    proof { assert(ms.take(i as int) =~= ms); }
    (false, default)
}

/// Whether `key` is one of `keys`.
fn contains_key(keys: &Vec<String>, key: &str) -> (r: bool)
    ensures
        r == strs(keys@).contains(key@),
{
    crate::folder::contains_string(keys, key)
}

pub proof fn lemma_first_match_ext<A>(s: Seq<A>, p1: spec_fn(A) -> bool, p2: spec_fn(A) -> bool)
    requires
        forall|x: A| #[trigger] p1(x) == p2(x),
    ensures
        first_match(s, p1) == first_match(s, p2),
    decreases s.len(),
{
    if s.len() > 0 {
        lemma_first_match_ext(s.drop_last(), p1, p2);
        assert(p1(s.last()) == p2(s.last()));
    }
}

pub proof fn lemma_kept_ext<A>(s: Seq<A>, p1: spec_fn(A) -> bool, p2: spec_fn(A) -> bool)
    requires
        forall|x: A| #[trigger] p1(x) == p2(x),
    ensures
        kept(s, p1) == kept(s, p2),
    decreases s.len(),
{
    if s.len() > 0 {
        lemma_kept_ext(s.drop_last(), p1, p2);
        assert(p1(s.last()) == p2(s.last()));
    }
}

/// Draws workspace `index` (see `emit_spec`).
#[verifier::loop_isolation(false)]
fn emit_workspace(
    snapshot: &ClientShellSnapshot,
    collapsed_groups: &Vec<String>,
    force_expanded: bool,
    rows: &mut Vec<SidebarEntry>,
    emitted: &mut Vec<String>,
    index: usize,
    foldered: bool,
    Ghost(listed): Ghost<Seq<bool>>,
)
    ensures
        projection(final(rows)@, final(emitted)@, listed) == emit_spec(
            *snapshot, strs(collapsed_groups@), force_expanded, projection(old(rows)@, old(emitted)@, listed), index as int, foldered),
{
    let ghost ws = snapshot.workspaces@;
    let ghost st = projection(rows@, emitted@, listed);
    if index >= snapshot.workspaces.len() {
        return;
    }
    let plain = SidebarEntry::Workspace { entry: WorkspaceEntry { index, indented: false, last_child: false }, foldered };
    let key = match &snapshot.workspaces[index].worktree {
        Some(t) => &t.key,
        None => {
            rows.push(plain);
            proof { assert(projection(rows@, emitted@, listed) =~= emit_spec(*snapshot, strs(collapsed_groups@), force_expanded, st, index as int, foldered)); }
            return;
        },
    };
    let members = key_indices_exec(snapshot, key.as_str());
    let (is_grouped, parent) = family_shape(snapshot, &members, index);
    let ghost ms = ints(members@);
    if !is_grouped {
        rows.push(plain);
        proof { assert(projection(rows@, emitted@, listed) =~= emit_spec(*snapshot, strs(collapsed_groups@), force_expanded, st, index as int, foldered)); }
        return;
    }
    if contains_key(emitted, key.as_str()) {
        return;
    }
    let ghost emitted0 = emitted@;
    emitted.push(key.clone());
    proof { assert(strs(emitted@) =~= strs(emitted0).push(key@)); }
    rows.push(SidebarEntry::Workspace { entry: WorkspaceEntry { index: parent, indented: false, last_child: false }, foldered });
    let ghost rows1 = rows@;
    if !force_expanded && contains_key(collapsed_groups, key.as_str()) {
        let ghost q = |m: int| m != parent as int && ws[m].focused;
        proof {
            lemma_first_match_ext(ms, q, |m: int| m != parent_of(ws, ms, index as int) && ws[m].focused);
        }
        let mut i: usize = 0;
        while i < members.len()
            invariant
                i <= members@.len(),
                ms == ints(members@),
                ws == snapshot.workspaces@,
                q == (|m: int| m != parent as int && ws[m].focused),
                forall|k: int| 0 <= k < members@.len() ==> members@[k] < ws.len(),
                first_match(ms.take(i as int), q) is None,
                rows@ == rows1,
            decreases members.len() - i,
        {
            proof { lemma_step(ms, i as int, q); }
            let m = members[i];
            if m != parent && snapshot.workspaces[m].focused {
                proof { lemma_prefix_first(ms, i as int + 1, q); }
                rows.push(SidebarEntry::Workspace { entry: WorkspaceEntry { index: m, indented: true, last_child: true }, foldered });
                return;
            }
            i = i + 1;
        }
        proof { assert(ms.take(i as int) =~= ms); }
        return;
    }
    let ghost kp = |m: int| m != parent as int;
    proof { lemma_kept_ext(ms, kp, |m: int| m != parent_of(ws, ms, index as int)); }
    let mut children: Vec<usize> = Vec::new();
    let mut i: usize = 0;
    while i < members.len()
        invariant
            i <= members@.len(),
            ms == ints(members@),
            kp == (|m: int| m != parent as int),
            ints(children@) == kept(ms.take(i as int), kp),
            children@.len() <= i,
        decreases members.len() - i,
    {
        proof { lemma_step(ms, i as int, kp); }
        if members[i] != parent {
            let ghost c0 = children@;
            children.push(members[i]);
            proof { assert(ints(children@) =~= ints(c0).push(ms[i as int])); }
        }
        i = i + 1;
    }
    proof { assert(ms.take(members@.len() as int) =~= ms); }
    let ghost cs = ints(children@);
    let mut k: usize = 0;
    while k < children.len()
        invariant
            k <= children@.len(),
            cs == ints(children@),
            rows@ == rows1 + child_rows(cs, foldered).take(k as int),
        decreases children.len() - k,
    {
        rows.push(SidebarEntry::Workspace {
            entry: WorkspaceEntry { index: children[k], indented: true, last_child: k + 1 == children.len() },
            foldered,
        });
        proof {
            assert(child_rows(cs, foldered).take(k + 1) =~= child_rows(cs, foldered).take(k as int).push(child_rows(cs, foldered)[k as int]));
        }
        k = k + 1;
    }
    proof { assert(child_rows(cs, foldered).take(children@.len() as int) =~= child_rows(cs, foldered)); }
}

/// The last workspace with id `id`.
fn index_by_id_exec(snapshot: &ClientShellSnapshot, id: &str) -> (r: Option<usize>)
    ensures
        r matches Some(k) ==> k < snapshot.workspaces@.len() && index_by_id(*snapshot, id@) == Some(k as int),
        r is None ==> index_by_id(*snapshot, id@) is None,
{
    let ghost ws = snapshot.workspaces@;
    let ghost p = workspace_has_id(id@);
    let mut n: usize = snapshot.workspaces.len();
    proof { assert(ws.take(n as int) =~= ws); }
    while n > 0
        invariant
            n <= ws.len(),
            ws == snapshot.workspaces@,
            p == workspace_has_id(id@),
            last_match(ws.take(n as int), p) == last_match(ws, p),
        decreases n,
    {
        proof {
            assert(ws.take(n as int).drop_last() =~= ws.take(n - 1));
            assert(ws.take(n as int).last() == ws[n - 1]);
        }
        if str_eq(snapshot.workspaces[n - 1].workspace_id.as_str(), id) {
            return Some(n - 1);
        }
        n = n - 1;
    }
    None
}

/// Lists one referenced workspace (see `list_spec`).
#[verifier::loop_isolation(false)]
fn list_workspace(
    snapshot: &ClientShellSnapshot,
    collapsed_groups: &Vec<String>,
    force_expanded: bool,
    rows: &mut Vec<SidebarEntry>,
    emitted: &mut Vec<String>,
    listed: &mut Vec<bool>,
    id: &str,
    foldered: bool,
    hidden: bool,
)
    requires
        old(listed)@.len() == snapshot.workspaces@.len(),
    ensures
        final(listed)@.len() == snapshot.workspaces@.len(),
        projection(final(rows)@, final(emitted)@, final(listed)@) == list_spec(
            *snapshot, strs(collapsed_groups@), force_expanded, projection(old(rows)@, old(emitted)@, old(listed)@), id@, foldered, hidden),
{
    let index = match index_by_id_exec(snapshot, id) {
        Some(i) => i,
        None => return,
    };
    if listed[index] {
        return;
    }
    listed.set(index, true);
    if hidden {
        return;
    }
    emit_workspace(snapshot, collapsed_groups, force_expanded, rows, emitted, index, foldered, Ghost(listed@));
}

/// The spaces panel rows: folder members nested under their header, worktree
/// families hoisted at their parent, collapsed folders hiding their members.
/// Without folders the panel shows `flat_entries`, the workspace list's own
/// flat listing.
pub fn sidebar_entries(
    snapshot: &ClientShellSnapshot,
    collapsed_groups: &Vec<String>,
    collapsed_folders: &Vec<String>,
    force_expanded: bool,
    flat_entries: Vec<WorkspaceEntry>,
) -> (r: Vec<SidebarEntry>)
    ensures
        r@ == sidebar_spec(*snapshot, strs(collapsed_groups@), strs(collapsed_folders@), force_expanded, flat_entries@),
{
    let ghost cg = strs(collapsed_groups@);
    let ghost cf = strs(collapsed_folders@);
    if !has_folders(snapshot) {
        let mut r: Vec<SidebarEntry> = Vec::new();
        let mut i: usize = 0;
        while i < flat_entries.len()
            invariant
                i <= flat_entries@.len(),
                r@ == flat_entries@.take(i as int).map_values(|e: WorkspaceEntry| SidebarEntry::Workspace { entry: e, foldered: false }),
            decreases flat_entries.len() - i,
        {
            r.push(SidebarEntry::Workspace { entry: flat_entries[i], foldered: false });
            proof {
                assert(flat_entries@.take(i + 1).map_values(|e: WorkspaceEntry| SidebarEntry::Workspace { entry: e, foldered: false })
                    =~= flat_entries@.take(i as int).map_values(|e: WorkspaceEntry| SidebarEntry::Workspace { entry: e, foldered: false })
                        .push(SidebarEntry::Workspace { entry: flat_entries@[i as int], foldered: false }));
            }
            i = i + 1;
        }
        proof { assert(flat_entries@.take(flat_entries@.len() as int) =~= flat_entries@); }
        return r;
    }
    let mut rows: Vec<SidebarEntry> = Vec::new();
    let mut emitted: Vec<String> = Vec::new();
    let mut listed: Vec<bool> = Vec::new();
    let mut i: usize = 0;
    while i < snapshot.workspaces.len()
        invariant
            i <= snapshot.workspaces@.len(),
            listed@ == Seq::new(i as nat, |k: int| false),
        decreases snapshot.workspaces.len() - i,
    {
        listed.push(false);
        proof { assert(listed@ =~= Seq::new((i + 1) as nat, |k: int| false)); }
        i = i + 1;
    }
    let ghost start = projection(rows@, emitted@, listed@);
    proof { assert(strs(emitted@) =~= Seq::<Seq<char>>::empty()); }
    let ghost order = snapshot.space_order@;
    let mut j: usize = 0;
    while j < snapshot.space_order.len()
        invariant
            j <= order.len(),
            order == snapshot.space_order@,
            cg == strs(collapsed_groups@),
            cf == strs(collapsed_folders@),
            listed@.len() == snapshot.workspaces@.len(),
            projection(rows@, emitted@, listed@) == order_walk(*snapshot, cg, cf, force_expanded, start, order.take(j as int)),
        decreases snapshot.space_order.len() - j,
    {
        proof {
            assert(order.take(j + 1).drop_last() =~= order.take(j as int));
            assert(order.take(j + 1).last() == order[j as int]);
        }
        let ghost st = projection(rows@, emitted@, listed@);
        match &snapshot.space_order[j] {
            ClientShellSpaceOrderEntry::Workspace(id) => {
                list_workspace(snapshot, collapsed_groups, force_expanded, &mut rows, &mut emitted, &mut listed, id.as_str(), false, false);
            },
            ClientShellSpaceOrderEntry::Folder(folder_id) => {
                match folder_index_of(snapshot, folder_id.as_str()) {
                    None => {},
                    Some(fi) => {
                        rows.push(SidebarEntry::Folder { folder_index: fi });
                        let collapsed = !force_expanded && contains_key(collapsed_folders, folder_id.as_str());
                        let members = &snapshot.folders[fi].members;
                        let ghost ms = strs(members@);
                        let ghost st1 = projection(rows@, emitted@, listed@);
                        let mut k: usize = 0;
                        while k < members.len()
                            invariant
                                k <= members@.len(),
                                ms == strs(members@),
                                cg == strs(collapsed_groups@),
                                listed@.len() == snapshot.workspaces@.len(),
                                projection(rows@, emitted@, listed@) == members_spec(*snapshot, cg, force_expanded, st1, ms.take(k as int), collapsed),
                            decreases members.len() - k,
                        {
                            proof {
                                assert(ms.take(k + 1).drop_last() =~= ms.take(k as int));
                                assert(ms.take(k + 1).last() == members@[k as int]@);
                            }
                            list_workspace(snapshot, collapsed_groups, force_expanded, &mut rows, &mut emitted, &mut listed, members[k].as_str(), true, collapsed);
                            k = k + 1;
                        }
                        proof { assert(ms.take(members@.len() as int) =~= ms); }
                    },
                }
            },
            ClientShellSpaceOrderEntry::Unknown => {},
        }
        j = j + 1;
    }
    proof { assert(order.take(order.len() as int) =~= order); }
    let ghost after = projection(rows@, emitted@, listed@);
    let mut n: usize = 0;
    while n < listed.len()
        invariant
            n <= listed@.len(),
            listed@.len() == snapshot.workspaces@.len(),
            listed@ == after.listed,
            cg == strs(collapsed_groups@),
            projection(rows@, emitted@, after.listed) == unlisted_walk(*snapshot, cg, force_expanded, after, after.listed, n as int),
        decreases listed.len() - n,
    {
        if !listed[n] {
            emit_workspace(snapshot, collapsed_groups, force_expanded, &mut rows, &mut emitted, n, false, Ghost(after.listed));
        }
        n = n + 1;
    }
    rows
}

/// "Move to folder" targets as `(folder_id, name)`, in space order,
/// excluding the workspace's current folder.
pub open spec fn move_targets_spec(snap: ClientShellSnapshot, w: Seq<char>) -> Seq<(Seq<char>, Seq<char>)>
    decreases snap.space_order@.len(),
{
    move_targets_walk(snap, w, snap.space_order@)
}

pub open spec fn move_targets_walk(snap: ClientShellSnapshot, w: Seq<char>, order: Seq<ClientShellSpaceOrderEntry>) -> Seq<(Seq<char>, Seq<char>)>
    decreases order.len(),
{
    if order.len() == 0 {
        seq![]
    } else {
        let before = move_targets_walk(snap, w, order.drop_last());
        let current = match folder_of_workspace_pos(snap, w) {
            Some(i) => Some(snap.folders@[i].folder_id@),
            None => None,
        };
        match order.last() {
            ClientShellSpaceOrderEntry::Folder(fid) => if Some(fid@) != current {
                match folder_pos(snap, fid@) {
                    Some(fi) => before.push((snap.folders@[fi].folder_id@, snap.folders@[fi].name@)),
                    None => before,
                }
            } else {
                before
            },
            _ => before,
        }
    }
}

pub fn folder_move_targets(snapshot: &ClientShellSnapshot, workspace_id: &str) -> (r: Vec<(String, String)>)
    ensures
        r@.map_values(|t: (String, String)| (t.0@, t.1@)) == move_targets_spec(*snapshot, workspace_id@),
{
    let current: Option<&String> = match folder_of_workspace(snapshot, workspace_id) {
        Some(f) => Some(&f.folder_id),
        None => None,
    };
    let ghost order = snapshot.space_order@;
    let mut r: Vec<(String, String)> = Vec::new();
    let mut i: usize = 0;
    while i < snapshot.space_order.len()
        invariant
            i <= order.len(),
            order == snapshot.space_order@,
            match folder_of_workspace_pos(*snapshot, workspace_id@) {
                Some(k) => current matches Some(c) && c@ == snapshot.folders@[k].folder_id@,
                None => current is None,
            },
            r@.map_values(|t: (String, String)| (t.0@, t.1@)) == move_targets_walk(*snapshot, workspace_id@, order.take(i as int)),
        decreases snapshot.space_order.len() - i,
    {
        proof {
            assert(order.take(i + 1).drop_last() =~= order.take(i as int));
            assert(order.take(i + 1).last() == order[i as int]);
        }
        let ghost before = r@;
        if let ClientShellSpaceOrderEntry::Folder(folder_id) = &snapshot.space_order[i] {
            let is_current = match current {
                Some(c) => str_eq(c.as_str(), folder_id.as_str()),
                None => false,
            };
            if !is_current {
                if let Some(folder) = folder_by_id(snapshot, folder_id.as_str()) {
                    r.push((folder.folder_id.clone(), folder.name.clone()));
                    proof {
                        assert(r@.map_values(|t: (String, String)| (t.0@, t.1@))
                            =~= before.map_values(|t: (String, String)| (t.0@, t.1@)).push((folder.folder_id@, folder.name@)));
                    }
                }
            }
        }
        i = i + 1;
    }
    proof { assert(order.take(order.len() as int) =~= order); }
    r
}

/// The collapsed folder hiding `workspace_id`, if any.
pub fn collapsed_folder_containing<'a>(
    snapshot: &'a ClientShellSnapshot,
    collapsed_folders: &Vec<String>,
    workspace_id: &str,
) -> (r: Option<&'a ClientShellFolder>)
    ensures
        match folder_of_workspace_pos(*snapshot, workspace_id@) {
            Some(i) => if strs(collapsed_folders@).contains(snapshot.folders@[i].folder_id@) {
                r == Some(&snapshot.folders@[i])
            } else {
                r is None
            },
            None => r is None,
        },
{
    match folder_of_workspace(snapshot, workspace_id) {
        Some(folder) => if contains_key(collapsed_folders, folder.folder_id.as_str()) { Some(folder) } else { None },
        None => None,
    }
}

/// Highlight a collapsed folder header carries on behalf of its hidden members.
#[derive(Debug, Clone, Copy, PartialEq, Eq, Default)]
pub struct FolderHeaderHighlight {
    pub selected: bool,
    pub active: bool,
}

pub fn collapsed_folder_header_highlight(
    snapshot: &ClientShellSnapshot,
    folder: &ClientShellFolder,
    collapsed_folders: &Vec<String>,
    selected_workspace_id: Option<&str>,
) -> (r: FolderHeaderHighlight)
    ensures
        !strs(collapsed_folders@).contains(folder.folder_id@) ==> !r.selected && !r.active,
        strs(collapsed_folders@).contains(folder.folder_id@) ==> {
            &&& r.selected == (selected_workspace_id matches Some(s) && strs(folder.members@).contains(s@))
            &&& r.active == (snapshot.focused_workspace_id matches Some(f) && strs(folder.members@).contains(f@))
        },
{
    if !contains_key(collapsed_folders, folder.folder_id.as_str()) {
        return FolderHeaderHighlight { selected: false, active: false };
    }
    let selected = match selected_workspace_id {
        Some(s) => crate::folder::contains_string(&folder.members, s),
        None => false,
    };
    let active = match &snapshot.focused_workspace_id {
        Some(f) => crate::folder::contains_string(&folder.members, f.as_str()),
        None => false,
    };
    FolderHeaderHighlight { selected, active }
}

/// A folder header row's background.
#[derive(Clone, Copy, Debug, PartialEq, Eq)]
pub enum HeaderBackground {
    Plain,
    /// A hidden member is selected.
    Selected,
    /// The folder is being dragged.
    Dragged,
    /// A hidden member is the focused space.
    Active,
}

/// How a folder header's name is drawn.
#[derive(Clone, Copy, Debug, PartialEq, Eq)]
pub enum HeaderNameStyle {
    /// The drag would drop into this folder.
    DropTarget,
    Strong,
    Muted,
}

/// What a folder header row shows.
#[derive(Clone, Debug, PartialEq, Eq)]
pub struct FolderHeaderLook {
    pub background: HeaderBackground,
    pub name_style: HeaderNameStyle,
    /// The name, cut to fit after the three-column prefix.
    pub name: String,
    /// The chevron when the row has room for it: `true` for collapsed.
    pub chevron: Option<bool>,
}

/// Lays out a folder header in `rect` and records its hit area for
/// `endpoint_id`; an empty `rect` shows nothing. The chevron lines up with
/// loose cards' state icons, the name with their names.
pub fn place_folder_header(
    snapshot: &ClientShellSnapshot,
    folder: &ClientShellFolder,
    collapsed_folders: &Vec<String>,
    dragged_folder_id: Option<&str>,
    drop_into_folder_id: Option<&str>,
    selected_workspace_id: Option<&str>,
    rect: Rect,
    endpoint_id: &str,
    hits: &mut ShellHitMap,
) -> (r: Option<FolderHeaderLook>)
    ensures
        rect.width == 0 || rect.height == 0 ==> r is None && *final(hits) == *old(hits),
        !(rect.width == 0 || rect.height == 0) ==> {
            let collapsed = strs(collapsed_folders@).contains(folder.folder_id@);
            let selected = collapsed && (selected_workspace_id matches Some(s) && strs(folder.members@).contains(s@));
            let active = collapsed && (snapshot.focused_workspace_id matches Some(f) && strs(folder.members@).contains(f@));
            let dragged = dragged_folder_id matches Some(d) && d@ == folder.folder_id@;
            let drop_target = drop_into_folder_id matches Some(d) && d@ == folder.folder_id@;
            &&& r matches Some(look) && {
                &&& look.background == if selected {
                    HeaderBackground::Selected
                } else if dragged {
                    HeaderBackground::Dragged
                } else if active {
                    HeaderBackground::Active
                } else {
                    HeaderBackground::Plain
                }
                &&& look.name_style == if drop_target {
                    HeaderNameStyle::DropTarget
                } else if selected || active || dragged {
                    HeaderNameStyle::Strong
                } else {
                    HeaderNameStyle::Muted
                }
                &&& look.name@ == folder.name@.take(fitting(folder.name@, sat_sub(rect.width, 3) as int, 0, 0))
                &&& look.chevron == if rect.width >= 2 { Some(collapsed) } else { None }
            }
            &&& final(hits).workspace_body == old(hits).workspace_body
            &&& final(hits).new_workspace == old(hits).new_workspace
            &&& final(hits).workspaces == old(hits).workspaces
            &&& final(hits).folder_headers@.len() == old(hits).folder_headers@.len() + 1
            &&& forall|i: int| 0 <= i < old(hits).folder_headers@.len() ==> #[trigger] final(hits).folder_headers@[i] == old(hits).folder_headers@[i]
            &&& final(hits).folder_headers@.last().rect == rect
            &&& final(hits).folder_headers@.last().endpoint_id@ == endpoint_id@
            &&& final(hits).folder_headers@.last().folder_id@ == folder.folder_id@
        },
{
    if rect.width == 0 || rect.height == 0 {
        return None;
    }
    let collapsed = contains_key(collapsed_folders, folder.folder_id.as_str());
    let highlight = collapsed_folder_header_highlight(snapshot, folder, collapsed_folders, selected_workspace_id);
    let dragged = match dragged_folder_id {
        Some(d) => str_eq(d, folder.folder_id.as_str()),
        None => false,
    };
    let drop_target = match drop_into_folder_id {
        Some(d) => str_eq(d, folder.folder_id.as_str()),
        None => false,
    };
    let background = if highlight.selected {
        HeaderBackground::Selected
    } else if dragged {
        HeaderBackground::Dragged
    } else if highlight.active {
        HeaderBackground::Active
    } else {
        HeaderBackground::Plain
    };
    let name_style = if drop_target {
        HeaderNameStyle::DropTarget
    } else if highlight.selected || highlight.active || dragged {
        HeaderNameStyle::Strong
    } else {
        HeaderNameStyle::Muted
    };
    let name = truncate_end(folder.name.as_str(), rect.width.saturating_sub(3) as usize);
    let chevron = if rect.width >= 2 { Some(collapsed) } else { None };
    let ghost before = hits.folder_headers@;
    hits.folder_headers.push(FolderHit { rect, endpoint_id: endpoint_id.to_owned(), folder_id: folder.folder_id.clone() });
    Some(FolderHeaderLook { background, name_style, name, chevron })
}

/// The workspace rows among sidebar rows.
pub open spec fn workspace_rows(rows: Seq<SidebarEntry>) -> Seq<WorkspaceEntry>
    decreases rows.len(),
{
    if rows.len() == 0 {
        seq![]
    } else {
        workspace_rows(rows.drop_last()) + match rows.last() {
            SidebarEntry::Workspace { entry, .. } => seq![entry],
            SidebarEntry::Folder { .. } => seq![],
        }
    }
}

fn workspace_rows_exec(rows: &Vec<SidebarEntry>) -> (r: Vec<WorkspaceEntry>)
    ensures
        r@ == workspace_rows(rows@),
{
    let mut r: Vec<WorkspaceEntry> = Vec::new();
    let mut i: usize = 0;
    while i < rows.len()
        invariant
            i <= rows@.len(),
            r@ == workspace_rows(rows@.take(i as int)),
        decreases rows.len() - i,
    {
        proof {
            assert(rows@.take(i + 1).drop_last() =~= rows@.take(i as int));
            assert(rows@.take(i + 1).last() == rows@[i as int]);
        }
        let ghost before = r@;
        match rows[i] {
            SidebarEntry::Workspace { entry, .. } => {
                r.push(entry);
                proof { assert(r@ =~= before + seq![entry]); }
            },
            SidebarEntry::Folder { .. } => {
                proof { assert(before + Seq::<WorkspaceEntry>::empty() =~= before); }
            },
        }
        i = i + 1;
    }
    proof { assert(rows@.take(rows@.len() as int) =~= rows@); }
    r
}

/// The visible workspace rows, in panel order.
pub fn visible_workspace_entries(
    snapshot: &ClientShellSnapshot,
    collapsed_groups: &Vec<String>,
    collapsed_folders: &Vec<String>,
    flat_entries: Vec<WorkspaceEntry>,
) -> (r: Vec<WorkspaceEntry>)
    ensures
        r@ == workspace_rows(sidebar_spec(*snapshot, strs(collapsed_groups@), strs(collapsed_folders@), false, flat_entries@)),
{
    let rows = sidebar_entries(snapshot, collapsed_groups, collapsed_folders, false, flat_entries);
    workspace_rows_exec(&rows)
}

/// The workspaces of `rows` whose index is in range, each with its rank
/// among all the rows.
pub open spec fn rank_pairs(snap: ClientShellSnapshot, rows: Seq<WorkspaceEntry>) -> Seq<(Seq<char>, usize)>
    decreases rows.len(),
{
    if rows.len() == 0 {
        seq![]
    } else {
        let before = rank_pairs(snap, rows.drop_last());
        let e = rows.last();
        if e.index < snap.workspaces@.len() {
            before.push((snap.workspaces@[e.index as int].workspace_id@, (rows.len() - 1) as usize))
        } else {
            before
        }
    }
}

pub open spec fn pairs_view(v: Seq<(String, usize)>) -> Seq<(Seq<char>, usize)> {
    v.map_values(|p: (String, usize)| (p.0@, p.1))
}

/// Each workspace's rank in the fully expanded spaces panel order, as
/// `(workspace_id, rank)` in that order.
pub fn expanded_workspace_ranks(snapshot: &ClientShellSnapshot, flat_entries: Vec<WorkspaceEntry>) -> (r: Vec<(String, usize)>)
    ensures
        pairs_view(r@) == rank_pairs(*snapshot, workspace_rows(sidebar_spec(*snapshot, seq![], seq![], true, flat_entries@))),
{
    let no_keys: Vec<String> = Vec::new();
    proof { assert(strs(no_keys@) =~= Seq::<Seq<char>>::empty()); }
    let rows = sidebar_entries(snapshot, &no_keys, &no_keys, true, flat_entries);
    let entries = workspace_rows_exec(&rows);
    let mut r: Vec<(String, usize)> = Vec::new();
    let mut i: usize = 0;
    while i < entries.len()
        invariant
            i <= entries@.len(),
            pairs_view(r@) == rank_pairs(*snapshot, entries@.take(i as int)),
        decreases entries.len() - i,
    {
        proof {
            assert(entries@.take(i + 1).drop_last() =~= entries@.take(i as int));
            assert(entries@.take(i + 1).last() == entries@[i as int]);
        }
        let e = entries[i];
        if e.index < snapshot.workspaces.len() {
            let ghost before = r@;
            r.push((snapshot.workspaces[e.index].workspace_id.clone(), i));
            proof { assert(pairs_view(r@) =~= pairs_view(before).push((snapshot.workspaces@[e.index as int].workspace_id@, i))); }
        }
        i = i + 1;
    }
    proof { assert(entries@.take(entries@.len() as int) =~= entries@); }
    r
}

/// The number of visible spaces above the folder header at `folder_index`.
pub open spec fn visible_before_folder(rows: Seq<SidebarEntry>, snap: ClientShellSnapshot, fid: Seq<char>) -> Option<int>
    decreases rows.len(),
{
    if rows.len() == 0 {
        None
    } else {
        match visible_before_folder(rows.drop_last(), snap, fid) {
            Some(n) => Some(n),
            None => match rows.last() {
                SidebarEntry::Folder { folder_index } => if 0 <= folder_index < snap.folders@.len()
                    && snap.folders@[folder_index as int].folder_id@ == fid {
                    Some(workspace_rows(rows.drop_last()).len() as int)
                } else {
                    None
                },
                SidebarEntry::Workspace { .. } => None,
            },
        }
    }
}

/// Number of visible spaces above the collapsed folder hiding `workspace_id`.
#[verifier::loop_isolation(false)]
pub fn folder_hidden_gap_position(
    snapshot: &ClientShellSnapshot,
    collapsed_groups: &Vec<String>,
    collapsed_folders: &Vec<String>,
    workspace_id: &str,
    flat_entries: Vec<WorkspaceEntry>,
) -> (r: Option<usize>)
    ensures
        match folder_of_workspace_pos(*snapshot, workspace_id@) {
            Some(i) => if strs(collapsed_folders@).contains(snapshot.folders@[i].folder_id@) {
                match visible_before_folder(
                    sidebar_spec(*snapshot, strs(collapsed_groups@), strs(collapsed_folders@), false, flat_entries@),
                    *snapshot, snapshot.folders@[i].folder_id@) {
                    Some(n) => r == Some(n as usize) && n == r->Some_0 as int,
                    None => r is None,
                }
            } else {
                r is None
            },
            None => r is None,
        },
{
    let folder = match collapsed_folder_containing(snapshot, collapsed_folders, workspace_id) {
        Some(f) => f,
        None => return None,
    };
    let ghost flat = flat_entries@;
    let rows = sidebar_entries(snapshot, collapsed_groups, collapsed_folders, false, flat_entries);
    let ghost fid = folder.folder_id@;
    let mut visible_before: usize = 0;
    let mut i: usize = 0;
    while i < rows.len()
        invariant
            i <= rows@.len(),
            fid == folder.folder_id@,
            flat == flat_entries@,
            rows@ == sidebar_spec(*snapshot, strs(collapsed_groups@), strs(collapsed_folders@), false, flat),
            visible_before_folder(rows@.take(i as int), *snapshot, fid) is None,
            visible_before as int == workspace_rows(rows@.take(i as int)).len(),
            visible_before <= i,
        decreases rows.len() - i,
    {
        proof {
            assert(rows@.take(i + 1).drop_last() =~= rows@.take(i as int));
            assert(rows@.take(i + 1).last() == rows@[i as int]);
        }
        match rows[i] {
            SidebarEntry::Folder { folder_index } => {
                if folder_index < snapshot.folders.len()
                    && str_eq(snapshot.folders[folder_index].folder_id.as_str(), folder.folder_id.as_str()) {
                    proof {
                        lemma_visible_before_prefix(rows@, i as int + 1, *snapshot, fid);
                    }
                    return Some(visible_before);
                }
            },
            SidebarEntry::Workspace { .. } => {
                visible_before = visible_before + 1;
            },
        }
        i = i + 1;
    }
    proof { assert(rows@.take(i as int) =~= rows@); }
    None
}

proof fn lemma_visible_before_prefix(rows: Seq<SidebarEntry>, k: int, snap: ClientShellSnapshot, fid: Seq<char>)
    requires
        0 <= k <= rows.len(),
        visible_before_folder(rows.take(k), snap, fid) is Some,
    ensures
        visible_before_folder(rows, snap, fid) == visible_before_folder(rows.take(k), snap, fid),
    decreases rows.len() - k,
{
    if k < rows.len() {
        assert(rows.take(k + 1).drop_last() =~= rows.take(k));
        lemma_visible_before_prefix(rows, k + 1, snap, fid);
    } else {
        assert(rows.take(k) =~= rows);
    }
}

/// The gap below sidebar row `index`: none above an indented child or
/// between a folder header and its first member, else `row_gap`.
pub fn sidebar_entry_gap(entries: &Vec<SidebarEntry>, index: usize, row_gap: u16) -> (r: u16)
    ensures
        r == if index as int + 1 >= entries@.len() {
            0
        } else {
            let next = entries@[index + 1];
            if next matches SidebarEntry::Workspace { entry, .. } && entry.indented {
                0
            } else if entries@[index as int] is Folder && next matches SidebarEntry::Workspace { foldered: true, .. } {
                0
            } else {
                row_gap
            }
        },
{
    if index >= entries.len() || index + 1 >= entries.len() {
        return 0;
    }
    let next = entries[index + 1];
    if next.is_indented_workspace() {
        return 0;
    }
    let header = match entries[index] {
        SidebarEntry::Folder { .. } => true,
        _ => false,
    };
    let foldered_next = match next {
        SidebarEntry::Workspace { foldered, .. } => foldered,
        _ => false,
    };
    if header && foldered_next {
        return 0;
    }
    row_gap
}

/// Columns left of the agents panel headers.
pub const AGENT_PANEL_HEADER_GUTTER: u16 = 1;

/// Column of a space header's chevron in the agents panel.
pub fn space_header_chevron_indent(indented: bool, foldered: bool) -> (r: u16)
    ensures
        r == AGENT_PANEL_HEADER_GUTTER + (if foldered { 2int } else { 0 }) + (if indented { 6int } else { 0 }),
{
    AGENT_PANEL_HEADER_GUTTER + if foldered { 2 } else { 0 } + if indented { 6 } else { 0 }
}

/// Width of a space header's prefix: its chevron and a space.
pub fn space_header_prefix_width(indented: bool, foldered: bool) -> (r: u16)
    ensures
        r == AGENT_PANEL_HEADER_GUTTER + (if foldered { 2int } else { 0 }) + (if indented { 6int } else { 0 }) + 2,
{
    space_header_chevron_indent(indented, foldered) + 2
}

/// Indent of a space's agent rows.
pub fn space_header_agent_indent(indented: bool, foldered: bool) -> (r: u16)
    ensures
        r == AGENT_PANEL_HEADER_GUTTER + (if foldered { 2int } else { 0 }) + (if indented { 6int } else { 0 }) + 1,
{
    space_header_chevron_indent(indented, foldered) + 1
}

/// The ids of a list, as a set.
pub open spec fn set_of(v: Seq<String>) -> Set<Seq<char>> {
    strs(v).to_set()
}

/// One endpoint's collapse state. Folder and workspace ids are server-scoped,
/// so each endpoint keeps its own. Each list holds an id at most once.
#[derive(Clone, Debug, PartialEq, Eq)]
pub struct FolderCollapseState {
    /// Collapsed folders, shared by the spaces and agents panels.
    pub folders: Vec<String>,
    /// Spaces whose agent list is collapsed in the agents panel folder view.
    pub agent_spaces: Vec<String>,
}

/// What the client preferences store for one endpoint.
#[derive(Clone, Debug, PartialEq, Eq)]
pub struct FolderCollapsePreferences {
    pub collapsed_folders: Vec<String>,
    pub collapsed_agent_spaces: Vec<String>,
}

/// The storage key of the local endpoint.
pub open spec fn local_key() -> Seq<char> {
    "local"@
}

impl FolderCollapseState {
    pub open spec fn wf(self) -> bool {
        strs(self.folders@).no_duplicates() && strs(self.agent_spaces@).no_duplicates()
    }

    pub fn is_empty(&self) -> (r: bool)
        ensures
            r == (self.folders@.len() == 0 && self.agent_spaces@.len() == 0),
    {
        self.folders.len() == 0 && self.agent_spaces.len() == 0
    }
}

/// The stored collapse sets for endpoint `key`.
pub open spec fn stored_sets(per: Seq<(String, FolderCollapsePreferences)>, key: Seq<char>) -> (Set<Seq<char>>, Set<Seq<char>>) {
    match first_match(per, pref_key_is(key)) {
        Some(i) => (set_of(per[i].1.collapsed_folders@), set_of(per[i].1.collapsed_agent_spaces@)),
        None => (Set::empty(), Set::empty()),
    }
}

/// Endpoint `key`'s collapse sets once loaded: what was stored for it, and
/// for the local endpoint the legacy flat lists too.
pub open spec fn loaded_sets(
    per: Seq<(String, FolderCollapsePreferences)>,
    legacy_folders: Seq<String>,
    legacy_agent_spaces: Seq<String>,
    key: Seq<char>,
) -> (Set<Seq<char>>, Set<Seq<char>>) {
    let (f, a) = stored_sets(per, key);
    if key == local_key() {
        (f + set_of(legacy_folders), a + set_of(legacy_agent_spaces))
    } else {
        (f, a)
    }
}

/// The keys of a collapse map.
pub open spec fn map_keys(m: Seq<(String, FolderCollapseState)>) -> Seq<Seq<char>> {
    m.map_values(|e: (String, FolderCollapseState)| e.0@)
}

/// A collapse map holds, for each endpoint with anything collapsed and
/// only for those, its sets as loaded.
pub open spec fn loaded_map(
    m: Seq<(String, FolderCollapseState)>,
    per: Seq<(String, FolderCollapsePreferences)>,
    legacy_folders: Seq<String>,
    legacy_agent_spaces: Seq<String>,
) -> bool {
    &&& map_keys(m).no_duplicates()
    &&& forall|i: int| 0 <= i < m.len() ==> {
        let e = #[trigger] m[i];
        &&& e.1.wf()
        &&& !(e.1.folders@.len() == 0 && e.1.agent_spaces@.len() == 0)
        &&& (set_of(e.1.folders@), set_of(e.1.agent_spaces@)) == loaded_sets(per, legacy_folders, legacy_agent_spaces, e.0@)
    }
    &&& forall|k: Seq<char>| #![trigger loaded_sets(per, legacy_folders, legacy_agent_spaces, k)]
        !(loaded_sets(per, legacy_folders, legacy_agent_spaces, k).0.is_empty()
            && loaded_sets(per, legacy_folders, legacy_agent_spaces, k).1.is_empty())
        ==> map_keys(m).contains(k)
}

/// The ids of `v`, each once, in first-seen order.
fn set_vec(v: &Vec<String>) -> (r: Vec<String>)
    ensures
        strs(r@).no_duplicates(),
        set_of(r@) == set_of(v@),
{
    let mut r: Vec<String> = Vec::new();
    extend_set(&mut r, v);
    proof { assert(set_of(Seq::<String>::empty()) + set_of(v@) =~= set_of(v@)); }
    r
}

/// Adds the ids of `more` missing from `target`.
fn extend_set(target: &mut Vec<String>, more: &Vec<String>)
    requires
        strs(old(target)@).no_duplicates(),
    ensures
        strs(final(target)@).no_duplicates(),
        set_of(final(target)@) == set_of(old(target)@) + set_of(more@),
{
    let ghost start = set_of(target@);
    let ghost ms = strs(more@);
    let mut i: usize = 0;
    while i < more.len()
        invariant
            i <= more@.len(),
            ms == strs(more@),
            strs(target@).no_duplicates(),
            set_of(target@) == start + ms.take(i as int).to_set(),
        decreases more.len() - i,
    {
        let ghost t0 = strs(target@);
        proof { assert(ms.take(i + 1) =~= ms.take(i as int).push(ms[i as int])); }
        if !crate::folder::contains_string(target, more[i].as_str()) {
            target.push(more[i].clone());
            proof {
                assert(strs(target@) =~= t0.push(more@[i as int]@));
                assert forall|a: int, b: int| 0 <= a < b < strs(target@).len() implies strs(target@)[a] != strs(target@)[b] by {
                    if b == t0.len() {
                        assert(t0.contains(t0[a]));
                    }
                }
                t0.lemma_push_to_set_commute(ms[i as int]);
            }
        } else {
            proof {
                assert(t0.contains(ms[i as int]));
                assert(t0.to_set().insert(ms[i as int]) =~= t0.to_set());
            }
        }
        proof {
            ms.take(i as int).lemma_push_to_set_commute(ms[i as int]);
            assert(set_of(target@) =~= start + ms.take(i + 1).to_set());
        }
        i = i + 1;
    }
    proof { assert(ms.take(more@.len() as int) =~= ms); }
}

/// Whether stored preferences are for endpoint `key`.
pub open spec fn pref_key_is(key: Seq<char>) -> spec_fn((String, FolderCollapsePreferences)) -> bool {
    |e: (String, FolderCollapsePreferences)| e.0@ == key
}

/// The endpoint keys of stored preferences.
pub open spec fn pref_keys(per: Seq<(String, FolderCollapsePreferences)>) -> Seq<Seq<char>> {
    per.map_values(|e: (String, FolderCollapsePreferences)| e.0@)
}

proof fn lemma_stored_at(per: Seq<(String, FolderCollapsePreferences)>, j: int)
    requires
        pref_keys(per).no_duplicates(),
        0 <= j < per.len(),
    ensures
        stored_sets(per, per[j].0@) == (set_of(per[j].1.collapsed_folders@), set_of(per[j].1.collapsed_agent_spaces@)),
{
    let p = pref_key_is(per[j].0@);
    lemma_first_match(per, p);
    match first_match(per, p) {
        Some(i) => {
            assert(pref_keys(per)[i] == pref_keys(per)[j]);
        },
        None => {
            assert(p(per[j]));
        },
    }
}

proof fn lemma_stored_absent(per: Seq<(String, FolderCollapsePreferences)>, k: Seq<char>)
    requires
        !pref_keys(per).contains(k),
    ensures
        stored_sets(per, k) == (Set::<Seq<char>>::empty(), Set::<Seq<char>>::empty()),
{
    let p = pref_key_is(k);
    lemma_first_match(per, p);
    if let Some(i) = first_match(per, p) {
        assert(pref_keys(per)[i] == k);
        assert(pref_keys(per).contains(k));
    }
}

proof fn lemma_set_of_empty(v: Seq<String>)
    requires
        v.len() == 0,
    ensures
        set_of(v) == Set::<Seq<char>>::empty(),
{
    assert(set_of(v) =~= Set::<Seq<char>>::empty());
}

proof fn lemma_set_of_nonempty(v: Seq<String>)
    requires
        !set_of(v).is_empty(),
    ensures
        v.len() > 0,
{
    if v.len() == 0 {
        lemma_set_of_empty(v);
    }
}

impl FolderCollapseState {
    /// Load from preferences; the legacy flat fields fold into the local
    /// endpoint's entry. Endpoints with nothing collapsed get no entry.
    pub fn from_preferences(
        per_endpoint: Vec<(String, FolderCollapsePreferences)>,
        legacy_folders: Vec<String>,
        legacy_agent_spaces: Vec<String>,
    ) -> (r: Vec<(String, FolderCollapseState)>)
        requires
            pref_keys(per_endpoint@).no_duplicates(),
        ensures
            loaded_map(r@, per_endpoint@, legacy_folders@, legacy_agent_spaces@),
    {
        let ghost per = per_endpoint@;
        let ghost lf = legacy_folders@;
        let ghost la = legacy_agent_spaces@;
        let mut map: Vec<(String, FolderCollapseState)> = Vec::new();
        let mut i: usize = 0;
        while i < per_endpoint.len()
            invariant
                i <= per.len(),
                per == per_endpoint@,
                map@.len() == i,
                forall|j: int| 0 <= j < i ==> {
                    let e = #[trigger] map@[j];
                    &&& e.0@ == per[j].0@
                    &&& e.1.wf()
                    &&& set_of(e.1.folders@) == set_of(per[j].1.collapsed_folders@)
                    &&& set_of(e.1.agent_spaces@) == set_of(per[j].1.collapsed_agent_spaces@)
                },
            decreases per_endpoint.len() - i,
        {
            let folders = set_vec(&per_endpoint[i].1.collapsed_folders);
            let agent_spaces = set_vec(&per_endpoint[i].1.collapsed_agent_spaces);
            map.push((per_endpoint[i].0.clone(), FolderCollapseState { folders, agent_spaces }));
            i = i + 1;
        }
        proof {
            assert(map_keys(map@) =~= pref_keys(per));
            assert forall|j: int| 0 <= j < map@.len() implies {
                let e = #[trigger] map@[j];
                &&& e.1.wf()
                &&& (set_of(e.1.folders@), set_of(e.1.agent_spaces@)) == stored_sets(per, e.0@)
            } by {
                lemma_stored_at(per, j);
            }
        }
        let legacy = legacy_folders.len() > 0 || legacy_agent_spaces.len() > 0;
        proof {
            if !legacy {
                lemma_set_of_empty(lf);
                lemma_set_of_empty(la);
            }
            reveal_strlit("local");
        }
        // Every entry holds its loaded sets, except that the local entry may
        // still lack the legacy lists when they are not empty.
        if legacy {
            let mut found: Option<usize> = None;
            let mut k: usize = 0;
            while k < map.len()
                invariant_except_break
                    found is None,
                invariant
                    k <= map@.len(),
                    forall|j: int| 0 <= j < k ==> map@[j].0@ != local_key(),
                    found matches Some(x) ==> x < map@.len() && map@[x as int].0@ == local_key(),
                ensures
                    found matches Some(x) ==> x < map@.len() && map@[x as int].0@ == local_key(),
                    found is None ==> forall|j: int| 0 <= j < map@.len() ==> map@[j].0@ != local_key(),
                decreases map.len() - k,
            {
                if crate::text::str_eq(map[k].0.as_str(), "local") {
                    found = Some(k);
                    break;
                }
                k = k + 1;
            }
            match found {
                Some(x) => {
                    let ghost before = map@;
                    let (key, mut state) = map.remove(x);
                    extend_set(&mut state.folders, &legacy_folders);
                    extend_set(&mut state.agent_spaces, &legacy_agent_spaces);
                    map.insert(x, (key, state));
                    proof {
                        assert(map_keys(map@) =~= map_keys(before));
                        assert(map_keys(map@)[x as int] == local_key());
                        assert(map_keys(map@).contains(local_key()));
                        assert forall|j: int| 0 <= j < map@.len() implies {
                            let e = #[trigger] map@[j];
                            &&& e.1.wf()
                            &&& (set_of(e.1.folders@), set_of(e.1.agent_spaces@)) == loaded_sets(per, lf, la, e.0@)
                        } by {
                            if j != x {
                                assert(map@[j] == before[j]);
                                assert(map_keys(before)[j] != map_keys(before)[x as int]);
                            }
                        }
                    }
                },
                None => {
                    let ghost before = map@;
                    let folders = set_vec(&legacy_folders);
                    let agent_spaces = set_vec(&legacy_agent_spaces);
                    map.push(("local".to_owned(), FolderCollapseState { folders, agent_spaces }));
                    proof {
                        assert(!map_keys(before).contains(local_key()));
                        assert(map_keys(map@) =~= map_keys(before).push(local_key()));
                        assert(map_keys(map@)[before.len() as int] == local_key());
                        assert(map_keys(map@).contains(local_key()));
                        assert(pref_keys(per) =~= map_keys(before));
                        lemma_stored_absent(per, local_key());
                        assert(Set::<Seq<char>>::empty() + set_of(lf) =~= set_of(lf));
                        assert(Set::<Seq<char>>::empty() + set_of(la) =~= set_of(la));
                        assert forall|a: int, b: int| 0 <= a < b < map_keys(map@).len()
                            implies map_keys(map@)[a] != map_keys(map@)[b] by {
                            if b == before.len() {
                                assert(map_keys(before).contains(map_keys(before)[a]));
                            }
                        }
                        assert forall|j: int| 0 <= j < map@.len() implies {
                            let e = #[trigger] map@[j];
                            &&& e.1.wf()
                            &&& (set_of(e.1.folders@), set_of(e.1.agent_spaces@)) == loaded_sets(per, lf, la, e.0@)
                        } by {
                            if j < before.len() {
                                assert(map@[j] == before[j]);
                            }
                        }
                    }
                },
            }
        } else {
            proof {
                assert(Set::<Seq<char>>::empty() + Set::<Seq<char>>::empty() =~= Set::<Seq<char>>::empty());
                assert forall|j: int| 0 <= j < map@.len() implies {
                    let e = #[trigger] map@[j];
                    &&& e.1.wf()
                    &&& (set_of(e.1.folders@), set_of(e.1.agent_spaces@)) == loaded_sets(per, lf, la, e.0@)
                } by {
                    let (f, a) = stored_sets(per, map@[j].0@);
                    assert(f + set_of(lf) =~= f);
                    assert(a + set_of(la) =~= a);
                }
            }
        }
        // Every endpoint with something loaded has an entry.
        proof {
            assert(forall|y: int| 0 <= y < per.len() ==> #[trigger] map_keys(map@)[y] == pref_keys(per)[y]);
            assert(map@.len() >= per.len());
            assert(legacy ==> map_keys(map@).contains(local_key()));
            assert forall|key: Seq<char>| #![trigger loaded_sets(per, lf, la, key)]
                !(loaded_sets(per, lf, la, key).0.is_empty() && loaded_sets(per, lf, la, key).1.is_empty())
                implies map_keys(map@).contains(key) by {
                if pref_keys(per).contains(key) {
                    let y = choose|y: int| 0 <= y < per.len() && pref_keys(per)[y] == key;
                    assert(map_keys(map@)[y] == key);
                } else {
                    lemma_stored_absent(per, key);
                    if key != local_key() {
                        assert(loaded_sets(per, lf, la, key).0 =~= Set::<Seq<char>>::empty());
                        assert(loaded_sets(per, lf, la, key).1 =~= Set::<Seq<char>>::empty());
                    } else if !legacy {
                        assert(loaded_sets(per, lf, la, key).0 =~= Set::<Seq<char>>::empty());
                        assert(loaded_sets(per, lf, la, key).1 =~= Set::<Seq<char>>::empty());
                    }
                }
            }
        }
        let ghost full = map@;
        let mut out: Vec<(String, FolderCollapseState)> = Vec::new();
        let mut j: usize = 0;
        while j < map.len()
            invariant
                j <= full.len(),
                map@ == full,
                map_keys(full).no_duplicates(),
                forall|x: int| 0 <= x < full.len() ==> {
                    let e = #[trigger] full[x];
                    &&& e.1.wf()
                    &&& (set_of(e.1.folders@), set_of(e.1.agent_spaces@)) == loaded_sets(per, lf, la, e.0@)
                },
                map_keys(out@).no_duplicates(),
                forall|x: int| 0 <= x < out@.len() ==> {
                    let e = #[trigger] out@[x];
                    &&& e.1.wf()
                    &&& !(e.1.folders@.len() == 0 && e.1.agent_spaces@.len() == 0)
                    &&& (set_of(e.1.folders@), set_of(e.1.agent_spaces@)) == loaded_sets(per, lf, la, e.0@)
                },
                forall|key: Seq<char>| map_keys(out@).contains(key) ==> map_keys(full.take(j as int)).contains(key),
                forall|x: int| 0 <= x < j && !(full[x].1.folders@.len() == 0 && full[x].1.agent_spaces@.len() == 0)
                    ==> map_keys(out@).contains(#[trigger] full[x].0@),
            decreases map.len() - j,
        {
            let ghost o0 = out@;
            if !map[j].1.is_empty() {
                let entry = (map[j].0.clone(), FolderCollapseState {
                    folders: clone_ids(&map[j].1.folders),
                    agent_spaces: clone_ids(&map[j].1.agent_spaces),
                });
                out.push(entry);
                proof {
                    assert(map_keys(out@) =~= map_keys(o0).push(full[j as int].0@));
                    if map_keys(o0).contains(full[j as int].0@) {
                        let y = choose|y: int| 0 <= y < j && map_keys(full.take(j as int))[y] == full[j as int].0@;
                        assert(map_keys(full)[y] == map_keys(full)[j as int]);
                    }
                    assert forall|a: int, b: int| 0 <= a < b < map_keys(out@).len()
                        implies map_keys(out@)[a] != map_keys(out@)[b] by {
                        if b == o0.len() {
                            assert(map_keys(o0).contains(map_keys(o0)[a]));
                        }
                    }
                }
            }
            proof {
                assert forall|key: Seq<char>| map_keys(out@).contains(key) implies map_keys(full.take(j + 1)).contains(key) by {
                    if map_keys(o0).contains(key) {
                        let y = choose|y: int| 0 <= y < j && map_keys(full.take(j as int))[y] == key;
                        assert(map_keys(full.take(j + 1))[y] == key);
                    } else {
                        assert(map_keys(full.take(j + 1))[j as int] == key);
                    }
                }
                assert forall|x: int| 0 <= x < j + 1 && !(full[x].1.folders@.len() == 0 && full[x].1.agent_spaces@.len() == 0)
                    implies map_keys(out@).contains(#[trigger] full[x].0@) by {
                    if x < j {
                        assert(map_keys(o0).contains(full[x].0@));
                        let y = choose|y: int| 0 <= y < o0.len() && map_keys(o0)[y] == full[x].0@;
                        assert(map_keys(out@)[y] == full[x].0@);
                    } else {
                        assert(map_keys(out@)[out@.len() - 1] == full[x].0@);
                    }
                }
            }
            j = j + 1;
        }
        proof {
            assert forall|key: Seq<char>| #![trigger loaded_sets(per, lf, la, key)]
                !(loaded_sets(per, lf, la, key).0.is_empty() && loaded_sets(per, lf, la, key).1.is_empty())
                implies map_keys(out@).contains(key) by {
                assert(map_keys(full).contains(key));
                let x = choose|x: int| 0 <= x < full.len() && map_keys(full)[x] == key;
                let e = full[x];
                if !loaded_sets(per, lf, la, key).0.is_empty() {
                    lemma_set_of_nonempty(e.1.folders@);
                } else {
                    lemma_set_of_nonempty(e.1.agent_spaces@);
                }
            }
        }
        out
    }
}

/// A copy of a list of ids.
fn clone_ids(v: &Vec<String>) -> (r: Vec<String>)
    ensures
        r@ == v@,
{
    let mut r: Vec<String> = Vec::new();
    let mut i: usize = 0;
    while i < v.len()
        invariant
            i <= v@.len(),
            r@ == v@.take(i as int),
        decreases v.len() - i,
    {
        r.push(v[i].clone());
        proof { assert(r@ =~= v@.take(i + 1)); }
        i = i + 1;
    }
    proof { assert(v@.take(v@.len() as int) =~= v@); }
    r
}

/// The folder collapse fields of the client preferences.
#[derive(Clone, Debug, PartialEq, Eq)]
pub struct CollapsePreferences {
    /// Per-endpoint collapse state, by endpoint storage key (unique keys).
    pub folder_collapse: Vec<(String, FolderCollapsePreferences)>,
    /// Legacy flat fields, from before collapse state was per endpoint.
    pub collapsed_folders: Vec<String>,
    pub collapsed_agent_spaces: Vec<String>,
}

/// Whether a collapse map entry is for endpoint `key`.
pub open spec fn entry_key_is(key: Seq<char>) -> spec_fn((String, FolderCollapseState)) -> bool {
    |e: (String, FolderCollapseState)| e.0@ == key
}

/// The collapse state of endpoint `key`, if it has an entry.
pub open spec fn collapse_of(m: Seq<(String, FolderCollapseState)>, key: Seq<char>) -> Option<FolderCollapseState> {
    match first_match(m, entry_key_is(key)) {
        Some(i) => Some(m[i].1),
        None => None,
    }
}

fn entry_index(m: &Vec<(String, FolderCollapseState)>, key: &str) -> (r: Option<usize>)
    ensures
        r matches Some(k) ==> k < m@.len() && first_match(m@, entry_key_is(key@)) == Some(k as int),
        r is None ==> first_match(m@, entry_key_is(key@)) is None,
{
    let ghost p = entry_key_is(key@);
    let mut i: usize = 0;
    while i < m.len()
        invariant
            i <= m@.len(),
            p == entry_key_is(key@),
            first_match(m@.take(i as int), p) is None,
        decreases m.len() - i,
    {
        proof { lemma_step(m@, i as int, p); }
        if str_eq(m[i].0.as_str(), key) {
            proof { lemma_prefix_first(m@, i as int + 1, p); }
            return Some(i);
        }
        i = i + 1;
    }
    proof { assert(m@.take(i as int) =~= m@); }
    None
}

impl FolderCollapseState {
    /// One endpoint's collapse state from the per-endpoint map, or an empty one.
    pub fn of(map: &Vec<(String, FolderCollapseState)>, endpoint_id: &str) -> (r: FolderCollapseState)
        ensures
            match collapse_of(map@, endpoint_id@) {
                Some(c) => r.folders@ == c.folders@ && r.agent_spaces@ == c.agent_spaces@,
                None => r.folders@.len() == 0 && r.agent_spaces@.len() == 0,
            },
    {
        match entry_index(map, endpoint_id) {
            Some(i) => FolderCollapseState {
                folders: clone_ids(&map[i].1.folders),
                agent_spaces: clone_ids(&map[i].1.agent_spaces),
            },
            None => FolderCollapseState { folders: Vec::new(), agent_spaces: Vec::new() },
        }
    }
}

impl ClientShellState {
    /// A shell with no snapshot yet, showing the local endpoint, with the
    /// collapse state loaded from the preferences.
    pub fn new(preferences: CollapsePreferences) -> (r: Self)
        requires
            pref_keys(preferences.folder_collapse@).no_duplicates(),
        ensures
            r.snapshot is None,
            r.overlay is None,
            r.collapsed_groups@.len() == 0,
            !r.mobile_layout,
            r.active_endpoint_id@ == local_key(),
            loaded_map(r.folder_collapse@, preferences.folder_collapse@, preferences.collapsed_folders@,
                preferences.collapsed_agent_spaces@),
    {
        proof { reveal_strlit("local"); }
        ClientShellState {
            snapshot: None,
            active_endpoint_id: "local".to_owned(),
            overlay: None,
            collapsed_groups: Vec::new(),
            mobile_layout: false,
            hits: ShellHitMap {
                workspace_body: Rect { x: 0, y: 0, width: 0, height: 0 },
                new_workspace: Rect { x: 0, y: 0, width: 0, height: 0 },
                workspaces: Vec::new(),
                folder_headers: Vec::new(),
            },
            folder_collapse: FolderCollapseState::from_preferences(
                preferences.folder_collapse,
                preferences.collapsed_folders,
                preferences.collapsed_agent_spaces,
            ),
        }
    }

    /// The active endpoint's collapse state, or an empty one.
    pub fn folder_collapse(&self) -> (r: FolderCollapseState)
        ensures
            match collapse_of(self.folder_collapse@, self.active_endpoint_id@) {
                Some(c) => r.folders@ == c.folders@ && r.agent_spaces@ == c.agent_spaces@,
                None => r.folders@.len() == 0 && r.agent_spaces@.len() == 0,
            },
    {
        FolderCollapseState::of(&self.folder_collapse, self.active_endpoint_id.as_str())
    }

    /// The active endpoint's collapsed folders.
    pub fn collapsed_folders(&self) -> (r: Vec<String>)
        ensures
            match collapse_of(self.folder_collapse@, self.active_endpoint_id@) {
                Some(c) => r@ == c.folders@,
                None => r@.len() == 0,
            },
    {
        self.folder_collapse().folders
    }
}

/// The "Move to folder" item of a space's menu.
pub const MENU_ITEM_MOVE_TO_FOLDER: &'static str = "Move to folder \u{25b8}";
/// The "Remove from folder" item of a foldered space's menu.
pub const MENU_ITEM_REMOVE_FROM_FOLDER: &'static str = "Remove from folder";
/// The item that creates a folder.
pub const MENU_ITEM_NEW_FOLDER: &'static str = "New folder...";

/// What a context menu item does.
#[derive(Clone, Copy, Debug, PartialEq, Eq)]
pub enum ClientContextMenuAction {
    Rename,
    DeleteFolder,
    MoveToFolderMenu,
    RemoveFromFolder,
    /// File the space into the submenu's folder at this index.
    MoveToFolder(usize),
    NewFolder,
    /// An action of another menu, which the folder handling passes on.
    Other,
}

/// What a context menu was opened on.
#[derive(Clone, Debug, PartialEq, Eq)]
pub enum ClientContextMenuTarget {
    Workspace { workspace_id: String },
    Folder { folder_id: String },
    /// The "Move to folder" submenu of a space, with its targets as `(folder_id, name)`.
    MoveToFolder { workspace_id: String, folders: Vec<(String, String)> },
    SpacesPanel,
    /// A target of another menu.
    Other,
}

#[derive(Clone, Debug, PartialEq, Eq)]
pub struct ClientContextMenuItem {
    pub label: String,
    pub action: ClientContextMenuAction,
}

/// What the name prompt is for.
#[derive(Clone, Debug, PartialEq, Eq)]
pub enum ClientRenameTarget {
    Folder { folder_id: String },
    /// A new folder, optionally filing a space into it once created.
    NewFolder { move_workspace_id: Option<String> },
}

/// An open menu or modal.
#[derive(Clone, Debug, PartialEq, Eq)]
pub enum ClientShellOverlay {
    ContextMenu { target: ClientContextMenuTarget, x: u16, y: u16, highlighted: usize },
    Rename { title: &'static str, input: String, replace_on_type: bool, target: ClientRenameTarget },
}

/// What handling input asks of the shell's host.
#[derive(Clone, Debug, PartialEq, Eq)]
pub struct ClientShellInput {
    /// Folder API requests to send to the endpoint, in order.
    pub actions: Vec<Method>,
    pub repaint: bool,
}

impl ClientShellInput {
    pub fn new() -> (r: Self)
        ensures
            r.actions@.len() == 0,
            !r.repaint,
    {
        ClientShellInput { actions: Vec::new(), repaint: false }
    }
}

fn menu_item(label: &str, action: ClientContextMenuAction) -> (r: ClientContextMenuItem)
    ensures
        r.label@ == label@,
        r.action == action,
{
    ClientContextMenuItem { label: label.to_owned(), action }
}

/// The abstract value of a menu item.
pub open spec fn item_view(i: ClientContextMenuItem) -> (Seq<char>, ClientContextMenuAction) {
    (i.label@, i.action)
}

/// Menu items for folder, submenu, and panel targets; `None` for other menus.
pub open spec fn folder_menu_spec(target: ClientContextMenuTarget) -> Option<Seq<(Seq<char>, ClientContextMenuAction)>> {
    match target {
        ClientContextMenuTarget::Folder { .. } => Some(seq![
            ("Rename"@, ClientContextMenuAction::Rename),
            ("Delete"@, ClientContextMenuAction::DeleteFolder),
        ]),
        ClientContextMenuTarget::MoveToFolder { folders, .. } => Some(
            Seq::new(folders@.len(), |k: int| (folders@[k].1@, ClientContextMenuAction::MoveToFolder(k as usize)))
                .push((MENU_ITEM_NEW_FOLDER@, ClientContextMenuAction::NewFolder)),
        ),
        ClientContextMenuTarget::SpacesPanel => Some(seq![(MENU_ITEM_NEW_FOLDER@, ClientContextMenuAction::NewFolder)]),
        _ => None,
    }
}

pub fn folder_menu_items(target: &ClientContextMenuTarget) -> (r: Option<Vec<ClientContextMenuItem>>)
    ensures
        match folder_menu_spec(*target) {
            Some(items) => r matches Some(v) && v@.map_values(|i: ClientContextMenuItem| item_view(i)) == items,
            None => r is None,
        },
{
    match target {
        ClientContextMenuTarget::Folder { .. } => {
            let v = vec![menu_item("Rename", ClientContextMenuAction::Rename), menu_item("Delete", ClientContextMenuAction::DeleteFolder)];
            proof { assert(v@.map_values(|i: ClientContextMenuItem| item_view(i)) =~= folder_menu_spec(*target)->Some_0); }
            Some(v)
        },
        ClientContextMenuTarget::MoveToFolder { folders, .. } => {
            let ghost expected = Seq::new(folders@.len(), |k: int| (folders@[k].1@, ClientContextMenuAction::MoveToFolder(k as usize)));
            let mut v: Vec<ClientContextMenuItem> = Vec::new();
            let mut i: usize = 0;
            while i < folders.len()
                invariant
                    i <= folders@.len(),
                    expected == Seq::new(folders@.len(), |k: int| (folders@[k].1@, ClientContextMenuAction::MoveToFolder(k as usize))),
                    v@.map_values(|i: ClientContextMenuItem| item_view(i)) == expected.take(i as int),
                decreases folders.len() - i,
            {
                let ghost v0 = v@;
                let item = ClientContextMenuItem { label: folders[i].1.clone(), action: ClientContextMenuAction::MoveToFolder(i) };
                assert(item_view(item) == expected[i as int]);
                v.push(item);
                proof {
                    assert(v@.map_values(|it: ClientContextMenuItem| item_view(it))
                        =~= v0.map_values(|it: ClientContextMenuItem| item_view(it)).push(item_view(item)));
                    assert(expected.take(i + 1) =~= expected.take(i as int).push(expected[i as int]));
                }
                i = i + 1;
            }
            v.push(menu_item(MENU_ITEM_NEW_FOLDER, ClientContextMenuAction::NewFolder));
            proof {
                assert(expected.take(folders@.len() as int) =~= expected);
                assert(v@.map_values(|i: ClientContextMenuItem| item_view(i))
                    =~= expected.push((MENU_ITEM_NEW_FOLDER@, ClientContextMenuAction::NewFolder)));
            }
            Some(v)
        },
        ClientContextMenuTarget::SpacesPanel => {
            let v = vec![menu_item(MENU_ITEM_NEW_FOLDER, ClientContextMenuAction::NewFolder)];
            proof { assert(v@.map_values(|i: ClientContextMenuItem| item_view(i)) =~= folder_menu_spec(*target)->Some_0); }
            Some(v)
        },
        _ => None,
    }
}

/// Folder items spliced into a space's menu after "Rename".
pub fn space_menu_folder_items(foldered: bool) -> (r: Vec<ClientContextMenuItem>)
    ensures
        r@.map_values(|i: ClientContextMenuItem| item_view(i)) == if foldered {
            seq![
                (MENU_ITEM_MOVE_TO_FOLDER@, ClientContextMenuAction::MoveToFolderMenu),
                (MENU_ITEM_REMOVE_FROM_FOLDER@, ClientContextMenuAction::RemoveFromFolder),
            ]
        } else {
            seq![(MENU_ITEM_MOVE_TO_FOLDER@, ClientContextMenuAction::MoveToFolderMenu)]
        },
{
    let mut items = vec![menu_item(MENU_ITEM_MOVE_TO_FOLDER, ClientContextMenuAction::MoveToFolderMenu)];
    if foldered {
        items.push(menu_item(MENU_ITEM_REMOVE_FROM_FOLDER, ClientContextMenuAction::RemoveFromFolder));
    }
    proof {
        if foldered {
            assert(items@.map_values(|i: ClientContextMenuItem| item_view(i)) =~= seq![
                (MENU_ITEM_MOVE_TO_FOLDER@, ClientContextMenuAction::MoveToFolderMenu),
                (MENU_ITEM_REMOVE_FROM_FOLDER@, ClientContextMenuAction::RemoveFromFolder),
            ]);
        } else {
            assert(items@.map_values(|i: ClientContextMenuItem| item_view(i))
                =~= seq![(MENU_ITEM_MOVE_TO_FOLDER@, ClientContextMenuAction::MoveToFolderMenu)]);
        }
    }
    items
}

impl ClientShellState {
    pub fn open_folder_context_menu(&mut self, folder_id: String, x: u16, y: u16)
        ensures
            final(self).overlay == Some(ClientShellOverlay::ContextMenu {
                target: ClientContextMenuTarget::Folder { folder_id },
                x,
                y,
                highlighted: 0,
            }),
            final(self).snapshot == old(self).snapshot,
            final(self).folder_collapse == old(self).folder_collapse,
            final(self).active_endpoint_id == old(self).active_endpoint_id,
    {
        self.overlay = Some(ClientShellOverlay::ContextMenu {
            target: ClientContextMenuTarget::Folder { folder_id },
            x,
            y,
            highlighted: 0,
        });
    }

    pub fn open_spaces_panel_context_menu(&mut self, x: u16, y: u16)
        ensures
            final(self).overlay == Some(ClientShellOverlay::ContextMenu {
                target: ClientContextMenuTarget::SpacesPanel,
                x,
                y,
                highlighted: 0,
            }),
            final(self).snapshot == old(self).snapshot,
            final(self).folder_collapse == old(self).folder_collapse,
            final(self).active_endpoint_id == old(self).active_endpoint_id,
    {
        self.overlay = Some(ClientShellOverlay::ContextMenu { target: ClientContextMenuTarget::SpacesPanel, x, y, highlighted: 0 });
    }

    /// Opens the "Move to folder" submenu: every other folder, in space order.
    pub fn open_move_to_folder_menu(&mut self, workspace_id: String, x: u16, y: u16)
        ensures
            final(self).overlay matches Some(ClientShellOverlay::ContextMenu {
                target: ClientContextMenuTarget::MoveToFolder { workspace_id: w, folders },
                x: mx,
                y: my,
                highlighted: 0,
            }) && w == workspace_id && mx == x && my == y
                && folders@.map_values(|t: (String, String)| (t.0@, t.1@)) == match old(self).snapshot {
                    Some(snap) => move_targets_spec(snap, workspace_id@),
                    None => Seq::empty(),
                },
            final(self).snapshot == old(self).snapshot,
            final(self).folder_collapse == old(self).folder_collapse,
            final(self).active_endpoint_id == old(self).active_endpoint_id,
    {
        let folders = match &self.snapshot {
            Some(snapshot) => folder_move_targets(snapshot, workspace_id.as_str()),
            None => {
                let v: Vec<(String, String)> = Vec::new();
                proof { assert(v@.map_values(|t: (String, String)| (t.0@, t.1@)) =~= Seq::<(Seq<char>, Seq<char>)>::empty()); }
                v
            },
        };
        self.overlay = Some(ClientShellOverlay::ContextMenu {
            target: ClientContextMenuTarget::MoveToFolder { workspace_id, folders },
            x,
            y,
            highlighted: 0,
        });
    }

    /// Opens the rename prompt on a folder, prefilled with its name; does
    /// nothing when the snapshot has no such folder.
    pub fn open_rename_folder_overlay(&mut self, folder_id: String)
        ensures
            match old(self).snapshot {
                Some(snap) => match folder_pos(snap, folder_id@) {
                    Some(i) => final(self).overlay matches Some(ClientShellOverlay::Rename { title, input, replace_on_type, target })
                        && title@ == "rename folder"@ && input@ == snap.folders@[i].name@ && !replace_on_type
                        && target == (ClientRenameTarget::Folder { folder_id }),
                    None => final(self).overlay == old(self).overlay,
                },
                None => final(self).overlay == old(self).overlay,
            },
            final(self).snapshot == old(self).snapshot,
            final(self).folder_collapse == old(self).folder_collapse,
            final(self).active_endpoint_id == old(self).active_endpoint_id,
    {
        proof { reveal_strlit("rename folder"); }
        let name = match &self.snapshot {
            Some(snapshot) => match folder_by_id(snapshot, folder_id.as_str()) {
                Some(folder) => folder.name.clone(),
                None => return,
            },
            None => return,
        };
        self.overlay = Some(ClientShellOverlay::Rename {
            title: "rename folder",
            input: name,
            replace_on_type: false,
            target: ClientRenameTarget::Folder { folder_id },
        });
    }

    /// Opens the name prompt for a new folder.
    pub fn open_new_folder_overlay(&mut self, move_workspace_id: Option<String>)
        ensures
            final(self).overlay matches Some(ClientShellOverlay::Rename { title, input, replace_on_type, target })
                && title@ == "new folder"@ && input@.len() == 0 && !replace_on_type
                && target == (ClientRenameTarget::NewFolder { move_workspace_id }),
            final(self).snapshot == old(self).snapshot,
            final(self).folder_collapse == old(self).folder_collapse,
            final(self).active_endpoint_id == old(self).active_endpoint_id,
    {
        proof { reveal_strlit("new folder"); }
        self.overlay = Some(ClientShellOverlay::Rename {
            title: "new folder",
            input: String::new(),
            replace_on_type: false,
            target: ClientRenameTarget::NewFolder { move_workspace_id },
        });
    }

    /// Dispatches a folder menu action; returns `false` for other actions,
    /// which it leaves alone.
    pub fn activate_folder_context_action(
        &mut self,
        target: &ClientContextMenuTarget,
        action: ClientContextMenuAction,
        menu_x: u16,
        menu_y: u16,
        outcome: &mut ClientShellInput,
    ) -> (handled: bool)
        ensures
            final(self).snapshot == old(self).snapshot,
            final(self).folder_collapse == old(self).folder_collapse,
            final(self).active_endpoint_id == old(self).active_endpoint_id,
            final(outcome).repaint == old(outcome).repaint,
            handled == match (*target, action) {
                (ClientContextMenuTarget::Workspace { .. }, ClientContextMenuAction::MoveToFolderMenu) => true,
                (ClientContextMenuTarget::Workspace { .. }, ClientContextMenuAction::RemoveFromFolder) => true,
                (ClientContextMenuTarget::Folder { .. }, ClientContextMenuAction::Rename) => true,
                (ClientContextMenuTarget::Folder { .. }, ClientContextMenuAction::DeleteFolder) => true,
                (ClientContextMenuTarget::MoveToFolder { .. }, ClientContextMenuAction::MoveToFolder(_)) => true,
                (ClientContextMenuTarget::MoveToFolder { .. }, ClientContextMenuAction::NewFolder) => true,
                (ClientContextMenuTarget::SpacesPanel, ClientContextMenuAction::NewFolder) => true,
                _ => false,
            },
            // Requests: filing out of a folder, deleting a folder, or filing into the chosen folder.
            match (*target, action) {
                (ClientContextMenuTarget::Workspace { workspace_id }, ClientContextMenuAction::RemoveFromFolder) =>
                    final(outcome).actions@.len() == old(outcome).actions@.len() + 1
                    && final(outcome).actions@.drop_last() == old(outcome).actions@
                    && method_view(final(outcome).actions@.last())
                        == (MethodV::Assign { workspace_id: workspace_id@, folder_id: None, position: None }),
                (ClientContextMenuTarget::Folder { folder_id }, ClientContextMenuAction::DeleteFolder) =>
                    final(outcome).actions@ == old(outcome).actions@.push(Method::FolderDelete(FolderTarget { folder_id })),
                (ClientContextMenuTarget::MoveToFolder { workspace_id, folders }, ClientContextMenuAction::MoveToFolder(index)) =>
                    if index < folders@.len() {
                        final(outcome).actions@.len() == old(outcome).actions@.len() + 1
                        && final(outcome).actions@.drop_last() == old(outcome).actions@
                        && method_view(final(outcome).actions@.last()) == (MethodV::Assign {
                            workspace_id: workspace_id@,
                            folder_id: Some(folders@[index as int].0@),
                            position: None,
                        })
                    } else {
                        final(outcome).actions@ == old(outcome).actions@
                    },
                _ => final(outcome).actions@ == old(outcome).actions@,
            },
            // Menus and prompts.
            match (*target, action) {
                (ClientContextMenuTarget::Workspace { workspace_id }, ClientContextMenuAction::MoveToFolderMenu) =>
                    final(self).overlay matches Some(ClientShellOverlay::ContextMenu {
                        target: ClientContextMenuTarget::MoveToFolder { workspace_id: w, folders }, x, y, highlighted,
                    }) && w == workspace_id && x == menu_x && y == menu_y && highlighted == 0
                        && folders@.map_values(|t: (String, String)| (t.0@, t.1@)) == match old(self).snapshot {
                            Some(snap) => move_targets_spec(snap, workspace_id@),
                            None => Seq::empty(),
                        },
                (ClientContextMenuTarget::Folder { folder_id }, ClientContextMenuAction::Rename) =>
                    match old(self).snapshot {
                        Some(snap) => match folder_pos(snap, folder_id@) {
                            Some(i) => final(self).overlay matches Some(ClientShellOverlay::Rename { title, input, replace_on_type, target })
                                && title@ == "rename folder"@ && input@ == snap.folders@[i].name@ && !replace_on_type
                                && target == (ClientRenameTarget::Folder { folder_id }),
                            None => final(self).overlay == old(self).overlay,
                        },
                        None => final(self).overlay == old(self).overlay,
                    },
                (ClientContextMenuTarget::MoveToFolder { workspace_id, .. }, ClientContextMenuAction::NewFolder) =>
                    final(self).overlay matches Some(ClientShellOverlay::Rename { title, input, replace_on_type, target })
                        && title@ == "new folder"@ && input@.len() == 0 && !replace_on_type
                        && target == (ClientRenameTarget::NewFolder { move_workspace_id: Some(workspace_id) }),
                (ClientContextMenuTarget::SpacesPanel, ClientContextMenuAction::NewFolder) =>
                    final(self).overlay matches Some(ClientShellOverlay::Rename { title, input, replace_on_type, target })
                        && title@ == "new folder"@ && input@.len() == 0 && !replace_on_type
                        && target == (ClientRenameTarget::NewFolder { move_workspace_id: None }),
                _ => final(self).overlay == old(self).overlay,
            },
    {
        match (target, action) {
            (ClientContextMenuTarget::Workspace { workspace_id }, ClientContextMenuAction::MoveToFolderMenu) => {
                self.open_move_to_folder_menu(workspace_id.clone(), menu_x, menu_y);
            },
            (ClientContextMenuTarget::Workspace { workspace_id }, ClientContextMenuAction::RemoveFromFolder) => {
                outcome.actions.push(Method::FolderAssign(FolderAssignParams {
                    workspace_id: workspace_id.clone(),
                    folder_id: None,
                    position: None,
                }));
            },
            (ClientContextMenuTarget::Folder { folder_id }, ClientContextMenuAction::Rename) => {
                self.open_rename_folder_overlay(folder_id.clone());
            },
            (ClientContextMenuTarget::Folder { folder_id }, ClientContextMenuAction::DeleteFolder) => {
                outcome.actions.push(Method::FolderDelete(FolderTarget { folder_id: folder_id.clone() }));
            },
            (ClientContextMenuTarget::MoveToFolder { workspace_id, folders }, ClientContextMenuAction::MoveToFolder(index)) => {
                if index < folders.len() {
                    outcome.actions.push(Method::FolderAssign(FolderAssignParams {
                        workspace_id: workspace_id.clone(),
                        folder_id: Some(folders[index].0.clone()),
                        position: None,
                    }));
                }
            },
            (ClientContextMenuTarget::MoveToFolder { workspace_id, .. }, ClientContextMenuAction::NewFolder) => {
                self.open_new_folder_overlay(Some(workspace_id.clone()));
            },
            (ClientContextMenuTarget::SpacesPanel, ClientContextMenuAction::NewFolder) => {
                self.open_new_folder_overlay(None);
            },
            _ => return false,
        }
        true
    }

    /// Completes a `folder.create` that came with a space to file: the space
    /// goes into the new folder. `created` is the id the create answered
    /// with, when it succeeded.
    pub fn complete_folder_create(&mut self, move_workspace_id: Option<String>, created: Option<&str>) -> (r: Vec<Method>)
        ensures
            match (move_workspace_id, created) {
                (Some(w), Some(f)) => r@.len() == 1
                    && method_view(r@[0]) == (MethodV::Assign { workspace_id: w@, folder_id: Some(f@), position: None }),
                _ => r@.len() == 0,
            },
    {
        let (workspace_id, folder_id) = match (move_workspace_id, created) {
            (Some(w), Some(f)) => (w, f),
            _ => return Vec::new(),
        };
        let mut outcome = ClientShellInput::new();
        outcome.actions.push(Method::FolderAssign(FolderAssignParams {
            workspace_id,
            folder_id: Some(folder_id.to_owned()),
            position: None,
        }));
        outcome.actions
    }
}

/// The display width `unicode_width` gives a character, `None` for a
/// control character.
pub uninterp spec fn char_width_spec(c: char) -> Option<usize>;

/// Calls `unicode_width::UnicodeWidthChar::width`. Its source answers the
/// ASCII and Latin-1 control ranges directly: control characters below
/// U+0020 and from U+007F up to U+00A0 have no width, printable ASCII has
/// width 1, and everything from U+00A0 on has some width.
#[verifier::external_body]
fn char_width(c: char) -> (r: Option<usize>)
    ensures
        r == char_width_spec(c),
        (c as u32) < 0x20 ==> r is None,
        0x20 <= (c as u32) < 0x7f ==> r == Some(1usize),
        0x7f <= (c as u32) < 0xa0 ==> r is None,
        0xa0 <= (c as u32) ==> r is Some,
{
    unicode_width::UnicodeWidthChar::width(c)
}

/// The width a character takes; control characters take none.
pub open spec fn shown_width(c: char) -> int {
    match char_width_spec(c) {
        Some(w) => w as int,
        None => 0,
    }
}

/// How many leading characters of `text` fit in `max` columns, counting
/// from index `i` with `width` columns used.
pub open spec fn fitting(text: Seq<char>, max: int, i: int, width: int) -> int
    decreases text.len() - i,
{
    if i >= text.len() || i < 0 {
        i
    } else if width + shown_width(text[i]) > max {
        i
    } else {
        fitting(text, max, i + 1, width + shown_width(text[i]))
    }
}

/// The longest prefix of `text` that fits in `max_width` columns.
pub fn truncate_end(text: &str, max_width: usize) -> (r: String)
    ensures
        r@ == text@.take(fitting(text@, max_width as int, 0, 0)),
{
    let n = text.unicode_len();
    let mut width: usize = 0;
    let mut out = String::new();
    let mut i: usize = 0;
    while i < n
        invariant
            i <= n,
            n == text@.len(),
            width <= max_width,
            out@ == text@.take(i as int),
            fitting(text@, max_width as int, i as int, width as int) == fitting(text@, max_width as int, 0, 0),
        ensures
            out@ == text@.take(fitting(text@, max_width as int, 0, 0)),
        decreases n - i,
    {
        let c = text.get_char(i);
        let w = match char_width(c) {
            Some(w) => w,
            None => 0,
        };
        if w > max_width - width {
            break;
        }
        width = width + w;
        crate::text::push_char(&mut out, c);
        proof { assert(text@.take(i + 1) =~= text@.take(i as int).push(c)); }
        i = i + 1;
    }
    out
}

impl ClientShellState {
    /// Position of `workspace_id` among the visible entries, or the collapsed
    /// folder's gap so one `delta` step lands on its visible neighbor.
    pub fn navigation_anchor(
        &self,
        snapshot: &ClientShellSnapshot,
        entries: &Vec<WorkspaceEntry>,
        workspace_id: Option<&str>,
        delta: isize,
    ) -> (r: isize)
        requires
            forall|k: int| 0 <= k < entries@.len() ==> (#[trigger] entries@[k]).index < snapshot.workspaces@.len(),
            entries@.len() < isize::MAX,
            snapshot.workspaces@.len() < isize::MAX,
        ensures
            match workspace_id {
                None => r == 0,
                Some(w) => match first_match(entries@, entry_shows(*snapshot, w@)) {
                    Some(p) => r == p,
                    None => if self.mobile_layout {
                        r == 0
                    } else {
                        let cf = match collapse_of(self.folder_collapse@, self.active_endpoint_id@) {
                            Some(c) => strs(c.folders@),
                            None => Seq::empty(),
                        };
                        let gap = match folder_of_workspace_pos(*snapshot, w@) {
                            Some(i) => if cf.contains(snapshot.folders@[i].folder_id@) {
                                visible_before_folder(
                                    sidebar_spec(*snapshot, strs(self.collapsed_groups@), cf, false, Seq::empty()),
                                    *snapshot, snapshot.folders@[i].folder_id@)
                            } else {
                                None
                            },
                            None => None,
                        };
                        match gap {
                            None => r == 0,
                            Some(g) => r == if delta > 0 { (g as isize).wrapping_sub(1) } else { g as isize },
                        }
                    },
                },
            },
    {
        let wid = match workspace_id {
            Some(w) => w,
            None => return 0,
        };
        let ghost p = entry_shows(*snapshot, wid@);
        let mut k: usize = 0;
        while k < entries.len()
            invariant
                k <= entries@.len(),
                p == entry_shows(*snapshot, wid@),
                workspace_id == Some(wid),
                forall|j: int| 0 <= j < entries@.len() ==> (#[trigger] entries@[j]).index < snapshot.workspaces@.len(),
                entries@.len() < isize::MAX,
                first_match(entries@.take(k as int), p) is None,
            decreases entries.len() - k,
        {
            proof { lemma_step(entries@, k as int, p); }
            if str_eq(snapshot.workspaces[entries[k].index].workspace_id.as_str(), wid) {
                proof { lemma_prefix_first(entries@, k as int + 1, p); }
                return k as isize;
            }
            k = k + 1;
        }
        proof { assert(entries@.take(k as int) =~= entries@); }
        if self.mobile_layout {
            return 0;
        }
        let collapsed = self.collapsed_folders();
        let ghost cf = strs(collapsed@);
        proof {
            let expected = match collapse_of(self.folder_collapse@, self.active_endpoint_id@) {
                Some(c) => strs(c.folders@),
                None => Seq::empty(),
            };
            assert(cf =~= expected);
        }
        let no_flat: Vec<WorkspaceEntry> = Vec::new();
        proof { assert(no_flat@ =~= Seq::<WorkspaceEntry>::empty()); }
        let gap = match folder_hidden_gap_position(snapshot, &self.collapsed_groups, &collapsed, wid, no_flat) {
            Some(g) => g,
            None => return 0,
        };
        proof {
            let i = folder_of_workspace_pos(*snapshot, wid@)->Some_0;
            lemma_visible_before_bound(
                sidebar_spec(*snapshot, strs(self.collapsed_groups@), cf, false, Seq::empty()), *snapshot, snapshot.folders@[i].folder_id@);
        }
        if delta > 0 {
            (gap as isize).wrapping_sub(1)
        } else {
            gap as isize
        }
    }
}

/// Whether a visible entry shows workspace `id`.
pub open spec fn entry_shows(snap: ClientShellSnapshot, id: Seq<char>) -> spec_fn(WorkspaceEntry) -> bool {
    |e: WorkspaceEntry| snap.workspaces@[e.index as int].workspace_id@ == id
}

proof fn lemma_workspace_rows_len(rows: Seq<SidebarEntry>)
    ensures
        workspace_rows(rows).len() <= rows.len(),
    decreases rows.len(),
{
    if rows.len() > 0 {
        lemma_workspace_rows_len(rows.drop_last());
    }
}

proof fn lemma_visible_before_bound(rows: Seq<SidebarEntry>, snap: ClientShellSnapshot, fid: Seq<char>)
    ensures
        visible_before_folder(rows, snap, fid) matches Some(n) ==> 0 <= n <= rows.len(),
    decreases rows.len(),
{
    if rows.len() > 0 {
        lemma_visible_before_bound(rows.drop_last(), snap, fid);
        lemma_workspace_rows_len(rows.drop_last());
    }
}

/// `ids` with `id` toggled: removed when present, else added.
fn toggle_id(ids: &mut Vec<String>, id: &str)
    requires
        strs(old(ids)@).no_duplicates(),
    ensures
        strs(final(ids)@).no_duplicates(),
        set_of(final(ids)@) == if set_of(old(ids)@).contains(id@) {
            set_of(old(ids)@).remove(id@)
        } else {
            set_of(old(ids)@).insert(id@)
        },
{
    let ghost before = strs(ids@);
    let mut i: usize = 0;
    while i < ids.len()
        invariant
            i <= ids@.len(),
            ids@.len() == before.len(),
            before == strs(ids@),
            before == strs(old(ids)@),
            before.no_duplicates(),
            forall|j: int| 0 <= j < i ==> before[j] != id@,
        decreases ids.len() - i,
    {
        if str_eq(ids[i].as_str(), id) {
            ids.remove(i);
            proof {
                assert(strs(ids@) =~= before.remove(i as int));
                assert forall|a: int, b: int| 0 <= a < b < strs(ids@).len() implies strs(ids@)[a] != strs(ids@)[b] by {
                    let a2 = if a < i { a } else { a + 1 };
                    let b2 = if b < i { b } else { b + 1 };
                    assert(strs(ids@)[a] == before[a2]);
                    assert(strs(ids@)[b] == before[b2]);
                }
                assert forall|x: Seq<char>| set_of(ids@).contains(x) == set_of(old(ids)@).remove(id@).contains(x) by {
                    if before.contains(x) && x != id@ {
                        let k = choose|k: int| 0 <= k < before.len() && before[k] == x;
                        assert(k != i);
                        let k2 = if k < i { k } else { k - 1 };
                        assert(strs(ids@)[k2] == x);
                    }
                    if strs(ids@).contains(x) {
                        let k = choose|k: int| 0 <= k < strs(ids@).len() && strs(ids@)[k] == x;
                        let k2 = if k < i { k } else { k + 1 };
                        assert(before[k2] == x);
                        assert(k2 != i);
                        assert(before[k2] != before[i as int]);
                    }
                }
                assert(set_of(ids@) =~= set_of(old(ids)@).remove(id@));
                assert(before[i as int] == id@);
                assert(before.contains(id@));
                assert(set_of(old(ids)@).contains(id@));
            }
            return;
        }
        i = i + 1;
    }
    let ghost b0 = strs(ids@);
    ids.push(id.to_owned());
    proof {
        assert(strs(ids@) =~= b0.push(id@));
        assert(!b0.contains(id@));
        assert forall|a: int, b: int| 0 <= a < b < strs(ids@).len() implies strs(ids@)[a] != strs(ids@)[b] by {
            if b == b0.len() {
                assert(b0.contains(b0[a]));
            }
        }
        b0.lemma_push_to_set_commute(id@);
    }
}

impl ClientShellState {
    /// Collapses or expands a folder for an endpoint, creating the
    /// endpoint's entry when it has none. The host repaints and saves the
    /// preferences.
    pub fn toggle_folder_collapse_for(&mut self, endpoint_id: &str, folder_id: &str, outcome: &mut ClientShellInput)
        requires
            forall|i: int| 0 <= i < old(self).folder_collapse@.len() ==> (#[trigger] old(self).folder_collapse@[i]).1.wf(),
        ensures
            final(outcome).repaint,
            final(outcome).actions == old(outcome).actions,
            final(self).snapshot == old(self).snapshot,
            final(self).overlay == old(self).overlay,
            final(self).active_endpoint_id == old(self).active_endpoint_id,
            forall|i: int| 0 <= i < final(self).folder_collapse@.len() ==> (#[trigger] final(self).folder_collapse@[i]).1.wf(),
            match first_match(old(self).folder_collapse@, entry_key_is(endpoint_id@)) {
                Some(i) => {
                    let e = old(self).folder_collapse@[i];
                    &&& final(self).folder_collapse@.len() == old(self).folder_collapse@.len()
                    &&& forall|j: int| 0 <= j < old(self).folder_collapse@.len() && j != i
                        ==> #[trigger] final(self).folder_collapse@[j] == old(self).folder_collapse@[j]
                    &&& final(self).folder_collapse@[i].0 == e.0
                    &&& final(self).folder_collapse@[i].1.agent_spaces == e.1.agent_spaces
                    &&& set_of(final(self).folder_collapse@[i].1.folders@) == if set_of(e.1.folders@).contains(folder_id@) {
                        set_of(e.1.folders@).remove(folder_id@)
                    } else {
                        set_of(e.1.folders@).insert(folder_id@)
                    }
                },
                None => {
                    &&& final(self).folder_collapse@.drop_last() == old(self).folder_collapse@
                    &&& final(self).folder_collapse@.len() == old(self).folder_collapse@.len() + 1
                    &&& final(self).folder_collapse@.last().0@ == endpoint_id@
                    &&& strs(final(self).folder_collapse@.last().1.folders@) == seq![folder_id@]
                    &&& final(self).folder_collapse@.last().1.agent_spaces@.len() == 0
                },
            },
    {
        match entry_index(&self.folder_collapse, endpoint_id) {
            Some(i) => {
                let ghost before = self.folder_collapse@;
                let (key, mut state) = self.folder_collapse.remove(i);
                toggle_id(&mut state.folders, folder_id);
                self.folder_collapse.insert(i, (key, state));
                proof {
                    assert forall|j: int| 0 <= j < before.len() && j != i implies #[trigger] self.folder_collapse@[j] == before[j] by {}
                }
            },
            None => {
                let ghost before = self.folder_collapse@;
                let mut folders: Vec<String> = Vec::new();
                folders.push(folder_id.to_owned());
                self.folder_collapse.push((endpoint_id.to_owned(), FolderCollapseState { folders, agent_spaces: Vec::new() }));
                proof {
                    assert(self.folder_collapse@.drop_last() =~= before);
                    assert(strs(self.folder_collapse@.last().1.folders@) =~= seq![folder_id@]);
                    assert forall|i: int| 0 <= i < self.folder_collapse@.len() implies (#[trigger] self.folder_collapse@[i]).1.wf() by {
                        if i < before.len() {
                            assert(self.folder_collapse@[i] == before[i]);
                        }
                    }
                }
            },
        }
        outcome.repaint = true;
    }

    /// Collapses or expands a space's agent list for an endpoint, creating
    /// the endpoint's entry when it has none. The host repaints and saves the
    /// preferences.
    pub fn toggle_agent_space_collapse_for(&mut self, endpoint_id: &str, workspace_id: &str, outcome: &mut ClientShellInput)
        requires
            forall|i: int| 0 <= i < old(self).folder_collapse@.len() ==> (#[trigger] old(self).folder_collapse@[i]).1.wf(),
        ensures
            final(outcome).repaint,
            final(outcome).actions == old(outcome).actions,
            final(self).snapshot == old(self).snapshot,
            final(self).overlay == old(self).overlay,
            final(self).active_endpoint_id == old(self).active_endpoint_id,
            forall|i: int| 0 <= i < final(self).folder_collapse@.len() ==> (#[trigger] final(self).folder_collapse@[i]).1.wf(),
            match first_match(old(self).folder_collapse@, entry_key_is(endpoint_id@)) {
                Some(i) => {
                    let e = old(self).folder_collapse@[i];
                    &&& final(self).folder_collapse@.len() == old(self).folder_collapse@.len()
                    &&& forall|j: int| 0 <= j < old(self).folder_collapse@.len() && j != i
                        ==> #[trigger] final(self).folder_collapse@[j] == old(self).folder_collapse@[j]
                    &&& final(self).folder_collapse@[i].0 == e.0
                    &&& final(self).folder_collapse@[i].1.folders == e.1.folders
                    &&& set_of(final(self).folder_collapse@[i].1.agent_spaces@) == if set_of(e.1.agent_spaces@).contains(workspace_id@) {
                        set_of(e.1.agent_spaces@).remove(workspace_id@)
                    } else {
                        set_of(e.1.agent_spaces@).insert(workspace_id@)
                    }
                },
                None => {
                    &&& final(self).folder_collapse@.drop_last() == old(self).folder_collapse@
                    &&& final(self).folder_collapse@.len() == old(self).folder_collapse@.len() + 1
                    &&& final(self).folder_collapse@.last().0@ == endpoint_id@
                    &&& strs(final(self).folder_collapse@.last().1.agent_spaces@) == seq![workspace_id@]
                    &&& final(self).folder_collapse@.last().1.folders@.len() == 0
                },
            },
    {
        match entry_index(&self.folder_collapse, endpoint_id) {
            Some(i) => {
                let ghost before = self.folder_collapse@;
                let (key, mut state) = self.folder_collapse.remove(i);
                toggle_id(&mut state.agent_spaces, workspace_id);
                self.folder_collapse.insert(i, (key, state));
                proof {
                    assert forall|j: int| 0 <= j < before.len() && j != i implies #[trigger] self.folder_collapse@[j] == before[j] by {}
                }
            },
            None => {
                let ghost before = self.folder_collapse@;
                let mut agent_spaces: Vec<String> = Vec::new();
                agent_spaces.push(workspace_id.to_owned());
                self.folder_collapse.push((endpoint_id.to_owned(), FolderCollapseState { folders: Vec::new(), agent_spaces }));
                proof {
                    assert(self.folder_collapse@.drop_last() =~= before);
                    assert(strs(self.folder_collapse@.last().1.agent_spaces@) =~= seq![workspace_id@]);
                    assert forall|i: int| 0 <= i < self.folder_collapse@.len() implies (#[trigger] self.folder_collapse@[i]).1.wf() by {
                        if i < before.len() {
                            assert(self.folder_collapse@[i] == before[i]);
                        }
                    }
                }
            },
        }
        outcome.repaint = true;
    }
}

/// Whether a folder id names a folder of the snapshot.
pub open spec fn folder_exists(snap: ClientShellSnapshot) -> spec_fn(String) -> bool {
    |f: String| folder_pos(snap, f@) is Some
}

/// Whether a workspace id names a workspace of the snapshot.
pub open spec fn workspace_exists(snap: ClientShellSnapshot) -> spec_fn(String) -> bool {
    |w: String| workspace_pos(snap, w@) is Some
}

proof fn lemma_kept_len<A>(s: Seq<A>, p: spec_fn(A) -> bool)
    ensures
        kept(s, p).len() <= s.len(),
    decreases s.len(),
{
    if s.len() > 0 {
        lemma_kept_len(s.drop_last(), p);
    }
}

proof fn lemma_kept_no_dup(s: Seq<String>, p: spec_fn(String) -> bool)
    requires
        strs(s).no_duplicates(),
    ensures
        strs(kept(s, p)).no_duplicates(),
        forall|x: Seq<char>| strs(kept(s, p)).contains(x) ==> strs(s).contains(x),
    decreases s.len(),
{
    if s.len() > 0 {
        let init = s.drop_last();
        assert(strs(init) =~= strs(s).drop_last());
        lemma_kept_no_dup(init, p);
        let k = kept(init, p);
        if p(s.last()) {
            assert(strs(k.push(s.last())) =~= strs(k).push(s.last()@));
            assert(!strs(init).contains(s.last()@)) by {
                if strs(init).contains(s.last()@) {
                    let j = choose|j: int| 0 <= j < strs(init).len() && strs(init)[j] == s.last()@;
                    assert(strs(s)[j] == strs(s)[s.len() - 1]);
                }
            }
            assert forall|a: int, b: int| 0 <= a < b < strs(k.push(s.last())).len()
                implies strs(k.push(s.last()))[a] != strs(k.push(s.last()))[b] by {
                if b == k.len() {
                    assert(strs(k).contains(strs(k)[a]));
                }
            }
            assert forall|x: Seq<char>| strs(k.push(s.last())).contains(x) implies strs(s).contains(x) by {
                let j = choose|j: int| 0 <= j < strs(k.push(s.last())).len() && strs(k.push(s.last()))[j] == x;
                if j < k.len() {
                    assert(strs(k)[j] == x);
                    assert(strs(k).contains(x));
                    assert(strs(init).contains(x));
                    let y = choose|y: int| 0 <= y < strs(init).len() && strs(init)[y] == x;
                    assert(strs(s)[y] == x);
                } else {
                    assert(strs(s)[s.len() - 1] == x);
                }
            }
        } else {
            assert forall|x: Seq<char>| strs(k).contains(x) implies strs(s).contains(x) by {
                assert(strs(init).contains(x));
                let y = choose|y: int| 0 <= y < strs(init).len() && strs(init)[y] == x;
                assert(strs(s)[y] == x);
            }
        }
    }
}

/// The ids of `ids` that `keep` accepts, in order.
fn retain_ids(ids: &Vec<String>, snapshot: &ClientShellSnapshot, folders: bool) -> (r: Vec<String>)
    ensures
        r@ == kept(ids@, if folders { folder_exists(*snapshot) } else { workspace_exists(*snapshot) }),
{
    let ghost p = if folders { folder_exists(*snapshot) } else { workspace_exists(*snapshot) };
    let mut r: Vec<String> = Vec::new();
    let mut i: usize = 0;
    while i < ids.len()
        invariant
            i <= ids@.len(),
            p == if folders { folder_exists(*snapshot) } else { workspace_exists(*snapshot) },
            r@ == kept(ids@.take(i as int), p),
        decreases ids.len() - i,
    {
        proof { lemma_step(ids@, i as int, p); }
        let keep = if folders {
            folder_index_of(snapshot, ids[i].as_str()).is_some()
        } else {
            workspace_index_of(snapshot, ids[i].as_str()).is_some()
        };
        if keep {
            r.push(ids[i].clone());
        }
        i = i + 1;
    }
    proof { assert(ids@.take(ids@.len() as int) =~= ids@); }
    r
}

impl ClientShellState {
    /// Drops the active endpoint's collapse state for folders and spaces that
    /// no longer exist in its snapshot, and its entry once empty. Returns
    /// whether anything was dropped, so the host saves the preferences.
    pub fn prune_folder_collapse_state(&mut self) -> (changed: bool)
        requires
            forall|i: int| 0 <= i < old(self).folder_collapse@.len() ==> (#[trigger] old(self).folder_collapse@[i]).1.wf(),
        ensures
            final(self).snapshot == old(self).snapshot,
            final(self).overlay == old(self).overlay,
            final(self).active_endpoint_id == old(self).active_endpoint_id,
            forall|i: int| 0 <= i < final(self).folder_collapse@.len() ==> (#[trigger] final(self).folder_collapse@[i]).1.wf(),
            match (old(self).snapshot, first_match(old(self).folder_collapse@, entry_key_is(old(self).active_endpoint_id@))) {
                (Some(snap), Some(i)) => {
                    let e = old(self).folder_collapse@[i];
                    let folders = kept(e.1.folders@, folder_exists(snap));
                    let agents = kept(e.1.agent_spaces@, workspace_exists(snap));
                    &&& changed == (folders.len() + agents.len() != e.1.folders@.len() + e.1.agent_spaces@.len())
                    &&& if folders.len() == 0 && agents.len() == 0 {
                        final(self).folder_collapse@ == old(self).folder_collapse@.remove(i)
                    } else {
                        &&& final(self).folder_collapse@.len() == old(self).folder_collapse@.len()
                        &&& forall|j: int| 0 <= j < old(self).folder_collapse@.len() && j != i
                            ==> #[trigger] final(self).folder_collapse@[j] == old(self).folder_collapse@[j]
                        &&& final(self).folder_collapse@[i].0 == e.0
                        &&& final(self).folder_collapse@[i].1.folders@ == folders
                        &&& final(self).folder_collapse@[i].1.agent_spaces@ == agents
                    }
                },
                _ => !changed && final(self).folder_collapse == old(self).folder_collapse,
            },
    {
        let snapshot = match &self.snapshot {
            Some(s) => s,
            None => return false,
        };
        let i = match entry_index(&self.folder_collapse, self.active_endpoint_id.as_str()) {
            Some(i) => i,
            None => return false,
        };
        let ghost before = self.folder_collapse@;
        let folders = retain_ids(&self.folder_collapse[i].1.folders, snapshot, true);
        let agent_spaces = retain_ids(&self.folder_collapse[i].1.agent_spaces, snapshot, false);
        proof {
            let e = before[i as int];
            lemma_kept_len(e.1.folders@, folder_exists(*snapshot));
            lemma_kept_len(e.1.agent_spaces@, workspace_exists(*snapshot));
            lemma_kept_no_dup(e.1.folders@, folder_exists(*snapshot));
            lemma_kept_no_dup(e.1.agent_spaces@, workspace_exists(*snapshot));
        }
        let changed = folders.len() != self.folder_collapse[i].1.folders.len()
            || agent_spaces.len() != self.folder_collapse[i].1.agent_spaces.len();
        let key = self.folder_collapse[i].0.clone();
        self.folder_collapse.remove(i);
        if folders.len() > 0 || agent_spaces.len() > 0 {
            self.folder_collapse.insert(i, (key, FolderCollapseState { folders, agent_spaces }));
            proof {
                assert forall|j: int| 0 <= j < before.len() && j != i implies #[trigger] self.folder_collapse@[j] == before[j] by {}
            }
        }
        proof {
            assert forall|j: int| 0 <= j < self.folder_collapse@.len() implies (#[trigger] self.folder_collapse@[j]).1.wf() by {
                if folders@.len() == 0 && agent_spaces@.len() == 0 {
                    let j2 = if j < i { j } else { j + 1 };
                    assert(self.folder_collapse@[j] == before[j2]);
                } else if j != i {
                    assert(self.folder_collapse@[j] == before[j]);
                }
            }
        }
        changed
    }
}

impl ClientShellState {
    /// Collapses or expands a folder for the active endpoint (see `toggle_folder_collapse_for`).
    pub fn toggle_folder_collapse(&mut self, folder_id: &str, outcome: &mut ClientShellInput)
        requires
            forall|i: int| 0 <= i < old(self).folder_collapse@.len() ==> (#[trigger] old(self).folder_collapse@[i]).1.wf(),
        ensures
            final(outcome).repaint,
            final(outcome).actions == old(outcome).actions,
            final(self).snapshot == old(self).snapshot,
            final(self).overlay == old(self).overlay,
            final(self).active_endpoint_id == old(self).active_endpoint_id,
            forall|i: int| 0 <= i < final(self).folder_collapse@.len() ==> (#[trigger] final(self).folder_collapse@[i]).1.wf(),
            match first_match(old(self).folder_collapse@, entry_key_is(old(self).active_endpoint_id@)) {
                Some(i) => {
                    let e = old(self).folder_collapse@[i];
                    &&& final(self).folder_collapse@.len() == old(self).folder_collapse@.len()
                    &&& forall|j: int| 0 <= j < old(self).folder_collapse@.len() && j != i
                        ==> #[trigger] final(self).folder_collapse@[j] == old(self).folder_collapse@[j]
                    &&& final(self).folder_collapse@[i].0 == e.0
                    &&& final(self).folder_collapse@[i].1.agent_spaces == e.1.agent_spaces
                    &&& set_of(final(self).folder_collapse@[i].1.folders@) == if set_of(e.1.folders@).contains(folder_id@) {
                        set_of(e.1.folders@).remove(folder_id@)
                    } else {
                        set_of(e.1.folders@).insert(folder_id@)
                    }
                },
                None => {
                    &&& final(self).folder_collapse@.drop_last() == old(self).folder_collapse@
                    &&& final(self).folder_collapse@.len() == old(self).folder_collapse@.len() + 1
                    &&& final(self).folder_collapse@.last().0@ == old(self).active_endpoint_id@
                    &&& strs(final(self).folder_collapse@.last().1.folders@) == seq![folder_id@]
                    &&& final(self).folder_collapse@.last().1.agent_spaces@.len() == 0
                },
            },
    {
        let endpoint_id = self.active_endpoint_id.clone();
        self.toggle_folder_collapse_for(endpoint_id.as_str(), folder_id, outcome);
    }

    /// Collapses or expands a space's agent list for the active endpoint.
    pub fn toggle_agent_space_collapse(&mut self, workspace_id: &str, outcome: &mut ClientShellInput)
        requires
            forall|i: int| 0 <= i < old(self).folder_collapse@.len() ==> (#[trigger] old(self).folder_collapse@[i]).1.wf(),
        ensures
            final(outcome).repaint,
            final(outcome).actions == old(outcome).actions,
            final(self).snapshot == old(self).snapshot,
            final(self).overlay == old(self).overlay,
            final(self).active_endpoint_id == old(self).active_endpoint_id,
            forall|i: int| 0 <= i < final(self).folder_collapse@.len() ==> (#[trigger] final(self).folder_collapse@[i]).1.wf(),
            match first_match(old(self).folder_collapse@, entry_key_is(old(self).active_endpoint_id@)) {
                Some(i) => {
                    let e = old(self).folder_collapse@[i];
                    &&& final(self).folder_collapse@.len() == old(self).folder_collapse@.len()
                    &&& forall|j: int| 0 <= j < old(self).folder_collapse@.len() && j != i
                        ==> #[trigger] final(self).folder_collapse@[j] == old(self).folder_collapse@[j]
                    &&& final(self).folder_collapse@[i].0 == e.0
                    &&& final(self).folder_collapse@[i].1.folders == e.1.folders
                    &&& set_of(final(self).folder_collapse@[i].1.agent_spaces@) == if set_of(e.1.agent_spaces@).contains(workspace_id@) {
                        set_of(e.1.agent_spaces@).remove(workspace_id@)
                    } else {
                        set_of(e.1.agent_spaces@).insert(workspace_id@)
                    }
                },
                None => {
                    &&& final(self).folder_collapse@.drop_last() == old(self).folder_collapse@
                    &&& final(self).folder_collapse@.len() == old(self).folder_collapse@.len() + 1
                    &&& final(self).folder_collapse@.last().0@ == old(self).active_endpoint_id@
                    &&& strs(final(self).folder_collapse@.last().1.agent_spaces@) == seq![workspace_id@]
                    &&& final(self).folder_collapse@.last().1.folders@.len() == 0
                },
            },
    {
        let endpoint_id = self.active_endpoint_id.clone();
        self.toggle_agent_space_collapse_for(endpoint_id.as_str(), workspace_id, outcome);
    }
}

/// A screen rectangle in cells.
#[derive(Clone, Copy, Debug, PartialEq, Eq)]
pub struct Rect {
    pub x: u16,
    pub y: u16,
    pub width: u16,
    pub height: u16,
}

/// `a + b`, stopping at the largest row.
pub open spec fn sat_add(a: u16, b: u16) -> u16 {
    if a + b > u16::MAX { u16::MAX } else { (a + b) as u16 }
}

/// `a - b`, stopping at zero.
pub open spec fn sat_sub(a: u16, b: u16) -> u16 {
    if a >= b { (a - b) as u16 } else { 0 }
}

impl Rect {
    /// The row just below the rectangle.
    pub open spec fn bottom_spec(self) -> u16 {
        sat_add(self.y, self.height)
    }

    pub fn bottom(&self) -> (r: u16)
        ensures
            r == self.bottom_spec(),
    {
        self.y.saturating_add(self.height)
    }
}

/// Whether `point` (column, row) lies inside `r`.
pub open spec fn contains_spec(r: Rect, point: (u16, u16)) -> bool {
    r.x <= point.0 < r.x + r.width && r.y <= point.1 < r.y + r.height
}

pub fn contains(r: Rect, point: (u16, u16)) -> (b: bool)
    ensures
        b == contains_spec(r, point),
{
    point.0 >= r.x && (point.0 as u32) < (r.x as u32) + (r.width as u32) && point.1 >= r.y
        && (point.1 as u32) < (r.y as u32) + (r.height as u32)
}

/// Where a workspace card was drawn.
#[derive(Clone, Debug, PartialEq, Eq)]
pub struct WorkspaceHit {
    pub rect: Rect,
    pub endpoint_id: String,
    pub workspace_id: String,
    /// A worktree child drawn under its parent.
    pub indented: bool,
    /// Drawn inside a folder.
    pub foldered: bool,
}

/// Where a folder header was drawn.
#[derive(Clone, Debug, PartialEq, Eq)]
pub struct FolderHit {
    pub rect: Rect,
    pub endpoint_id: String,
    pub folder_id: String,
}

/// Where the spaces panel drew what a drag can land on.
#[derive(Clone, Debug, PartialEq, Eq)]
pub struct ShellHitMap {
    pub workspace_body: Rect,
    pub new_workspace: Rect,
    pub workspaces: Vec<WorkspaceHit>,
    pub folder_headers: Vec<FolderHit>,
}

/// Whether a folder header's rectangle holds `point`.
pub open spec fn header_holds(point: (u16, u16)) -> spec_fn(FolderHit) -> bool {
    |h: FolderHit| contains_spec(h.rect, point)
}

/// The active endpoint's folder under `point`: that of the first header
/// drawn there, when it is the active endpoint's.
pub open spec fn header_at_spec(st: ClientShellState, point: (u16, u16)) -> Option<Seq<char>> {
    match first_match(st.hits.folder_headers@, header_holds(point)) {
        Some(i) => if st.hits.folder_headers@[i].endpoint_id@ == st.active_endpoint_id@ {
            Some(st.hits.folder_headers@[i].folder_id@)
        } else {
            None
        },
        None => None,
    }
}

/// Whether `point` lies on the spaces panel's title rows (the `header_rows`
/// above the list body) or its list background, off every card and header.
pub open spec fn background_spec(st: ClientShellState, point: (u16, u16), header_rows: u16) -> bool {
    let body = st.hits.workspace_body;
    if body.width == 0 || body.height == 0 {
        false
    } else {
        let title = if header_rows <= body.y { header_rows } else { body.y };
        let panel = Rect { x: body.x, y: (body.y - title) as u16, width: body.width, height: sat_add(body.height, title) };
        &&& contains_spec(panel, point)
        &&& !(exists|i: int| 0 <= i < st.hits.workspaces@.len() && contains_spec(#[trigger] st.hits.workspaces@[i].rect, point))
        &&& header_at_spec(st, point) is None
    }
}

impl ClientShellState {
    /// Whether space drags can target folders: the snapshot has some.
    pub fn folder_drag_active(&self) -> (r: bool)
        ensures
            r == (self.snapshot matches Some(s) && s.folders@.len() > 0),
    {
        match &self.snapshot {
            Some(snapshot) => has_folders(snapshot),
            None => false,
        }
    }

    /// The first folder header drawn under `point`.
    pub fn folder_header_hit_at(&self, point: (u16, u16)) -> (r: Option<&FolderHit>)
        ensures
            match first_match(self.hits.folder_headers@, header_holds(point)) {
                Some(i) => r == Some(&self.hits.folder_headers@[i]),
                None => r is None,
            },
    {
        let ghost p = header_holds(point);
        let mut i: usize = 0;
        while i < self.hits.folder_headers.len()
            invariant
                i <= self.hits.folder_headers@.len(),
                p == header_holds(point),
                first_match(self.hits.folder_headers@.take(i as int), p) is None,
            decreases self.hits.folder_headers.len() - i,
        {
            proof { lemma_step(self.hits.folder_headers@, i as int, p); }
            if contains(self.hits.folder_headers[i].rect, point) {
                proof { lemma_prefix_first(self.hits.folder_headers@, i as int + 1, p); }
                return Some(&self.hits.folder_headers[i]);
            }
            i = i + 1;
        }
        proof { assert(self.hits.folder_headers@.take(i as int) =~= self.hits.folder_headers@); }
        None
    }

    /// The active endpoint's folder whose header is under `point`.
    pub fn folder_header_at(&self, point: (u16, u16)) -> (r: Option<String>)
        ensures
            match r {
                Some(f) => header_at_spec(*self, point) == Some(f@),
                None => header_at_spec(*self, point) is None,
            },
    {
        match self.folder_header_hit_at(point) {
            Some(header) => if str_eq(header.endpoint_id.as_str(), self.active_endpoint_id.as_str()) {
                Some(header.folder_id.clone())
            } else {
                None
            },
            None => None,
        }
    }

    /// Whether `point` is on the spaces panel's title rows or its list
    /// background; `header_rows` is the height of the panel's title.
    pub fn spaces_panel_background_at(&self, point: (u16, u16), header_rows: u16) -> (r: bool)
        ensures
            r == background_spec(*self, point, header_rows),
    {
        let body = self.hits.workspace_body;
        if body.width == 0 || body.height == 0 {
            return false;
        }
        let title = if header_rows <= body.y { header_rows } else { body.y };
        let panel = Rect { x: body.x, y: body.y - title, width: body.width, height: body.height.saturating_add(title) };
        if !contains(panel, point) {
            return false;
        }
        let mut i: usize = 0;
        while i < self.hits.workspaces.len()
            invariant
                i <= self.hits.workspaces@.len(),
                forall|k: int| 0 <= k < i ==> !contains_spec(#[trigger] self.hits.workspaces@[k].rect, point),
            decreases self.hits.workspaces.len() - i,
        {
            if contains(self.hits.workspaces[i].rect, point) {
                return false;
            }
            i = i + 1;
        }
        self.folder_header_at(point).is_none()
    }
}

/// A row of the spaces panel a slot can sit at: a folder header or a
/// top-level (not indented) card, by index into the hit lists.
#[derive(Clone, Copy, Debug, PartialEq, Eq)]
pub enum PanelRow {
    Header(usize),
    Card(usize),
}

/// The row's top line.
pub open spec fn row_y(hits: ShellHitMap, r: (u16, PanelRow)) -> u16 {
    r.0
}

/// The headers drawn for endpoint `ep`, as rows in hit order.
pub open spec fn header_rows(hits: ShellHitMap, ep: Seq<char>, n: int) -> Seq<(u16, PanelRow)>
    decreases n,
{
    if n <= 0 {
        seq![]
    } else {
        let h = hits.folder_headers@[n - 1];
        header_rows(hits, ep, n - 1) + if h.endpoint_id@ == ep { seq![(h.rect.y, PanelRow::Header((n - 1) as usize))] } else { seq![] }
    }
}

/// The top-level cards drawn for endpoint `ep`, as rows in hit order.
pub open spec fn card_rows(hits: ShellHitMap, ep: Seq<char>, n: int) -> Seq<(u16, PanelRow)>
    decreases n,
{
    if n <= 0 {
        seq![]
    } else {
        let w = hits.workspaces@[n - 1];
        card_rows(hits, ep, n - 1) + if w.endpoint_id@ == ep && !w.indented {
            seq![(w.rect.y, PanelRow::Card((n - 1) as usize))]
        } else {
            seq![]
        }
    }
}

/// Where a stable insertion puts an element with row `y`: before the first
/// element below it.
pub open spec fn insert_point(t: Seq<(u16, PanelRow)>, y: u16) -> int {
    match first_match(t, below(y)) {
        Some(j) => j,
        None => t.len() as int,
    }
}

/// Whether a row lies below row `y`.
pub open spec fn below(y: u16) -> spec_fn((u16, PanelRow)) -> bool {
    |e: (u16, PanelRow)| e.0 > y
}

/// Rows sorted top to bottom, keeping the given order among equal rows.
pub open spec fn sorted_rows(s: Seq<(u16, PanelRow)>) -> Seq<(u16, PanelRow)>
    decreases s.len(),
{
    if s.len() == 0 {
        seq![]
    } else {
        let t = sorted_rows(s.drop_last());
        t.insert(insert_point(t, s.last().0), s.last())
    }
}

pub proof fn lemma_sorted_rows_len(s: Seq<(u16, PanelRow)>)
    ensures
        sorted_rows(s).len() == s.len(),
    decreases s.len(),
{
    if s.len() > 0 {
        lemma_sorted_rows_len(s.drop_last());
        let t = sorted_rows(s.drop_last());
        lemma_first_match(t, below(s.last().0));
    }
}

/// The panel's rows, top to bottom: own headers and top-level cards.
pub open spec fn panel_rows(hits: ShellHitMap, ep: Seq<char>) -> Seq<(u16, PanelRow)> {
    sorted_rows(header_rows(hits, ep, hits.folder_headers@.len() as int) + card_rows(hits, ep, hits.workspaces@.len() as int))
}

/// A card's bottom extended over the indented children drawn right after
/// it, walking the first `n` workspace hits: `(bottom, seen the card, stopped)`.
pub open spec fn child_bottom(hits: ShellHitMap, ep: Seq<char>, w: WorkspaceHit, n: int) -> (u16, bool, bool)
    decreases n,
{
    if n <= 0 {
        (w.rect.bottom_spec(), false, false)
    } else {
        let (b, seen, stopped) = child_bottom(hits, ep, w, n - 1);
        let c = hits.workspaces@[n - 1];
        if c.endpoint_id@ != ep || stopped {
            (b, seen, stopped)
        } else if c.workspace_id@ == w.workspace_id@ {
            (b, true, stopped)
        } else if seen {
            if c.indented { (c.rect.bottom_spec(), seen, false) } else { (b, seen, true) }
        } else {
            (b, seen, stopped)
        }
    }
}

/// A bottom cut short by any own folder header drawn between the card's
/// top and it, over the first `n` header hits.
pub open spec fn header_clamp(hits: ShellHitMap, ep: Seq<char>, top: u16, bottom: u16, n: int) -> u16
    decreases n,
{
    if n <= 0 {
        bottom
    } else {
        let b = header_clamp(hits, ep, top, bottom, n - 1);
        let h = hits.folder_headers@[n - 1];
        if h.endpoint_id@ == ep && h.rect.y > top && h.rect.y < b { h.rect.y } else { b }
    }
}

/// The bottom of the block a card starts: the card and its indented
/// children, up to the next folder header.
pub open spec fn block_bottom_spec(hits: ShellHitMap, ep: Seq<char>, w: WorkspaceHit) -> u16 {
    header_clamp(hits, ep, w.rect.y, child_bottom(hits, ep, w, hits.workspaces@.len() as int).0, hits.folder_headers@.len() as int)
}

/// The slots a panel row contributes, with their natural rows.
pub open spec fn slots_at(
    snap: ClientShellSnapshot,
    hits: ShellHitMap,
    ep: Seq<char>,
    rows: Seq<(u16, PanelRow)>,
    folder_drag: bool,
    position: int,
) -> Seq<(SpaceDropTarget, u16)> {
    match rows[position].1 {
        PanelRow::Header(h) => {
            let fh = hits.folder_headers@[h as int];
            seq![(SpaceDropTarget::BeforeFolder(fh.folder_id), sat_sub(fh.rect.y, 1))]
        },
        PanelRow::Card(c) => {
            let hit = hits.workspaces@[c as int];
            if hit.foldered {
                if folder_drag {
                    seq![]
                } else {
                    match folder_of_workspace_pos(snap, hit.workspace_id@) {
                        None => seq![],
                        Some(fi) => {
                            let folder = snap.folders@[fi];
                            let first_member = position > 0 && rows[position - 1].1 is Header;
                            let row = if first_member { hit.rect.y } else { sat_sub(hit.rect.y, 1) };
                            let before = seq![(
                                SpaceDropTarget::InFolderBefore { folder_id: folder.folder_id, workspace_id: hit.workspace_id },
                                row,
                            )];
                            let bottom = block_bottom_spec(hits, ep, hit);
                            let end = SpaceDropTarget::InFolderEnd { folder_id: folder.folder_id };
                            if position + 1 >= rows.len() {
                                before.push((end, bottom))
                            } else {
                                match rows[position + 1].1 {
                                    PanelRow::Card(nc) => if !hits.workspaces@[nc as int].foldered {
                                        let next_top = sat_sub(hits.workspaces@[nc as int].rect.y, 1);
                                        before.push((end, if bottom <= next_top { bottom } else { next_top }))
                                    } else {
                                        before
                                    },
                                    PanelRow::Header(_) => before,
                                }
                            }
                        },
                    }
                }
            } else {
                seq![(SpaceDropTarget::Before(hit.workspace_id), sat_sub(hit.rect.y, 1))]
            }
        },
    }
}

/// The slots of the first `n` panel rows.
pub open spec fn slots_walk(
    snap: ClientShellSnapshot,
    hits: ShellHitMap,
    ep: Seq<char>,
    rows: Seq<(u16, PanelRow)>,
    folder_drag: bool,
    n: int,
) -> Seq<(SpaceDropTarget, u16)>
    decreases n,
{
    if n <= 0 {
        seq![]
    } else {
        slots_walk(snap, hits, ep, rows, folder_drag, n - 1) + slots_at(snap, hits, ep, rows, folder_drag, n - 1)
    }
}

/// Every natural slot of the panel, ending with `End` below the last row.
pub open spec fn natural_slots(snap: ClientShellSnapshot, hits: ShellHitMap, ep: Seq<char>, folder_drag: bool) -> Seq<(SpaceDropTarget, u16)> {
    let rows = panel_rows(hits, ep);
    let walked = slots_walk(snap, hits, ep, rows, folder_drag, rows.len() as int);
    if rows.len() == 0 {
        walked
    } else {
        let bottom = match rows.last().1 {
            PanelRow::Header(h) => hits.folder_headers@[h as int].rect.bottom_spec(),
            PanelRow::Card(c) => block_bottom_spec(hits, ep, hits.workspaces@[c as int]),
        };
        walked.push((SpaceDropTarget::End, bottom))
    }
}

/// How far a slot's row is from row `y`; a slot without a row is as far as can be.
pub open spec fn slot_distance(y: u16, slot: SpaceDropSlot) -> int {
    let row = match slot.row {
        Some(r) => r,
        None => u16::MAX,
    };
    if y >= row { y - row } else { row - y }
}

/// The nearest eligible slot among the first `n`, the earliest on ties.
pub open spec fn nearest_slot(slots: Seq<SpaceDropSlot>, y: u16, folder_drag: bool, n: int) -> Option<int>
    decreases n,
{
    if n <= 0 {
        None
    } else {
        let best = nearest_slot(slots, y, folder_drag, n - 1);
        let k = n - 1;
        if folder_drag && !slots[k].target.is_top_level_spec() {
            best
        } else {
            match best {
                Some(b) => if slot_distance(y, slots[k]) < slot_distance(y, slots[b]) { Some(k) } else { Some(b) },
                None => Some(k),
            }
        }
    }
}

/// The row below which no slot is drawn: the lower of the panel body's
/// bottom and the new-space button.
pub open spec fn panel_limit(hits: ShellHitMap) -> u16 {
    let b = hits.workspace_body.bottom_spec();
    if hits.new_workspace.y >= b { hits.new_workspace.y } else { b }
}

/// Whether `point` is on a card or header another endpoint drew.
pub open spec fn foreign_hit(st: ClientShellState, point: (u16, u16)) -> bool {
    ||| exists|i: int| 0 <= i < st.hits.workspaces@.len()
        && st.hits.workspaces@[i].endpoint_id@ != st.active_endpoint_id@
        && contains_spec(#[trigger] st.hits.workspaces@[i].rect, point)
    ||| exists|i: int| 0 <= i < st.hits.folder_headers@.len()
        && st.hits.folder_headers@[i].endpoint_id@ != st.active_endpoint_id@
        && contains_spec(#[trigger] st.hits.folder_headers@[i].rect, point)
}

/// Whether a header is the endpoint's own and under `point`.
pub open spec fn own_header_at(ep: Seq<char>, point: (u16, u16)) -> spec_fn(FolderHit) -> bool {
    |h: FolderHit| h.endpoint_id@ == ep && contains_spec(h.rect, point)
}

/// The drop slot nearest to `point`: folder headers take space drags
/// into the folder; otherwise the nearest settled slot, of which folder
/// drags only see the top-level ones.
pub open spec fn drop_slot_spec(st: ClientShellState, point: (u16, u16), source: SpaceDragSource) -> Option<SpaceDropSlot> {
    let hits = st.hits;
    let body = hits.workspace_body;
    if body.height == 0 || point.1 < sat_sub(body.y, 1) || point.1 >= panel_limit(hits) || foreign_hit(st, point) {
        None
    } else {
        match st.snapshot {
            None => None,
            Some(snap) => {
                let ep = st.active_endpoint_id@;
                match first_match(hits.folder_headers@, own_header_at(ep, point)) {
                    Some(h) if source is Workspace => Some(SpaceDropSlot {
                        target: SpaceDropTarget::IntoFolder(hits.folder_headers@[h].folder_id),
                        row: None,
                    }),
                    _ => {
                        let folder_drag = source is Folder;
                        let settled = settle_spec(natural_slots(snap, hits, ep, folder_drag), panel_limit(hits));
                        match nearest_slot(settled, point.1, folder_drag, settled.len() as int) {
                            Some(k) => Some(settled[k]),
                            None => None,
                        }
                    },
                }
            },
        }
    }
}

/// The rows of own headers and top-level cards, in hit order.
fn unsorted_rows(hits: &ShellHitMap, ep: &str) -> (r: Vec<(u16, PanelRow)>)
    ensures
        r@ == header_rows(*hits, ep@, hits.folder_headers@.len() as int) + card_rows(*hits, ep@, hits.workspaces@.len() as int),
{
    let mut r: Vec<(u16, PanelRow)> = Vec::new();
    let mut i: usize = 0;
    while i < hits.folder_headers.len()
        invariant
            i <= hits.folder_headers@.len(),
            r@ == header_rows(*hits, ep@, i as int),
        decreases hits.folder_headers.len() - i,
    {
        let ghost r0 = r@;
        if str_eq(hits.folder_headers[i].endpoint_id.as_str(), ep) {
            r.push((hits.folder_headers[i].rect.y, PanelRow::Header(i)));
            proof { assert(r@ =~= r0 + seq![(hits.folder_headers@[i as int].rect.y, PanelRow::Header(i))]); }
        } else {
            proof { assert(r0 + Seq::<(u16, PanelRow)>::empty() =~= r0); }
        }
        i = i + 1;
    }
    let ghost hr = r@;
    let mut j: usize = 0;
    while j < hits.workspaces.len()
        invariant
            j <= hits.workspaces@.len(),
            hr == header_rows(*hits, ep@, hits.folder_headers@.len() as int),
            r@ == hr + card_rows(*hits, ep@, j as int),
        decreases hits.workspaces.len() - j,
    {
        let ghost r0 = r@;
        let w = &hits.workspaces[j];
        if str_eq(w.endpoint_id.as_str(), ep) && !w.indented {
            r.push((w.rect.y, PanelRow::Card(j)));
            proof { assert(r@ =~= hr + (card_rows(*hits, ep@, j as int) + seq![(w.rect.y, PanelRow::Card(j))])); }
        } else {
            proof { assert(card_rows(*hits, ep@, j as int) + Seq::<(u16, PanelRow)>::empty() =~= card_rows(*hits, ep@, j as int)); }
        }
        j = j + 1;
    }
    r
}

/// Rows sorted top to bottom, stable among equal rows.
fn sort_rows(v: &Vec<(u16, PanelRow)>) -> (r: Vec<(u16, PanelRow)>)
    ensures
        r@ == sorted_rows(v@),
{
    let mut t: Vec<(u16, PanelRow)> = Vec::new();
    let mut i: usize = 0;
    while i < v.len()
        invariant
            i <= v@.len(),
            t@ == sorted_rows(v@.take(i as int)),
        decreases v.len() - i,
    {
        let x = v[i];
        let ghost p = below(x.0);
        let mut j: usize = 0;
        while j < t.len()
            invariant
                j <= t@.len(),
                p == below(x.0),
                first_match(t@.take(j as int), p) is None,
            ensures
                j <= t@.len(),
                j < t@.len() ==> first_match(t@, p) == Some(j as int),
                j == t@.len() ==> first_match(t@.take(j as int), p) is None,
            decreases t.len() - j,
        {
            proof { lemma_step(t@, j as int, p); }
            if t[j].0 > x.0 {
                proof { lemma_prefix_first(t@, j as int + 1, p); }
                break;
            }
            j = j + 1;
        }
        proof {
            if j == t@.len() {
                assert(t@.take(j as int) =~= t@);
            }
            assert(v@.take(i + 1).drop_last() =~= v@.take(i as int));
            assert(v@.take(i + 1).last() == x);
            lemma_first_match(t@, p);
        }
        t.insert(j, x);
        i = i + 1;
    }
    proof { assert(v@.take(v@.len() as int) =~= v@); }
    t
}

/// The bottom of the block a card starts (see `block_bottom_spec`).
fn block_bottom(hits: &ShellHitMap, ep: &str, w: &WorkspaceHit) -> (r: u16)
    ensures
        r == block_bottom_spec(*hits, ep@, *w),
{
    let mut bottom = w.rect.bottom();
    let mut seen = false;
    let mut stopped = false;
    let mut i: usize = 0;
    while i < hits.workspaces.len()
        invariant
            i <= hits.workspaces@.len(),
            (bottom, seen, stopped) == child_bottom(*hits, ep@, *w, i as int),
        decreases hits.workspaces.len() - i,
    {
        let c = &hits.workspaces[i];
        if str_eq(c.endpoint_id.as_str(), ep) && !stopped {
            if str_eq(c.workspace_id.as_str(), w.workspace_id.as_str()) {
                seen = true;
            } else if seen {
                if c.indented {
                    bottom = c.rect.bottom();
                } else {
                    stopped = true;
                }
            }
        }
        i = i + 1;
    }
    let ghost children = bottom;
    let mut k: usize = 0;
    while k < hits.folder_headers.len()
        invariant
            k <= hits.folder_headers@.len(),
            children == child_bottom(*hits, ep@, *w, hits.workspaces@.len() as int).0,
            bottom == header_clamp(*hits, ep@, w.rect.y, children, k as int),
        decreases hits.folder_headers.len() - k,
    {
        let h = &hits.folder_headers[k];
        if str_eq(h.endpoint_id.as_str(), ep) && h.rect.y > w.rect.y && h.rect.y < bottom {
            bottom = h.rect.y;
        }
        k = k + 1;
    }
    bottom
}

/// Appends the slots of panel row `position` (see `slots_at`).
#[verifier::loop_isolation(false)]
fn push_slots_at(
    snapshot: &ClientShellSnapshot,
    hits: &ShellHitMap,
    ep: &str,
    rows: &Vec<(u16, PanelRow)>,
    folder_drag: bool,
    position: usize,
    slots: &mut Vec<(SpaceDropTarget, u16)>,
)
    requires
        position < rows@.len(),
        forall|k: int| 0 <= k < rows@.len() ==> match (#[trigger] rows@[k]).1 {
            PanelRow::Header(h) => h < hits.folder_headers@.len(),
            PanelRow::Card(c) => c < hits.workspaces@.len(),
        },
    ensures
        final(slots)@ == old(slots)@ + slots_at(*snapshot, *hits, ep@, rows@, folder_drag, position as int),
{
    let ghost s0 = slots@;
    let ghost own = slots_at(*snapshot, *hits, ep@, rows@, folder_drag, position as int);
    match rows[position].1 {
        PanelRow::Header(h) => {
            let fh = &hits.folder_headers[h];
            slots.push((SpaceDropTarget::BeforeFolder(fh.folder_id.clone()), fh.rect.y.saturating_sub(1)));
            proof { assert(slots@ =~= s0 + own); }
        },
        PanelRow::Card(c) => {
            let hit = &hits.workspaces[c];
            if hit.foldered {
                if folder_drag {
                    proof { assert(s0 + own =~= s0); }
                    return;
                }
                let folder = match folder_of_workspace(snapshot, hit.workspace_id.as_str()) {
                    Some(f) => f,
                    None => {
                        proof { assert(s0 + own =~= s0); }
                        return;
                    },
                };
                let first_member = position > 0 && match rows[position - 1].1 {
                    PanelRow::Header(_) => true,
                    PanelRow::Card(_) => false,
                };
                let row = if first_member { hit.rect.y } else { hit.rect.y.saturating_sub(1) };
                slots.push((
                    SpaceDropTarget::InFolderBefore { folder_id: folder.folder_id.clone(), workspace_id: hit.workspace_id.clone() },
                    row,
                ));
                let bottom = block_bottom(hits, ep, hit);
                if position == rows.len() - 1 {
                    slots.push((SpaceDropTarget::InFolderEnd { folder_id: folder.folder_id.clone() }, bottom));
                    proof { assert(slots@ =~= s0 + own); }
                } else {
                    match rows[position + 1].1 {
                        PanelRow::Card(nc) => {
                            let next = &hits.workspaces[nc];
                            if !next.foldered {
                                let next_top = next.rect.y.saturating_sub(1);
                                let end_row = if bottom <= next_top { bottom } else { next_top };
                                slots.push((SpaceDropTarget::InFolderEnd { folder_id: folder.folder_id.clone() }, end_row));
                            }
                            proof { assert(slots@ =~= s0 + own); }
                        },
                        PanelRow::Header(_) => {
                            proof { assert(slots@ =~= s0 + own); }
                        },
                    }
                }
            } else {
                slots.push((SpaceDropTarget::Before(hit.workspace_id.clone()), hit.rect.y.saturating_sub(1)));
                proof { assert(slots@ =~= s0 + own); }
            }
        },
    }
}

proof fn lemma_header_rows_valid(hits: ShellHitMap, ep: Seq<char>, n: int)
    requires
        0 <= n <= hits.folder_headers@.len(),
    ensures
        forall|k: int| 0 <= k < header_rows(hits, ep, n).len() ==> ((#[trigger] header_rows(hits, ep, n)[k]).1 matches PanelRow::Header(h) && h < n),
    decreases n,
{
    if n > 0 {
        lemma_header_rows_valid(hits, ep, n - 1);
    }
}

proof fn lemma_card_rows_valid(hits: ShellHitMap, ep: Seq<char>, n: int)
    requires
        0 <= n <= hits.workspaces@.len(),
    ensures
        forall|k: int| 0 <= k < card_rows(hits, ep, n).len() ==> ((#[trigger] card_rows(hits, ep, n)[k]).1 matches PanelRow::Card(c) && c < n),
    decreases n,
{
    if n > 0 {
        lemma_card_rows_valid(hits, ep, n - 1);
    }
}

/// Sorting keeps every row of the input.
proof fn lemma_sorted_rows_from(s: Seq<(u16, PanelRow)>)
    ensures
        forall|k: int| 0 <= k < sorted_rows(s).len() ==> s.contains(#[trigger] sorted_rows(s)[k]),
    decreases s.len(),
{
    if s.len() > 0 {
        lemma_sorted_rows_from(s.drop_last());
        let t = sorted_rows(s.drop_last());
        let p = insert_point(t, s.last().0);
        lemma_first_match(t, below(s.last().0));
        assert forall|k: int| 0 <= k < sorted_rows(s).len() implies s.contains(#[trigger] sorted_rows(s)[k]) by {
            let x = sorted_rows(s)[k];
            if k < p {
                assert(x == t[k]);
                assert(s.drop_last().contains(x));
                let j = choose|j: int| 0 <= j < s.drop_last().len() && s.drop_last()[j] == x;
                assert(s[j] == x);
            } else if k == p {
                assert(s[s.len() - 1] == x);
            } else {
                assert(x == t[k - 1]);
                assert(s.drop_last().contains(x));
                let j = choose|j: int| 0 <= j < s.drop_last().len() && s.drop_last()[j] == x;
                assert(s[j] == x);
            }
        }
    }
}

impl ClientShellState {
    /// The drop slot nearest to `point`. Folder drags only see top-level
    /// slots; a space dragged onto a folder header files into that folder.
    pub fn space_drop_slot_at(&self, point: (u16, u16), source: &SpaceDragSource) -> (r: Option<SpaceDropSlot>)
        ensures
            r == drop_slot_spec(*self, point, *source),
    {
        let hits = &self.hits;
        let body = hits.workspace_body;
        let body_bottom = body.bottom();
        let limit = if hits.new_workspace.y >= body_bottom { hits.new_workspace.y } else { body_bottom };
        if body.height == 0 || point.1 < body.y.saturating_sub(1) || point.1 >= limit {
            return None;
        }
        let ep = self.active_endpoint_id.as_str();
        let mut i: usize = 0;
        while i < hits.workspaces.len()
            invariant
                i <= hits.workspaces@.len(),
                ep@ == self.active_endpoint_id@,
                *hits == self.hits,
                forall|j: int| 0 <= j < i ==> !(hits.workspaces@[j].endpoint_id@ != ep@
                    && contains_spec(#[trigger] hits.workspaces@[j].rect, point)),
            decreases hits.workspaces.len() - i,
        {
            if !str_eq(hits.workspaces[i].endpoint_id.as_str(), ep) && contains(hits.workspaces[i].rect, point) {
                assert(contains_spec(hits.workspaces@[i as int].rect, point));
                return None;
            }
            i = i + 1;
        }
        let mut k: usize = 0;
        while k < hits.folder_headers.len()
            invariant
                k <= hits.folder_headers@.len(),
                ep@ == self.active_endpoint_id@,
                *hits == self.hits,
                forall|j: int| 0 <= j < k ==> !(hits.folder_headers@[j].endpoint_id@ != ep@
                    && contains_spec(#[trigger] hits.folder_headers@[j].rect, point)),
            decreases hits.folder_headers.len() - k,
        {
            if !str_eq(hits.folder_headers[k].endpoint_id.as_str(), ep) && contains(hits.folder_headers[k].rect, point) {
                assert(contains_spec(hits.folder_headers@[k as int].rect, point));
                return None;
            }
            k = k + 1;
        }
        let snapshot = match &self.snapshot {
            Some(s) => s,
            None => return None,
        };
        let ghost hp = own_header_at(ep@, point);
        let mut h: usize = 0;
        let mut header_hit: Option<usize> = None;
        while h < hits.folder_headers.len()
            invariant_except_break
                header_hit is None,
            invariant
                h <= hits.folder_headers@.len(),
                hp == own_header_at(ep@, point),
                first_match(hits.folder_headers@.take(h as int), hp) is None,
            ensures
                header_hit matches Some(x) ==> x < hits.folder_headers@.len() && first_match(hits.folder_headers@, hp) == Some(x as int),
                header_hit is None ==> first_match(hits.folder_headers@.take(h as int), hp) is None
                    && h == hits.folder_headers@.len(),
            decreases hits.folder_headers.len() - h,
        {
            proof { lemma_step(hits.folder_headers@, h as int, hp); }
            if str_eq(hits.folder_headers[h].endpoint_id.as_str(), ep) && contains(hits.folder_headers[h].rect, point) {
                proof { lemma_prefix_first(hits.folder_headers@, h as int + 1, hp); }
                header_hit = Some(h);
                break;
            }
            h = h + 1;
        }
        if header_hit.is_none() {
            proof { assert(hits.folder_headers@.take(h as int) =~= hits.folder_headers@); }
        }
        let folder_drag = match source {
            SpaceDragSource::Folder(_) => true,
            SpaceDragSource::Workspace(_) => false,
        };
        if let Some(x) = header_hit {
            if !folder_drag {
                return Some(SpaceDropSlot {
                    target: SpaceDropTarget::IntoFolder(hits.folder_headers[x].folder_id.clone()),
                    row: None,
                });
            }
        }
        let unsorted = unsorted_rows(hits, ep);
        let rows = sort_rows(&unsorted);
        proof {
            lemma_header_rows_valid(*hits, ep@, hits.folder_headers@.len() as int);
            lemma_card_rows_valid(*hits, ep@, hits.workspaces@.len() as int);
            lemma_sorted_rows_from(unsorted@);
            assert forall|q: int| 0 <= q < rows@.len() implies match (#[trigger] rows@[q]).1 {
                PanelRow::Header(hh) => hh < hits.folder_headers@.len(),
                PanelRow::Card(c) => c < hits.workspaces@.len(),
            } by {
                let x = rows@[q];
                assert(unsorted@.contains(x));
                let j = choose|j: int| 0 <= j < unsorted@.len() && unsorted@[j] == x;
                let hr = header_rows(*hits, ep@, hits.folder_headers@.len() as int);
                if j < hr.len() {
                    assert(unsorted@[j] == hr[j]);
                } else {
                    assert(unsorted@[j] == card_rows(*hits, ep@, hits.workspaces@.len() as int)[j - hr.len()]);
                }
            }
        }
        let mut slots: Vec<(SpaceDropTarget, u16)> = Vec::new();
        let mut position: usize = 0;
        while position < rows.len()
            invariant
                position <= rows@.len(),
                forall|q: int| 0 <= q < rows@.len() ==> match (#[trigger] rows@[q]).1 {
                    PanelRow::Header(hh) => hh < hits.folder_headers@.len(),
                    PanelRow::Card(c) => c < hits.workspaces@.len(),
                },
                slots@ == slots_walk(*snapshot, *hits, ep@, rows@, folder_drag, position as int),
            decreases rows.len() - position,
        {
            push_slots_at(snapshot, hits, ep, &rows, folder_drag, position, &mut slots);
            position = position + 1;
        }
        if rows.len() > 0 {
            let bottom = match rows[rows.len() - 1].1 {
                PanelRow::Header(hh) => hits.folder_headers[hh].rect.bottom(),
                PanelRow::Card(c) => block_bottom(hits, ep, &hits.workspaces[c]),
            };
            slots.push((SpaceDropTarget::End, bottom));
        }
        let settled = settle_slot_rows(slots, limit);
        let ghost ss = settled@;
        let mut best: Option<usize> = None;
        let mut q: usize = 0;
        while q < settled.len()
            invariant
                q <= settled@.len(),
                ss == settled@,
                best matches Some(b) ==> b < q && nearest_slot(ss, point.1, folder_drag, q as int) == Some(b as int),
                best is None ==> nearest_slot(ss, point.1, folder_drag, q as int) is None,
            decreases settled.len() - q,
        {
            let eligible = !folder_drag || settled[q].target.is_top_level();
            if eligible {
                let here = match settled[q].row {
                    Some(rw) => rw,
                    None => u16::MAX,
                };
                let d = if point.1 >= here { point.1 - here } else { here - point.1 };
                match best {
                    Some(b) => {
                        let there = match settled[b].row {
                            Some(rw) => rw,
                            None => u16::MAX,
                        };
                        let d_best = if point.1 >= there { point.1 - there } else { there - point.1 };
                        if d < d_best {
                            best = Some(q);
                        }
                    },
                    None => best = Some(q),
                }
            }
            q = q + 1;
        }
        match best {
            Some(b) => Some(clone_slot(&settled[b])),
            None => None,
        }
    }
}

/// A copy of a drop slot.
pub fn clone_slot(s: &SpaceDropSlot) -> (r: SpaceDropSlot)
    ensures
        r == *s,
{
    SpaceDropSlot { target: clone_target(&s.target), row: s.row }
}

} // verus!
