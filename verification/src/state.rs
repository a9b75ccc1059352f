//! The application state the folder operations act on: the workspaces, in
//! display order, the focus, and the space order.
use vstd::prelude::*;
use crate::folder::{
    canonical_spec, canonical_workspace_ids, clone_strings, count_of, entries_view, find_folder, folder_id_spec,
    folder_index, folder_of_spec, generate_folder_id, ids_view, loose_entries, normalize_spec, normalized_space_order,
    strs, EntryV, FolderIdAllocator, FolderV, SpaceOrderEntry, Folder,
};
use crate::text::{is_blank, trim, trim_spec};
use crate::text::str_eq;
use crate::folder_laws::{lemma_canonical_is_permutation, lemma_count_contains};
use crate::coalesce::{coalesce_blocks, coalesce_order, coalesce_seq, fams_view, lemma_coalesce_order_range};

verus! {

/// A workspace's membership in a worktree family: checkouts of one
/// repository that the sidebar draws together, parent checkout first.
#[derive(Debug, Clone, PartialEq, Eq)]
pub struct WorktreeSpaceMembership {
    pub key: String,
    pub label: String,
    pub repo_root: String,
    pub checkout_path: String,
    pub is_linked_worktree: bool,
}

/// A workspace, as far as folders are concerned.
#[derive(Debug, Clone, PartialEq, Eq)]
pub struct Workspace {
    pub id: String,
    pub custom_name: Option<String>,
    pub worktree_space: Option<WorktreeSpaceMembership>,
}

impl Workspace {
    /// A workspace with the given id and name, outside any worktree family.
    pub fn new(id: &str, name: &str) -> (r: Self)
        ensures
            r.id@ == id@,
            r.custom_name matches Some(n) && n@ == name@,
            r.worktree_space is None,
    {
        Workspace { id: id.to_owned(), custom_name: Some(name.to_owned()), worktree_space: None }
    }

    pub fn worktree_space(&self) -> (r: Option<&WorktreeSpaceMembership>)
        ensures
            r == match &self.worktree_space {
                Some(s) => Some(s),
                None => None::<&WorktreeSpaceMembership>,
            },
    {
        match &self.worktree_space {
            Some(s) => Some(s),
            None => None,
        }
    }
}

/// Why a folder mutation was rejected.
#[derive(Debug, Clone, Copy, PartialEq, Eq)]
pub enum FolderMutationError {
    EmptyName,
    WorkspaceNotFound,
    FolderNotFound,
}

/// The application state.
pub struct AppState {
    pub workspaces: Vec<Workspace>,
    pub active: Option<usize>,
    pub selected: usize,
    pub space_order: Vec<SpaceOrderEntry>,
    pub session_dirty: bool,
    pub folder_ids: FolderIdAllocator,
    /// The version of an update waiting to be installed, if any.
    pub update_available: Option<String>,
    /// Release notes for the installed version are there to read.
    pub latest_release_notes_available: bool,
}

/// The abstract value of the state.
#[verifier::ext_equal]
pub struct StateV {
    pub ws: Seq<Workspace>,
    pub active: Option<usize>,
    pub selected: usize,
    pub order: Seq<EntryV>,
    pub dirty: bool,
    pub next_id: u64,
    pub update_available: Option<Seq<char>>,
    pub release_notes: bool,
}

impl View for AppState {
    type V = StateV;

    open spec fn view(&self) -> StateV {
        StateV {
            ws: self.workspaces@,
            active: self.active,
            selected: self.selected,
            order: entries_view(self.space_order@),
            dirty: self.session_dirty,
            next_id: self.folder_ids.next,
            update_available: match &self.update_available {
                Some(v) => Some(v@),
                None => None,
            },
            release_notes: self.latest_release_notes_available,
        }
    }
}

/// The ids of the workspaces, in order.
pub open spec fn ws_ids(ws: Seq<Workspace>) -> Seq<Seq<char>> {
    ws.map_values(|w: Workspace| w.id@)
}

/// The position of the first occurrence of `x`.
pub open spec fn first_pos<A>(s: Seq<A>, x: A) -> Option<int>
    decreases s.len(),
{
    if s.len() == 0 {
        None
    } else {
        match first_pos(s.drop_last(), x) {
            Some(i) => Some(i),
            None => if s.last() == x { Some(s.len() - 1) } else { None },
        }
    }
}

/// A workspace's family key and whether it is the family's parent checkout.
pub open spec fn family_of(w: Workspace) -> Option<(Seq<char>, bool)> {
    match w.worktree_space {
        Some(s) => Some((s.key@, !s.is_linked_worktree)),
        None => None,
    }
}

/// The family of the first workspace with id `id`, if any.
pub open spec fn membership(ws: Seq<Workspace>, id: Seq<char>) -> Option<(Seq<char>, bool)> {
    match first_pos(ws_ids(ws), id) {
        Some(i) => family_of(ws[i]),
        None => None,
    }
}

/// Workspace ids are unique.
pub open spec fn state_wf(s: StateV) -> bool {
    ws_ids(s.ws).no_duplicates()
}

/// The flattened normalized order of a state.
pub open spec fn canonical_of(s: StateV) -> Seq<Seq<char>> {
    canonical_spec(s.order, ws_ids(s.ws))
}

pub(crate) proof fn lemma_first_pos<A>(s: Seq<A>, x: A)
    ensures
        first_pos(s, x) matches Some(i) ==> (0 <= i < s.len() && s[i] == x
            && forall|j: int| 0 <= j < i ==> s[j] != x),
        first_pos(s, x) is None ==> !s.contains(x),
    decreases s.len(),
{
    if s.len() > 0 {
        lemma_first_pos(s.drop_last(), x);
        assert forall|j: int| 0 <= j < s.len() - 1 implies s[j] == s.drop_last()[j] by {}
        if first_pos(s.drop_last(), x) is None {
            assert forall|j: int| 0 <= j < s.len() - 1 implies s[j] != x by {
                if s[j] == x {
                    assert(s.drop_last()[j] == x);
                }
            }
        }
        if first_pos(s.drop_last(), x) is None && s.contains(x) {
            let k = choose|k: int| 0 <= k < s.len() && s[k] == x;
            if k < s.len() - 1 {
                assert(s.drop_last()[k] == x);
            }
        }
    }
}

/// The index of the first workspace with id `id`.
fn find_workspace(ws: &Vec<Workspace>, id: &str) -> (r: Option<usize>)
    ensures
        r matches Some(i) ==> first_pos(ws_ids(ws@), id@) == Some(i as int) && i < ws@.len(),
        r is None ==> first_pos(ws_ids(ws@), id@) is None,
{
    let ghost ids = ws_ids(ws@);
    let mut i: usize = 0;
    while i < ws.len()
        invariant
            i <= ws@.len(),
            ids == ws_ids(ws@),
            first_pos(ids.take(i as int), id@) is None,
        decreases ws.len() - i,
    {
        assert(ids.take(i + 1).drop_last() =~= ids.take(i as int));
        if str_eq(ws[i].id.as_str(), id) {
            assert(first_pos(ids.take(i + 1), id@) == Some(i as int));
            proof { lemma_first_pos_prefix(ids, i + 1, id@); }
            return Some(i);
        }
        i = i + 1;
    }
    assert(ids.take(ws@.len() as int) =~= ids);
    None
}

proof fn lemma_first_pos_prefix<A>(s: Seq<A>, k: int, x: A)
    requires
        0 <= k <= s.len(),
        first_pos(s.take(k), x) is Some,
    ensures
        first_pos(s, x) == first_pos(s.take(k), x),
    decreases s.len(),
{
    if k == s.len() {
        assert(s.take(k) =~= s);
    } else {
        assert(s.drop_last().take(k) =~= s.take(k));
        lemma_first_pos_prefix(s.drop_last(), k, x);
    }
}

/// A copy of a workspace.
fn clone_workspace(w: &Workspace) -> (r: Workspace)
    ensures
        r == *w,
{
    let custom_name = match &w.custom_name {
        Some(n) => Some(n.clone()),
        None => None,
    };
    let worktree_space = match &w.worktree_space {
        Some(s) => Some(WorktreeSpaceMembership {
            key: s.key.clone(),
            label: s.label.clone(),
            repo_root: s.repo_root.clone(),
            checkout_path: s.checkout_path.clone(),
            is_linked_worktree: s.is_linked_worktree,
        }),
        None => None,
    };
    Workspace { id: w.id.clone(), custom_name, worktree_space }
}

/// A copy of a space-order entry.
pub fn clone_entry(e: &SpaceOrderEntry) -> (r: SpaceOrderEntry)
    ensures
        r@ == e@,
{
    match e {
        SpaceOrderEntry::Workspace(id) => SpaceOrderEntry::Workspace(id.clone()),
        SpaceOrderEntry::Folder(f) => SpaceOrderEntry::Folder(
            Folder { id: f.id.clone(), name: f.name.clone(), members: clone_strings(&f.members) },
        ),
    }
}

/// Whether two lists of strings hold the same text.
pub fn strings_equal(a: &Vec<String>, b: &Vec<String>) -> (r: bool)
    ensures
        r == (strs(a@) == strs(b@)),
{
    if a.len() != b.len() {
        assert(strs(a@).len() != strs(b@).len());
        return false;
    }
    let mut i: usize = 0;
    while i < a.len()
        invariant
            a@.len() == b@.len(),
            i <= a@.len(),
            forall|k: int| 0 <= k < i ==> strs(a@)[k] == strs(b@)[k],
        decreases a.len() - i,
    {
        if !str_eq(a[i].as_str(), b[i].as_str()) {
            assert(strs(a@)[i as int] != strs(b@)[i as int]);
            return false;
        }
        i = i + 1;
    }
    assert(strs(a@) =~= strs(b@));
    true
}

/// Whether two space orders hold the same entries.
pub fn entries_equal(a: &Vec<SpaceOrderEntry>, b: &Vec<SpaceOrderEntry>) -> (r: bool)
    ensures
        r == (entries_view(a@) == entries_view(b@)),
{
    if a.len() != b.len() {
        assert(entries_view(a@).len() != entries_view(b@).len());
        return false;
    }
    let mut i: usize = 0;
    while i < a.len()
        invariant
            a@.len() == b@.len(),
            i <= a@.len(),
            forall|k: int| 0 <= k < i ==> entries_view(a@)[k] == entries_view(b@)[k],
        decreases a.len() - i,
    {
        let same = match (&a[i], &b[i]) {
            (SpaceOrderEntry::Workspace(x), SpaceOrderEntry::Workspace(y)) => str_eq(x.as_str(), y.as_str()),
            (SpaceOrderEntry::Folder(x), SpaceOrderEntry::Folder(y)) => {
                str_eq(x.id.as_str(), y.id.as_str()) && str_eq(x.name.as_str(), y.name.as_str())
                    && strings_equal(&x.members, &y.members)
            },
            _ => false,
        };
        if !same {
            assert(entries_view(a@)[i as int] != entries_view(b@)[i as int]);
            return false;
        }
        i = i + 1;
    }
    assert(entries_view(a@) =~= entries_view(b@));
    true
}

/// The ids of the workspaces, as string slices.
pub fn workspace_id_strs(ws: &Vec<Workspace>) -> (r: Vec<&str>)
    ensures
        ids_view(r@) == ws_ids(ws@),
{
    let mut r: Vec<&str> = Vec::new();
    let mut i: usize = 0;
    while i < ws.len()
        invariant
            i <= ws@.len(),
            ids_view(r@) == ws_ids(ws@).take(i as int),
        decreases ws.len() - i,
    {
        let ghost before = r@;
        let s = ws[i].id.as_str();
        r.push(s);
        assert(ids_view(r@) =~= ids_view(before).push(s@));
        assert(ws_ids(ws@).take(i + 1) =~= ws_ids(ws@).take(i as int).push(ws@[i as int].id@));
        assert(ids_view(r@) =~= ws_ids(ws@).take(i + 1));
        i = i + 1;
    }
    assert(ws_ids(ws@).take(ws@.len() as int) =~= ws_ids(ws@));
    r
}

/// The families of the top-level entries: a loose workspace's family; none for folders.
pub open spec fn entry_fams(ws: Seq<Workspace>, entries: Seq<EntryV>) -> Seq<Option<(Seq<char>, bool)>> {
    entries.map_values(|e: EntryV| match e {
        EntryV::Workspace(id) => membership(ws, id),
        EntryV::Folder(_) => None,
    })
}

/// The families of a list of workspace ids.
pub open spec fn id_fams(ws: Seq<Workspace>, ids: Seq<Seq<char>>) -> Seq<Option<(Seq<char>, bool)>> {
    ids.map_values(|id: Seq<char>| membership(ws, id))
}

/// Each worktree family gathered into one parent-first block inside its
/// container: among the top-level entries, and inside every folder.
pub open spec fn coalesce_entries_spec(ws: Seq<Workspace>, entries: Seq<EntryV>) -> Seq<EntryV> {
    coalesce_seq(entries, entry_fams(ws, entries)).map_values(|e: EntryV| match e {
        EntryV::Folder(f) => EntryV::Folder(FolderV { members: coalesce_seq(f.members, id_fams(ws, f.members)), ..f }),
        EntryV::Workspace(w) => EntryV::Workspace(w),
    })
}

fn pick_entries(items: &Vec<SpaceOrderEntry>, order: &Vec<usize>) -> (r: Vec<SpaceOrderEntry>)
    requires
        forall|k: int| 0 <= k < order@.len() ==> order@[k] < items@.len(),
    ensures
        entries_view(r@) == Seq::new(order@.len(), |k: int| entries_view(items@)[order@[k] as int]),
{
    let mut r: Vec<SpaceOrderEntry> = Vec::new();
    let mut k: usize = 0;
    while k < order.len()
        invariant
            k <= order@.len(),
            forall|j: int| 0 <= j < order@.len() ==> order@[j] < items@.len(),
            entries_view(r@) == Seq::new(k as nat, |j: int| entries_view(items@)[order@[j] as int]),
        decreases order.len() - k,
    {
        let e = clone_entry(&items[order[k]]);
        let ghost before = entries_view(r@);
        r.push(e);
        assert(entries_view(r@) =~= before.push(e@));
        assert(e@ == entries_view(items@)[order@[k as int] as int]);
        assert(entries_view(r@) =~= Seq::new((k + 1) as nat, |j: int| entries_view(items@)[order@[j] as int]));
        k = k + 1;
    }
    r
}

fn pick_strings(items: &Vec<String>, order: &Vec<usize>) -> (r: Vec<String>)
    requires
        forall|k: int| 0 <= k < order@.len() ==> order@[k] < items@.len(),
    ensures
        strs(r@) == Seq::new(order@.len(), |k: int| strs(items@)[order@[k] as int]),
{
    let mut r: Vec<String> = Vec::new();
    let mut k: usize = 0;
    while k < order.len()
        invariant
            k <= order@.len(),
            forall|j: int| 0 <= j < order@.len() ==> order@[j] < items@.len(),
            strs(r@) == Seq::new(k as nat, |j: int| strs(items@)[order@[j] as int]),
        decreases order.len() - k,
    {
        let e = items[order[k]].clone();
        let ghost before = strs(r@);
        r.push(e);
        assert(strs(r@) =~= before.push(e@));
        assert(e@ == strs(items@)[order@[k as int] as int]);
        assert(strs(r@) =~= Seq::new((k + 1) as nat, |j: int| strs(items@)[order@[j] as int]));
        k = k + 1;
    }
    r
}

/// The coalesced copy of a list of workspace ids.
fn coalesce_ids(ws: &Vec<Workspace>, ids: &Vec<String>) -> (r: Vec<String>)
    ensures
        strs(r@) == coalesce_seq(strs(ids@), id_fams(ws@, strs(ids@))),
{
    let ghost target = id_fams(ws@, strs(ids@));
    let mut fams: Vec<Option<(String, bool)>> = Vec::new();
    let mut i: usize = 0;
    while i < ids.len()
        invariant
            i <= ids@.len(),
            target == id_fams(ws@, strs(ids@)),
            fams_view(fams@) == target.take(i as int),
        decreases ids.len() - i,
    {
        let m = family_membership(ws, ids[i].as_str());
        let ghost before = fams_view(fams@);
        fams.push(m);
        assert(fams_view(fams@) =~= before.push(crate::coalesce::fam_view(m)));
        assert(target.take(i + 1) =~= target.take(i as int).push(target[i as int]));
        i = i + 1;
    }
    assert(target.take(ids@.len() as int) =~= target);
    let order = coalesce_blocks(&fams);
    proof {
        lemma_coalesce_order_range(target, target.len() as int);
        assert forall|k: int| 0 <= k < order@.len() implies order@[k] < ids@.len() by {
            assert(order@.map_values(|x: usize| x as int)[k] == order@[k] as int);
        }
    }
    let r = pick_strings(ids, &order);
    assert(strs(r@) =~= coalesce_seq(strs(ids@), target));
    r
}

/// The family of the first workspace with id `id`.
fn family_membership(ws: &Vec<Workspace>, id: &str) -> (r: Option<(String, bool)>)
    ensures
        crate::coalesce::fam_view(r) == membership(ws@, id@),
{
    match find_workspace(ws, id) {
        Some(i) => match &ws[i].worktree_space {
            Some(space) => Some((space.key.clone(), !space.is_linked_worktree)),
            None => None,
        },
        None => None,
    }
}

/// Gather each worktree family into one parent-first block inside its
/// container, matching how the sidebar draws it.
pub fn coalesce_family_blocks(ws: &Vec<Workspace>, entries: &mut Vec<SpaceOrderEntry>)
    ensures
        entries_view(final(entries)@) == coalesce_entries_spec(ws@, entries_view(old(entries)@)),
{
    let ghost ev = entries_view(entries@);
    let ghost target = entry_fams(ws@, ev);
    let mut fams: Vec<Option<(String, bool)>> = Vec::new();
    let mut i: usize = 0;
    while i < entries.len()
        invariant
            i <= entries@.len(),
            ev == entries_view(entries@),
            target == entry_fams(ws@, ev),
            fams_view(fams@) == target.take(i as int),
        decreases entries.len() - i,
    {
        let m = match &entries[i] {
            SpaceOrderEntry::Workspace(id) => family_membership(ws, id.as_str()),
            SpaceOrderEntry::Folder(_) => None,
        };
        let ghost before = fams_view(fams@);
        fams.push(m);
        assert(fams_view(fams@) =~= before.push(crate::coalesce::fam_view(m)));
        assert(target.take(i + 1) =~= target.take(i as int).push(target[i as int]));
        i = i + 1;
    }
    assert(target.take(entries@.len() as int) =~= target);
    let order = coalesce_blocks(&fams);
    proof {
        lemma_coalesce_order_range(target, target.len() as int);
        assert forall|k: int| 0 <= k < order@.len() implies order@[k] < entries@.len() by {
            assert(order@.map_values(|x: usize| x as int)[k] == order@[k] as int);
        }
    }
    let top = pick_entries(entries, &order);
    let ghost topv = coalesce_seq(ev, target);
    assert(entries_view(top@) =~= topv);
    let mut result: Vec<SpaceOrderEntry> = Vec::new();
    let mut j: usize = 0;
    while j < top.len()
        invariant
            j <= top@.len(),
            entries_view(top@) == topv,
            entries_view(result@) == topv.take(j as int).map_values(|e: EntryV| match e {
                EntryV::Folder(f) => EntryV::Folder(FolderV { members: coalesce_seq(f.members, id_fams(ws@, f.members)), ..f }),
                EntryV::Workspace(w) => EntryV::Workspace(w),
            }),
        decreases top.len() - j,
    {
        let e = match &top[j] {
            SpaceOrderEntry::Workspace(id) => SpaceOrderEntry::Workspace(id.clone()),
            SpaceOrderEntry::Folder(f) => SpaceOrderEntry::Folder(
                Folder { id: f.id.clone(), name: f.name.clone(), members: coalesce_ids(ws, &f.members) },
            ),
        };
        let ghost before = entries_view(result@);
        result.push(e);
        assert(entries_view(result@) =~= before.push(e@));
        assert(topv.take(j + 1) =~= topv.take(j as int).push(topv[j as int]));
        j = j + 1;
    }
    assert(topv.take(top@.len() as int) =~= topv);
    *entries = result;
}

impl AppState {
    /// The state view's well-formedness: workspace ids are unique.
    pub open spec fn wf(&self) -> bool {
        state_wf(self@)
    }

    /// The space order flattened, with unlisted workspaces appended at the end.
    pub fn canonical_workspace_order(&self) -> (r: Vec<String>)
        ensures
            strs(r@) == canonical_of(self@),
    {
        let ids = workspace_id_strs(&self.workspaces);
        canonical_workspace_ids(self.space_order.as_slice(), ids.as_slice())
    }
}

/// The workspaces in canonical order: each canonical id's workspace.
pub open spec fn sorted_ws(ws: Seq<Workspace>, canon: Seq<Seq<char>>) -> Seq<Workspace> {
    canon.map_values(|c: Seq<char>| ws[first_pos(ws_ids(ws), c)->Some_0])
}

/// The index of `id` in `canon`, as a focus index.
pub open spec fn focus_in(canon: Seq<Seq<char>>, id: Seq<char>) -> Option<usize> {
    match first_pos(canon, id) {
        Some(p) => Some(p as usize),
        None => None,
    }
}

/// The workspaces re-sorted to the canonical order, keeping `active` and
/// `selected` on the same workspaces.
pub open spec fn sync_spec(s: StateV) -> StateV {
    let canon = canonical_of(s);
    if ws_ids(s.ws) == canon {
        s
    } else {
        StateV {
            ws: sorted_ws(s.ws, canon),
            active: match s.active {
                Some(a) => if a < s.ws.len() { focus_in(canon, s.ws[a as int].id@) } else { None },
                None => None,
            },
            selected: if s.selected < s.ws.len() {
                match focus_in(canon, s.ws[s.selected as int].id@) {
                    Some(p) => p,
                    None => 0,
                }
            } else {
                0
            },
            ..s
        }
    }
}

/// The position of the first string equal to `x`.
pub fn position_of(v: &Vec<String>, x: &str) -> (r: Option<usize>)
    ensures
        r matches Some(i) ==> first_pos(strs(v@), x@) == Some(i as int) && i < v@.len(),
        r is None ==> first_pos(strs(v@), x@) is None,
{
    let ghost ids = strs(v@);
    let mut i: usize = 0;
    while i < v.len()
        invariant
            i <= v@.len(),
            ids == strs(v@),
            first_pos(ids.take(i as int), x@) is None,
        decreases v.len() - i,
    {
        assert(ids.take(i + 1).drop_last() =~= ids.take(i as int));
        if str_eq(v[i].as_str(), x) {
            assert(first_pos(ids.take(i + 1), x@) == Some(i as int));
            proof { lemma_first_pos_prefix(ids, i + 1, x@); }
            return Some(i);
        }
        i = i + 1;
    }
    assert(ids.take(v@.len() as int) =~= ids);
    None
}

fn ids_match(ws: &Vec<Workspace>, ids: &Vec<String>) -> (r: bool)
    ensures
        r == (ws_ids(ws@) == strs(ids@)),
{
    if ws.len() != ids.len() {
        assert(ws_ids(ws@).len() != strs(ids@).len());
        return false;
    }
    let mut i: usize = 0;
    while i < ws.len()
        invariant
            ws@.len() == ids@.len(),
            i <= ws@.len(),
            forall|k: int| 0 <= k < i ==> ws_ids(ws@)[k] == strs(ids@)[k],
        decreases ws.len() - i,
    {
        if !str_eq(ws[i].id.as_str(), ids[i].as_str()) {
            assert(ws_ids(ws@)[i as int] != strs(ids@)[i as int]);
            return false;
        }
        i = i + 1;
    }
    assert(ws_ids(ws@) =~= strs(ids@));
    true
}

impl AppState {
    /// Re-sort `workspaces` to the canonical order, keeping `active` and `selected` by identity.
    pub fn sync_workspaces_to_space_order(&mut self)
        requires
            old(self).wf(),
        ensures
            final(self)@ == sync_spec(old(self)@),
    {
        let ghost s = self@;
        let canonical = self.canonical_workspace_order();
        if ids_match(&self.workspaces, &canonical) {
            return;
        }
        let ghost canon = canonical_of(s);
        proof {
            lemma_canonical_is_permutation(s.order, ws_ids(s.ws));
        }
        let active_id: Option<String> = match self.active {
            Some(a) => if a < self.workspaces.len() { Some(self.workspaces[a].id.clone()) } else { None },
            None => None,
        };
        let selected_id: Option<String> = if self.selected < self.workspaces.len() {
            Some(self.workspaces[self.selected].id.clone())
        } else {
            None
        };
        let mut sorted: Vec<Workspace> = Vec::new();
        let mut k: usize = 0;
        while k < canonical.len()
            invariant
                k <= canonical@.len(),
                strs(canonical@) == canon,
                s.ws == self.workspaces@,
                canon == canonical_of(s),
                forall|x: Seq<char>| #[trigger] crate::folder::count_of(canon, x)
                    == if ws_ids(s.ws).contains(x) { 1nat } else { 0nat },
                sorted@ == sorted_ws(s.ws, canon).take(k as int),
            decreases canonical.len() - k,
        {
            proof {
                let c = canon[k as int];
                assert(canon.contains(c));
                lemma_count_contains(canon, c);
                lemma_first_pos(ws_ids(s.ws), c);
            }
            let found = find_workspace(&self.workspaces, canonical[k].as_str());
            let i = found.unwrap();
            sorted.push(clone_workspace(&self.workspaces[i]));
            assert(sorted_ws(s.ws, canon).take(k + 1) =~= sorted_ws(s.ws, canon).take(k as int).push(s.ws[i as int]));
            k = k + 1;
        }
        assert(sorted_ws(s.ws, canon).take(canonical@.len() as int) =~= sorted_ws(s.ws, canon));
        self.workspaces = sorted;
        self.active = match &active_id {
            Some(id) => position_of(&canonical, id.as_str()),
            None => None,
        };
        self.selected = match &selected_id {
            Some(id) => match position_of(&canonical, id.as_str()) {
                Some(p) => p,
                None => 0,
            },
            None => 0,
        };
        assert(self@ =~= sync_spec(s));
    }
}

/// A sequence in which nothing occurs twice has no duplicates.
pub proof fn lemma_counts_no_dup(s: Seq<Seq<char>>)
    requires
        forall|x: Seq<char>| #[trigger] count_of(s, x) <= 1,
    ensures
        s.no_duplicates(),
{
    assert forall|i: int, j: int| 0 <= i < s.len() && 0 <= j < s.len() && i != j implies s[i] != s[j] by {
        if s[i] == s[j] {
            let (a, b) = if i < j { (i, j) } else { (j, i) };
            let x = s[a];
            assert(s =~= s.take(b) + s.skip(b));
            crate::folder_laws::lemma_count_concat_pub(s.take(b), s.skip(b), x);
            assert(s.take(b)[a] == x);
            lemma_count_contains(s.take(b), x);
            assert(s.skip(b)[0] == x);
            lemma_count_contains(s.skip(b), x);
        }
    }
}

/// Re-sorting keeps workspace ids unique and leaves the workspaces in
/// exactly the canonical order of the state it started from.
pub proof fn lemma_sync_sorts(s: StateV)
    requires
        state_wf(s),
    ensures
        state_wf(sync_spec(s)),
        ws_ids(sync_spec(s).ws) == canonical_of(s),
        sync_spec(s).order == s.order,
{
    let canon = canonical_of(s);
    lemma_canonical_is_permutation(s.order, ws_ids(s.ws));
    if ws_ids(s.ws) != canon {
        let sorted = sorted_ws(s.ws, canon);
        assert forall|k: int| 0 <= k < canon.len() implies ws_ids(sorted)[k] == canon[k] by {
            let c = canon[k];
            assert(canon.contains(c));
            lemma_count_contains(canon, c);
            lemma_first_pos(ws_ids(s.ws), c);
        }
        assert(ws_ids(sorted) =~= canon);
    }
    assert forall|x: Seq<char>| #[trigger] count_of(canon, x) <= 1 by {}
    lemma_counts_no_dup(canon);
}

/// A state's space order normalized and family-coalesced, and whether that
/// changed anything.
pub open spec fn normalize_entries_spec(s: StateV) -> (StateV, bool) {
    let n = coalesce_entries_spec(s.ws, normalize_spec(s.order, ws_ids(s.ws)).0);
    if n == s.order {
        (s, false)
    } else {
        (StateV { order: n, ..s }, true)
    }
}

/// A state with its space order normalized and, if that changed the
/// order, its workspaces re-sorted.
pub open spec fn normalize_state_spec(s: StateV) -> StateV {
    let (s1, changed) = normalize_entries_spec(s);
    if changed { sync_spec(s1) } else { s1 }
}

/// Normalizing keeps workspace ids unique.
pub proof fn lemma_normalize_state_wf(s: StateV)
    requires
        state_wf(s),
    ensures
        state_wf(normalize_state_spec(s)),
{
    let (s1, changed) = normalize_entries_spec(s);
    assert(state_wf(s1));
    if changed {
        lemma_sync_sorts(s1);
    }
}

/// The folder at position `p` of an order (meaningful when a folder is there).
pub open spec fn folder_at(order: Seq<EntryV>, p: int) -> FolderV {
    match order[p] {
        EntryV::Folder(f) => f,
        EntryV::Workspace(w) => FolderV { id: w, name: seq![], members: seq![] },
    }
}

/// The result of creating a folder named `name` in state `s`.
pub open spec fn create_folder_spec(s: StateV, name: Seq<char>) -> (StateV, Result<Seq<char>, FolderMutationError>) {
    if is_blank(name) {
        (s, Err(FolderMutationError::EmptyName))
    } else {
        let s1 = normalize_state_spec(s);
        let id = folder_id_spec(s1.next_id as usize as nat);
        (
            StateV {
                order: s1.order.push(EntryV::Folder(FolderV { id, name: trim_spec(name), members: seq![] })),
                next_id: s1.next_id.wrapping_add(1),
                dirty: true,
                ..s1
            },
            Ok(id),
        )
    }
}

/// The result of renaming folder `id` to `name` in state `s`.
pub open spec fn rename_folder_spec(s: StateV, id: Seq<char>, name: Seq<char>) -> (StateV, Result<(), FolderMutationError>) {
    if is_blank(name) {
        (s, Err(FolderMutationError::EmptyName))
    } else {
        match folder_index(s.order, id) {
            None => (s, Err(FolderMutationError::FolderNotFound)),
            Some(p) => {
                let f = folder_at(s.order, p);
                if f.name == trim_spec(name) {
                    (s, Ok(()))
                } else {
                    (
                        StateV {
                            order: s.order.update(p, EntryV::Folder(FolderV { name: trim_spec(name), ..f })),
                            dirty: true,
                            ..s
                        },
                        Ok(()),
                    )
                }
            },
        }
    }
}

/// The result of deleting folder `id` in state `s`: its members are released
/// loose at its former position.
pub open spec fn delete_folder_spec(s: StateV, id: Seq<char>) -> (StateV, Result<Seq<Seq<char>>, FolderMutationError>) {
    if folder_index(s.order, id) is None {
        (s, Err(FolderMutationError::FolderNotFound))
    } else {
        let s1 = normalize_state_spec(s);
        match folder_index(s1.order, id) {
            None => (s1, Err(FolderMutationError::FolderNotFound)),
            Some(p) => {
                let released = folder_at(s1.order, p).members;
                let order2 = s1.order.take(p) + loose_entries(released) + s1.order.skip(p + 1);
                let s2 = sync_spec(StateV { order: order2, ..s1 });
                (StateV { dirty: true, ..s2 }, Ok(released))
            },
        }
    }
}

/// The result of moving folder `id` to top-level `position` in state `s`:
/// the effective position (clamped to the end) and whether it moved.
pub open spec fn move_folder_spec(s: StateV, id: Seq<char>, position: usize) -> (StateV, Result<(usize, bool), FolderMutationError>) {
    if folder_index(s.order, id) is None {
        (s, Err(FolderMutationError::FolderNotFound))
    } else {
        let s1 = normalize_state_spec(s);
        match folder_index(s1.order, id) {
            None => (s1, Err(FolderMutationError::FolderNotFound)),
            Some(p) => {
                let e = s1.order[p];
                let rest = s1.order.remove(p);
                let target = if position < rest.len() { position } else { rest.len() as usize };
                let order2 = rest.insert(target as int, e);
                let moved = target != p;
                let s2 = StateV { order: order2, ..s1 };
                (if moved { StateV { dirty: true, ..sync_spec(s2) } } else { s2 }, Ok((target, moved)))
            },
        }
    }
}

impl AppState {
    /// Normalize without touching the workspaces vec; returns whether the order changed.
    pub fn normalize_space_order_entries(&mut self) -> (changed: bool)
        ensures
            (final(self)@, changed) == normalize_entries_spec(old(self)@),
    {
        let ghost s = self@;
        let ids = workspace_id_strs(&self.workspaces);
        let mut normalized = normalized_space_order(self.space_order.as_slice(), ids.as_slice());
        coalesce_family_blocks(&self.workspaces, &mut normalized);
        if entries_equal(&normalized, &self.space_order) {
            return false;
        }
        self.space_order = normalized;
        assert(self@ =~= normalize_entries_spec(s).0);
        true
    }

    /// Normalize the space order against the live workspaces and re-sort the
    /// workspaces vec if that reordered anything.
    pub fn normalize_space_order(&mut self)
        requires
            old(self).wf(),
        ensures
            final(self)@ == normalize_state_spec(old(self)@),
            final(self).wf(),
    {
        proof { lemma_normalize_state_wf(self@); }
        if self.normalize_space_order_entries() {
            self.sync_workspaces_to_space_order();
        }
    }

    /// Drop references to removed workspaces. Leaves the vec untouched: callers
    /// repair `active`/`selected` by index afterwards.
    pub fn prune_space_order(&mut self)
        ensures
            final(self)@ == if old(self)@.order.len() == 0 { old(self)@ } else { normalize_entries_spec(old(self)@).0 },
    {
        if self.space_order.is_empty() {
            return;
        }
        self.normalize_space_order_entries();
    }

    fn mark_session_dirty(&mut self)
        ensures
            final(self)@ == (StateV { dirty: true, ..old(self)@ }),
    {
        self.session_dirty = true;
        assert(self@ =~= StateV { dirty: true, ..old(self)@ });
    }

    pub fn folder(&self, folder_id: &str) -> (r: Option<&Folder>)
        ensures
            match folder_index(self@.order, folder_id@) {
                Some(p) => r matches Some(f) && f@ == folder_at(self@.order, p),
                None => r is None,
            },
    {
        match find_folder(&self.space_order, folder_id) {
            Some(p) => {
                proof { crate::folder_laws::lemma_folder_index_found_pub(self@.order, folder_id@); }
                match &self.space_order[p] {
                    SpaceOrderEntry::Folder(f) => Some(f),
                    SpaceOrderEntry::Workspace(_) => None,
                }
            },
            None => None,
        }
    }

    pub fn workspace_folder_id(&self, workspace_id: &str) -> (r: Option<&str>)
        ensures
            match folder_of_spec(self@.order, workspace_id@) {
                Some(f) => r matches Some(x) && x@ == f,
                None => r is None,
            },
    {
        crate::folder::folder_id_of_workspace(self.space_order.as_slice(), workspace_id)
    }

    /// Create a folder at the end of the top level and return its id.
    pub fn create_folder(&mut self, name: &str) -> (r: Result<String, FolderMutationError>)
        requires
            old(self).wf(),
        ensures
            ({
                let (s2, res) = create_folder_spec(old(self)@, name@);
                &&& final(self)@ == s2
                &&& match (r, res) {
                    (Ok(a), Ok(b)) => a@ == b,
                    (Err(a), Err(b)) => a == b,
                    _ => false,
                }
            }),
            crate::name_laws::names_ok(old(self)@.order) ==> crate::name_laws::names_ok(final(self)@.order),
            space_order_invariants(old(self)@)
                && !crate::folder::folder_ids(old(self)@.order).contains(crate::folder::folder_id_spec(old(self)@.next_id as usize as nat))
                ==> space_order_invariants(final(self)@),
            final(self)@.ws.to_multiset() == old(self)@.ws.to_multiset(),
            final(self).wf(),
    {
        proof {
            crate::invariant_laws::lemma_folder_mutations_permute(self@, seq![], name@, 0);
            if crate::name_laws::names_ok(self@.order) {
                crate::name_laws::lemma_create_folder_keeps_names(self@, name@);
            }
            if space_order_invariants(self@)
                && !crate::folder::folder_ids(self@.order).contains(crate::folder::folder_id_spec(self@.next_id as usize as nat)) {
                crate::invariant_laws::lemma_create_folder_keeps_invariants(self@, name@);
            }
        }
        let trimmed = trim(name);
        if trimmed.unicode_len() == 0 {
            return Err(FolderMutationError::EmptyName);
        }
        self.normalize_space_order();
        let ghost s1 = self@;
        let folder_id = generate_folder_id(&mut self.folder_ids);
        let ghost before = entries_view(self.space_order@);
        let members: Vec<String> = Vec::new();
        assert(strs(members@) =~= Seq::<Seq<char>>::empty());
        self.space_order.push(SpaceOrderEntry::Folder(Folder { id: folder_id.clone(), name: trimmed, members }));
        assert(entries_view(self.space_order@) =~= before.push(
            EntryV::Folder(FolderV { id: folder_id@, name: trim_spec(name@), members: seq![] }),
        ));
        self.mark_session_dirty();
        Ok(folder_id)
    }

    /// Rename a folder. Names may repeat; the stored name is trimmed.
    pub fn rename_folder(&mut self, folder_id: &str, name: &str) -> (r: Result<(), FolderMutationError>)
        ensures
            (final(self)@, r) == rename_folder_spec(old(self)@, folder_id@, name@),
            old(self).wf() ==> final(self).wf(),
            space_order_invariants(old(self)@) ==> space_order_invariants(final(self)@),
    {
        proof {
            if space_order_invariants(self@) {
                crate::state_laws::lemma_rename_folder_keeps_invariants(self@, folder_id@, name@);
            }
        }
        let trimmed = trim(name);
        if trimmed.unicode_len() == 0 {
            return Err(FolderMutationError::EmptyName);
        }
        let p = match find_folder(&self.space_order, folder_id) {
            Some(p) => p,
            None => return Err(FolderMutationError::FolderNotFound),
        };
        proof { crate::folder_laws::lemma_folder_index_found_pub(self@.order, folder_id@); }
        let updated = match &self.space_order[p] {
            SpaceOrderEntry::Folder(f) => {
                if str_eq(f.name.as_str(), trimmed.as_str()) {
                    return Ok(());
                }
                SpaceOrderEntry::Folder(Folder { id: f.id.clone(), name: trimmed, members: clone_strings(&f.members) })
            },
            SpaceOrderEntry::Workspace(_) => return Ok(()),
        };
        let ghost before = entries_view(self.space_order@);
        self.space_order.set(p, updated);
        assert(entries_view(self.space_order@) =~= before.update(p as int, updated@));
        self.mark_session_dirty();
        Ok(())
    }
}

/// The ids of `ids` that are not in `aff`, in order.
pub open spec fn without(ids: Seq<Seq<char>>, aff: Seq<Seq<char>>) -> Seq<Seq<char>>
    decreases ids.len(),
{
    if ids.len() == 0 {
        seq![]
    } else {
        without(ids.drop_last(), aff) + if aff.contains(ids.last()) { seq![] } else { seq![ids.last()] }
    }
}

/// An order with the ids of `aff` taken out of every folder and every loose
/// reference to them dropped.
pub open spec fn remove_block(order: Seq<EntryV>, aff: Seq<Seq<char>>) -> Seq<EntryV>
    decreases order.len(),
{
    if order.len() == 0 {
        seq![]
    } else {
        remove_block(order.drop_last(), aff) + match order.last() {
            EntryV::Folder(f) => seq![EntryV::Folder(FolderV { members: without(f.members, aff), ..f })],
            EntryV::Workspace(id) => if aff.contains(id) { seq![] } else { seq![EntryV::Workspace(id)] },
        }
    }
}

/// Whether some workspace with id `id` belongs to the family `key`.
pub open spec fn in_family(ws: Seq<Workspace>, id: Seq<char>, key: Seq<char>) -> bool {
    exists|i: int| 0 <= i < ws.len() && #[trigger] ws[i].id@ == id
        && (ws[i].worktree_space matches Some(sp) && sp.key@ == key)
}

/// The ids of `ids` that belong to the family `key`, in order.
pub open spec fn family_ids(ws: Seq<Workspace>, ids: Seq<Seq<char>>, key: Seq<char>) -> Seq<Seq<char>>
    decreases ids.len(),
{
    if ids.len() == 0 {
        seq![]
    } else {
        family_ids(ws, ids.drop_last(), key) + if in_family(ws, ids.last(), key) { seq![ids.last()] } else { seq![] }
    }
}

/// The family key of the first workspace with id `id`.
pub open spec fn family_key_of(ws: Seq<Workspace>, id: Seq<char>) -> Option<Seq<char>> {
    match first_pos(ws_ids(ws), id) {
        Some(i) => match ws[i].worktree_space {
            Some(sp) => Some(sp.key@),
            None => None,
        },
        None => None,
    }
}

/// A position within a container of `len` entries: the given one clamped
/// to the end, or the end.
pub open spec fn clamp_position(position: Option<usize>, len: nat) -> int {
    match position {
        Some(p) => if p < len { p as int } else { len as int },
        None => len as int,
    }
}

/// The result of assigning workspace `wid` (and its worktree family) to
/// folder `fid`, or to the top level when `fid` is `None`, at `position`.
pub open spec fn assign_spec(s: StateV, wid: Seq<char>, fid: Option<Seq<char>>, position: Option<usize>)
    -> (StateV, Result<Seq<Seq<char>>, FolderMutationError>)
{
    if first_pos(ws_ids(s.ws), wid) is None {
        (s, Err(FolderMutationError::WorkspaceNotFound))
    } else if fid matches Some(f) && folder_index(s.order, f) is None {
        (s, Err(FolderMutationError::FolderNotFound))
    } else {
        let key = family_key_of(s.ws, wid);
        let s1 = normalize_state_spec(s);
        let affected = match key {
            Some(k) => family_ids(s1.ws, canonical_of(s1), k),
            None => seq![wid],
        };
        let order2 = remove_block(s1.order, affected);
        match fid {
            Some(f) => match folder_index(order2, f) {
                None => (sync_spec(StateV { order: order2, ..s1 }), Err(FolderMutationError::FolderNotFound)),
                Some(p) => {
                    let g = folder_at(order2, p);
                    let idx = clamp_position(position, g.members.len());
                    let members = g.members.take(idx) + affected + g.members.skip(idx);
                    let order3 = order2.update(p, EntryV::Folder(FolderV { members, ..g }));
                    (StateV { dirty: true, ..sync_spec(StateV { order: order3, ..s1 }) }, Ok(affected))
                },
            },
            None => {
                let idx = clamp_position(position, order2.len());
                let order3 = order2.take(idx) + loose_entries(affected) + order2.skip(idx);
                (StateV { dirty: true, ..sync_spec(StateV { order: order3, ..s1 }) }, Ok(affected))
            },
        }
    }
}

fn without_ids(ids: &Vec<String>, aff: &Vec<String>) -> (r: Vec<String>)
    ensures
        strs(r@) == without(strs(ids@), strs(aff@)),
{
    let ghost v = strs(ids@);
    let mut r: Vec<String> = Vec::new();
    let mut i: usize = 0;
    assert(v.take(0) =~= Seq::<Seq<char>>::empty());
    assert(strs(r@) =~= Seq::<Seq<char>>::empty());
    while i < ids.len()
        invariant
            i <= ids@.len(),
            v == strs(ids@),
            strs(r@) == without(v.take(i as int), strs(aff@)),
        decreases ids.len() - i,
    {
        assert(v.take(i + 1).drop_last() =~= v.take(i as int));
        assert(v.take(i + 1).last() == ids@[i as int]@);
        let ghost before = strs(r@);
        if !crate::folder::contains_string(aff, ids[i].as_str()) {
            r.push(ids[i].clone());
            assert(strs(r@) =~= before + seq![ids@[i as int]@]);
        } else {
            assert(before + Seq::<Seq<char>>::empty() =~= before);
        }
        i = i + 1;
    }
    assert(v.take(ids@.len() as int) =~= v);
    r
}

pub fn remove_block_exec(order: &Vec<SpaceOrderEntry>, aff: &Vec<String>) -> (r: Vec<SpaceOrderEntry>)
    ensures
        entries_view(r@) == remove_block(entries_view(order@), strs(aff@)),
{
    let ghost v = entries_view(order@);
    let mut r: Vec<SpaceOrderEntry> = Vec::new();
    let mut i: usize = 0;
    assert(v.take(0) =~= Seq::<EntryV>::empty());
    assert(entries_view(r@) =~= Seq::<EntryV>::empty());
    while i < order.len()
        invariant
            i <= order@.len(),
            v == entries_view(order@),
            entries_view(r@) == remove_block(v.take(i as int), strs(aff@)),
        decreases order.len() - i,
    {
        assert(v.take(i + 1).drop_last() =~= v.take(i as int));
        assert(v.take(i + 1).last() == order@[i as int]@);
        let ghost before = entries_view(r@);
        match &order[i] {
            SpaceOrderEntry::Folder(f) => {
                let e = SpaceOrderEntry::Folder(Folder { id: f.id.clone(), name: f.name.clone(), members: without_ids(&f.members, aff) });
                r.push(e);
                assert(entries_view(r@) =~= before + seq![e@]);
            },
            SpaceOrderEntry::Workspace(id) => {
                if !crate::folder::contains_string(aff, id.as_str()) {
                    r.push(SpaceOrderEntry::Workspace(id.clone()));
                    assert(entries_view(r@) =~= before + seq![EntryV::Workspace(id@)]);
                } else {
                    assert(before + Seq::<EntryV>::empty() =~= before);
                }
            },
        }
        i = i + 1;
    }
    assert(v.take(order@.len() as int) =~= v);
    r
}

fn ws_in_family(ws: &Vec<Workspace>, id: &str, key: &String) -> (r: bool)
    ensures
        r == in_family(ws@, id@, key@),
{
    let mut i: usize = 0;
    while i < ws.len()
        invariant
            i <= ws@.len(),
            forall|j: int| 0 <= j < i ==> !(ws@[j].id@ == id@ && (ws@[j].worktree_space matches Some(sp) && sp.key@ == key@)),
        decreases ws.len() - i,
    {
        if str_eq(ws[i].id.as_str(), id) {
            match &ws[i].worktree_space {
                Some(sp) => {
                    if str_eq(sp.key.as_str(), key.as_str()) {
                        return true;
                    }
                },
                None => {},
            }
        }
        i = i + 1;
    }
    false
}

fn family_ids_exec(ws: &Vec<Workspace>, ids: &Vec<String>, key: &String) -> (r: Vec<String>)
    ensures
        strs(r@) == family_ids(ws@, strs(ids@), key@),
{
    let ghost v = strs(ids@);
    let mut r: Vec<String> = Vec::new();
    let mut i: usize = 0;
    assert(v.take(0) =~= Seq::<Seq<char>>::empty());
    assert(strs(r@) =~= Seq::<Seq<char>>::empty());
    while i < ids.len()
        invariant
            i <= ids@.len(),
            v == strs(ids@),
            strs(r@) == family_ids(ws@, v.take(i as int), key@),
        decreases ids.len() - i,
    {
        assert(v.take(i + 1).drop_last() =~= v.take(i as int));
        assert(v.take(i + 1).last() == ids@[i as int]@);
        let ghost before = strs(r@);
        if ws_in_family(ws, ids[i].as_str(), key) {
            r.push(ids[i].clone());
            assert(strs(r@) =~= before + seq![ids@[i as int]@]);
        } else {
            assert(before + Seq::<Seq<char>>::empty() =~= before);
        }
        i = i + 1;
    }
    assert(v.take(ids@.len() as int) =~= v);
    r
}

/// `a[..idx] + b + a[idx..]` for lists of strings.
pub fn splice_strings(a: &Vec<String>, idx: usize, b: &Vec<String>) -> (r: Vec<String>)
    requires
        idx <= a@.len(),
    ensures
        strs(r@) == strs(a@).take(idx as int) + strs(b@) + strs(a@).skip(idx as int),
{
    let mut r: Vec<String> = Vec::new();
    let mut i: usize = 0;
    while i < idx
        invariant
            idx <= a@.len(),
            i <= idx,
            strs(r@) == strs(a@).take(i as int),
        decreases idx - i,
    {
        let ghost before = strs(r@);
        r.push(a[i].clone());
        assert(strs(r@) =~= before.push(a@[i as int]@));
        assert(strs(r@) =~= strs(a@).take(i + 1));
        i = i + 1;
    }
    let mut j: usize = 0;
    while j < b.len()
        invariant
            j <= b@.len(),
            strs(r@) == strs(a@).take(idx as int) + strs(b@).take(j as int),
        decreases b.len() - j,
    {
        let ghost before = strs(r@);
        r.push(b[j].clone());
        assert(strs(r@) =~= before.push(b@[j as int]@));
        assert(strs(r@) =~= strs(a@).take(idx as int) + strs(b@).take(j + 1));
        j = j + 1;
    }
    assert(strs(b@).take(b@.len() as int) =~= strs(b@));
    let mut k: usize = idx;
    assert(strs(a@).skip(idx as int).take(0) =~= Seq::<Seq<char>>::empty());
    while k < a.len()
        invariant
            idx <= k <= a@.len(),
            strs(r@) == strs(a@).take(idx as int) + strs(b@) + strs(a@).skip(idx as int).take(k - idx),
        decreases a.len() - k,
    {
        let ghost before = strs(r@);
        r.push(a[k].clone());
        assert(strs(r@) =~= before.push(a@[k as int]@));
        assert(strs(r@) =~= strs(a@).take(idx as int) + strs(b@) + strs(a@).skip(idx as int).take(k + 1 - idx));
        k = k + 1;
    }
    assert(strs(a@).skip(idx as int).take(a@.len() - idx) =~= strs(a@).skip(idx as int));
    r
}

/// Insert loose entries for `ids` at `idx`.
pub fn insert_loose(order: &mut Vec<SpaceOrderEntry>, idx: usize, ids: &Vec<String>)
    requires
        idx <= old(order)@.len(),
    ensures
        entries_view(final(order)@) == entries_view(old(order)@).take(idx as int) + loose_entries(strs(ids@))
            + entries_view(old(order)@).skip(idx as int),
{
    let ghost o = entries_view(order@);
    let mut k: usize = 0;
    assert(entries_view(order@) =~= o.take(idx as int) + loose_entries(strs(ids@).take(0)) + o.skip(idx as int));
    while k < ids.len()
        invariant
            idx <= o.len(),
            k <= ids@.len(),
            entries_view(order@) == o.take(idx as int) + loose_entries(strs(ids@).take(k as int)) + o.skip(idx as int),
            order@.len() == o.len() + k,
        decreases ids.len() - k,
    {
        let ghost before = entries_view(order@);
        let e = SpaceOrderEntry::Workspace(ids[k].clone());
        let _len = order.len();
        order.insert(idx + k, e);
        assert(entries_view(order@) =~= before.insert(idx + k, e@));
        assert(loose_entries(strs(ids@).take(k + 1)) =~= loose_entries(strs(ids@).take(k as int)).push(e@));
        assert(entries_view(order@) =~= o.take(idx as int) + loose_entries(strs(ids@).take(k + 1)) + o.skip(idx as int));
        k = k + 1;
    }
    assert(strs(ids@).take(ids@.len() as int) =~= strs(ids@));
}

/// Move the entry at `p` to `position` (clamped to the end) among the others.
fn reinsert(order: &mut Vec<SpaceOrderEntry>, p: usize, position: usize) -> (target: usize)
    requires
        p < old(order)@.len(),
    ensures
        target == (if position < old(order)@.len() - 1 { position } else { (old(order)@.len() - 1) as usize }),
        entries_view(final(order)@) == entries_view(old(order)@).remove(p as int).insert(target as int, entries_view(old(order)@)[p as int]),
{
    let ghost o = entries_view(order@);
    let entry = order.remove(p);
    assert(entries_view(order@) =~= o.remove(p as int));
    let target = if position < order.len() { position } else { order.len() };
    let ghost mid = entries_view(order@);
    order.insert(target, entry);
    assert(entries_view(order@) =~= mid.insert(target as int, entry@));
    target
}

impl AppState {
    /// Delete a folder, releasing its members in place. Returns the released ids.
    pub fn delete_folder(&mut self, folder_id: &str) -> (r: Result<Vec<String>, FolderMutationError>)
        requires
            old(self).wf(),
        ensures
            ({
                let (s2, res) = delete_folder_spec(old(self)@, folder_id@);
                &&& final(self)@ == s2
                &&& match (r, res) {
                    (Ok(a), Ok(b)) => strs(a@) == b,
                    (Err(a), Err(b)) => a == b,
                    _ => false,
                }
            }),
            crate::name_laws::names_ok(old(self)@.order) ==> crate::name_laws::names_ok(final(self)@.order),
            space_order_invariants(old(self)@) ==> space_order_invariants(final(self)@),
            final(self)@.ws.to_multiset() == old(self)@.ws.to_multiset(),
            final(self).wf(),
    {
        proof {
            crate::invariant_laws::lemma_folder_mutations_permute(self@, folder_id@, seq![], 0);
            if crate::name_laws::names_ok(self@.order) {
                crate::name_laws::lemma_delete_folder_keeps_names(self@, folder_id@);
            }
            if space_order_invariants(self@) {
                crate::invariant_laws::lemma_delete_folder_keeps_invariants(self@, folder_id@);
            }
        }
        if self.folder(folder_id).is_none() {
            return Err(FolderMutationError::FolderNotFound);
        }
        self.normalize_space_order();
        let ghost s1 = self@;
        let p = match find_folder(&self.space_order, folder_id) {
            Some(p) => p,
            None => return Err(FolderMutationError::FolderNotFound),
        };
        proof { crate::folder_laws::lemma_folder_index_found_pub(s1.order, folder_id@); }
        let removed = self.space_order.remove(p);
        let released = match removed {
            SpaceOrderEntry::Folder(folder) => folder.members,
            SpaceOrderEntry::Workspace(other) => {
                self.space_order.insert(p, SpaceOrderEntry::Workspace(other));
                return Err(FolderMutationError::FolderNotFound);
            },
        };
        assert(entries_view(self.space_order@) =~= s1.order.take(p as int) + s1.order.skip(p + 1));
        insert_loose(&mut self.space_order, p, &released);
        assert(entries_view(self.space_order@) =~= s1.order.take(p as int) + loose_entries(strs(released@))
            + s1.order.skip(p + 1));
        self.sync_workspaces_to_space_order();
        proof { lemma_sync_sorts(StateV { order: entries_view(self.space_order@), ..s1 }); }
        self.mark_session_dirty();
        Ok(released)
    }

    /// Move a folder to `position` among top-level entries. Returns the
    /// effective position and whether anything changed.
    pub fn move_folder(&mut self, folder_id: &str, position: usize) -> (r: Result<(usize, bool), FolderMutationError>)
        requires
            old(self).wf(),
        ensures
            (final(self)@, r) == move_folder_spec(old(self)@, folder_id@, position),
            crate::name_laws::names_ok(old(self)@.order) ==> crate::name_laws::names_ok(final(self)@.order),
            space_order_invariants(old(self)@) ==> space_order_invariants(final(self)@),
            final(self)@.ws.to_multiset() == old(self)@.ws.to_multiset(),
            final(self).wf(),
    {
        proof {
            crate::invariant_laws::lemma_folder_mutations_permute(self@, folder_id@, seq![], position);
            if crate::name_laws::names_ok(self@.order) {
                crate::name_laws::lemma_move_folder_keeps_names(self@, folder_id@, position);
            }
            if space_order_invariants(self@) {
                crate::invariant_laws::lemma_move_folder_keeps_invariants(self@, folder_id@, position);
            }
        }
        if self.folder(folder_id).is_none() {
            return Err(FolderMutationError::FolderNotFound);
        }
        self.normalize_space_order();
        let ghost s1 = self@;
        let p = match find_folder(&self.space_order, folder_id) {
            Some(p) => p,
            None => return Err(FolderMutationError::FolderNotFound),
        };
        let target = reinsert(&mut self.space_order, p, position);
        let moved = target != p;
        if moved {
            self.sync_workspaces_to_space_order();
            proof { lemma_sync_sorts(StateV { order: entries_view(self.space_order@), ..s1 }); }
            self.mark_session_dirty();
        }
        Ok((target, moved))
    }

    /// Assign a workspace (and its worktree family) to a folder, or to the top
    /// level when `folder_id` is `None`. `position` is the block's final index
    /// in the target container; `None` appends. Returns the affected ids.
    pub fn assign_workspace_to_folder(
        &mut self,
        workspace_id: &str,
        folder_id: Option<&str>,
        position: Option<usize>,
    ) -> (r: Result<Vec<String>, FolderMutationError>)
        requires
            old(self).wf(),
        ensures
            ({
                let fid = match folder_id { Some(f) => Some(f@), None => None };
                let (s2, res) = assign_spec(old(self)@, workspace_id@, fid, position);
                &&& final(self)@ == s2
                &&& match (r, res) {
                    (Ok(a), Ok(b)) => strs(a@) == b,
                    (Err(a), Err(b)) => a == b,
                    _ => false,
                }
            }),
            crate::name_laws::names_ok(old(self)@.order) ==> crate::name_laws::names_ok(final(self)@.order),
            space_order_invariants(old(self)@) ==> space_order_invariants(final(self)@),
            final(self)@.ws.to_multiset() == old(self)@.ws.to_multiset(),
            final(self).wf(),
    {
        proof {
            let fid = match folder_id { Some(f) => Some(f@), None => None };
            crate::invariant_laws::lemma_assign_permutes(self@, workspace_id@, fid, position);
            if crate::name_laws::names_ok(self@.order) {
                crate::name_laws::lemma_assign_keeps_names(self@, workspace_id@, fid, position);
            }
            if space_order_invariants(self@) {
                crate::invariant_laws::lemma_assign_keeps_invariants(self@, workspace_id@, fid, position);
            }
        }
        let ghost s = self@;
        let wi = match find_workspace(&self.workspaces, workspace_id) {
            Some(i) => i,
            None => return Err(FolderMutationError::WorkspaceNotFound),
        };
        if let Some(fid) = folder_id {
            if self.folder(fid).is_none() {
                return Err(FolderMutationError::FolderNotFound);
            }
        }
        let family_key: Option<String> = match &self.workspaces[wi].worktree_space {
            Some(space) => Some(space.key.clone()),
            None => None,
        };
        self.normalize_space_order();
        let ghost s1 = self@;
        let affected: Vec<String> = match &family_key {
            Some(key) => {
                let canonical = self.canonical_workspace_order();
                family_ids_exec(&self.workspaces, &canonical, key)
            },
            None => {
                let mut v: Vec<String> = Vec::new();
                v.push(workspace_id.to_owned());
                assert(strs(v@) =~= seq![workspace_id@]);
                v
            },
        };
        let stripped = remove_block_exec(&self.space_order, &affected);
        self.space_order = stripped;
        let ghost order2 = entries_view(self.space_order@);
        match folder_id {
            Some(fid) => {
                let p = match find_folder(&self.space_order, fid) {
                    Some(p) => p,
                    None => {
                        self.sync_workspaces_to_space_order();
                        proof { lemma_sync_sorts(StateV { order: order2, ..s1 }); }
                        return Err(FolderMutationError::FolderNotFound);
                    },
                };
                proof { crate::folder_laws::lemma_folder_index_found_pub(order2, fid@); }
                let updated = match &self.space_order[p] {
                    SpaceOrderEntry::Folder(folder) => {
                        let len = folder.members.len();
                        let index = match position {
                            Some(q) => if q < len { q } else { len },
                            None => len,
                        };
                        let members = splice_strings(&folder.members, index, &affected);
                        SpaceOrderEntry::Folder(Folder { id: folder.id.clone(), name: folder.name.clone(), members })
                    },
                    SpaceOrderEntry::Workspace(w) => SpaceOrderEntry::Workspace(w.clone()),
                };
                self.space_order.set(p, updated);
                assert(entries_view(self.space_order@) =~= order2.update(p as int, updated@));
            },
            None => {
                let len = self.space_order.len();
                let index = match position {
                    Some(q) => if q < len { q } else { len },
                    None => len,
                };
                insert_loose(&mut self.space_order, index, &affected);
            },
        }
        let ghost s3 = self@;
        self.sync_workspaces_to_space_order();
        proof { lemma_sync_sorts(s3); }
        self.mark_session_dirty();
        Ok(affected)
    }
}

/// The members of family `key`, in workspace order: id and whether linked.
pub open spec fn family_members_of(ws: Seq<Workspace>, key: Seq<char>) -> Seq<(Seq<char>, bool)>
    decreases ws.len(),
{
    if ws.len() == 0 {
        seq![]
    } else {
        family_members_of(ws.drop_last(), key) + match ws.last().worktree_space {
            Some(sp) => if sp.key@ == key { seq![(ws.last().id@, sp.is_linked_worktree)] } else { seq![] },
            None => seq![],
        }
    }
}

/// The first member that is not a linked worktree, if any.
pub open spec fn first_unlinked(members: Seq<(Seq<char>, bool)>) -> Option<Seq<char>>
    decreases members.len(),
{
    if members.len() == 0 {
        None
    } else {
        match first_unlinked(members.drop_last()) {
            Some(a) => Some(a),
            None => if !members.last().1 { Some(members.last().0) } else { None },
        }
    }
}

/// A split worktree family moved into the parent checkout's folder (or to
/// the top level when the parent is loose); anything else is left alone.
pub open spec fn colocate_spec(s: StateV, key: Seq<char>) -> StateV {
    let members = family_members_of(s.ws, key);
    if s.order.len() == 0 || members.len() < 2 {
        s
    } else {
        let anchor = match first_unlinked(members) {
            Some(a) => a,
            None => members[0].0,
        };
        let target = folder_of_spec(s.order, anchor);
        let split = exists|i: int| 0 <= i < members.len() && folder_of_spec(s.order, #[trigger] members[i].0) != target;
        if !split {
            s
        } else {
            assign_spec(s, anchor, target, None).0
        }
    }
}

/// The distinct family keys, in workspace order.
pub open spec fn family_keys(ws: Seq<Workspace>) -> Seq<Seq<char>>
    decreases ws.len(),
{
    if ws.len() == 0 {
        seq![]
    } else {
        let prev = family_keys(ws.drop_last());
        prev + match ws.last().worktree_space {
            Some(sp) => if prev.contains(sp.key@) { seq![] } else { seq![sp.key@] },
            None => seq![],
        }
    }
}

/// Colocating each of `keys` in turn.
pub open spec fn colocate_all(s: StateV, keys: Seq<Seq<char>>) -> StateV
    decreases keys.len(),
{
    if keys.len() == 0 {
        s
    } else {
        colocate_spec(colocate_all(s, keys.drop_last()), keys.last())
    }
}

/// Every split worktree family repaired, in workspace order.
pub open spec fn heal_spec(s: StateV) -> StateV {
    if s.order.len() == 0 {
        s
    } else {
        colocate_all(s, family_keys(s.ws))
    }
}

proof fn lemma_colocate_wf(s: StateV, key: Seq<char>)
    requires
        state_wf(s),
    ensures
        state_wf(colocate_spec(s, key)),
{
    let members = family_members_of(s.ws, key);
    if !(s.order.len() == 0 || members.len() < 2) {
        let anchor = match first_unlinked(members) {
            Some(a) => a,
            None => members[0].0,
        };
        lemma_assign_wf(s, anchor, folder_of_spec(s.order, anchor), None);
    }
}

/// Healing split families keeps workspace ids unique.
pub(crate) proof fn lemma_heal_wf(s: StateV)
    requires
        state_wf(s),
    ensures
        state_wf(heal_spec(s)),
{
    if s.order.len() > 0 {
        lemma_colocate_all_wf(s, family_keys(s.ws));
    }
}

proof fn lemma_colocate_all_wf(s: StateV, keys: Seq<Seq<char>>)
    requires
        state_wf(s),
    ensures
        state_wf(colocate_all(s, keys)),
    decreases keys.len(),
{
    if keys.len() > 0 {
        lemma_colocate_all_wf(s, keys.drop_last());
        lemma_colocate_wf(colocate_all(s, keys.drop_last()), keys.last());
    }
}

/// Assigning keeps workspace ids unique.
pub proof fn lemma_assign_wf(s: StateV, wid: Seq<char>, fid: Option<Seq<char>>, position: Option<usize>)
    requires
        state_wf(s),
    ensures
        state_wf(assign_spec(s, wid, fid, position).0),
{
    if first_pos(ws_ids(s.ws), wid) is Some && !(fid matches Some(f) && folder_index(s.order, f) is None) {
        let s1 = normalize_state_spec(s);
        lemma_normalize_state_wf(s);
        let key = family_key_of(s.ws, wid);
        let affected = match key {
            Some(k) => family_ids(s1.ws, canonical_of(s1), k),
            None => seq![wid],
        };
        let order2 = remove_block(s1.order, affected);
        lemma_sync_sorts(StateV { order: order2, ..s1 });
        match fid {
            Some(f) => match folder_index(order2, f) {
                None => {},
                Some(p) => {
                    let g = folder_at(order2, p);
                    let idx = clamp_position(position, g.members.len());
                    let members = g.members.take(idx) + affected + g.members.skip(idx);
                    let order3 = order2.update(p, EntryV::Folder(FolderV { members, ..g }));
                    lemma_sync_sorts(StateV { order: order3, ..s1 });
                },
            },
            None => {
                let idx = clamp_position(position, order2.len());
                let order3 = order2.take(idx) + loose_entries(affected) + order2.skip(idx);
                lemma_sync_sorts(StateV { order: order3, ..s1 });
            },
        }
    }
}

fn family_members_exec(ws: &Vec<Workspace>, key: &str) -> (r: Vec<(String, bool)>)
    ensures
        r@.map_values(|m: (String, bool)| (m.0@, m.1)) == family_members_of(ws@, key@),
{
    let mut r: Vec<(String, bool)> = Vec::new();
    let mut i: usize = 0;
    assert(ws@.take(0) =~= Seq::<Workspace>::empty());
    while i < ws.len()
        invariant
            i <= ws@.len(),
            r@.map_values(|m: (String, bool)| (m.0@, m.1)) == family_members_of(ws@.take(i as int), key@),
        decreases ws.len() - i,
    {
        assert(ws@.take(i + 1).drop_last() =~= ws@.take(i as int));
        assert(ws@.take(i + 1).last() == ws@[i as int]);
        let ghost before = r@.map_values(|m: (String, bool)| (m.0@, m.1));
        match &ws[i].worktree_space {
            Some(space) => {
                if str_eq(space.key.as_str(), key) {
                    r.push((ws[i].id.clone(), space.is_linked_worktree));
                    assert(r@.map_values(|m: (String, bool)| (m.0@, m.1)) =~= before + seq![(ws@[i as int].id@, space.is_linked_worktree)]);
                } else {
                    assert(before + Seq::<(Seq<char>, bool)>::empty() =~= before);
                }
            },
            None => {
                assert(before + Seq::<(Seq<char>, bool)>::empty() =~= before);
            },
        }
        i = i + 1;
    }
    assert(ws@.take(ws@.len() as int) =~= ws@);
    r
}

fn opt_str_eq(a: Option<&str>, b: Option<&str>) -> (r: bool)
    ensures
        r == (match (a, b) {
            (Some(x), Some(y)) => x@ == y@,
            (None, None) => true,
            _ => false,
        }),
{
    match (a, b) {
        (Some(x), Some(y)) => str_eq(x, y),
        (None, None) => true,
        _ => false,
    }
}

fn family_keys_exec(ws: &Vec<Workspace>) -> (r: Vec<String>)
    ensures
        strs(r@) == family_keys(ws@),
{
    let mut r: Vec<String> = Vec::new();
    let mut i: usize = 0;
    assert(ws@.take(0) =~= Seq::<Workspace>::empty());
    assert(strs(r@) =~= Seq::<Seq<char>>::empty());
    while i < ws.len()
        invariant
            i <= ws@.len(),
            strs(r@) == family_keys(ws@.take(i as int)),
        decreases ws.len() - i,
    {
        assert(ws@.take(i + 1).drop_last() =~= ws@.take(i as int));
        assert(ws@.take(i + 1).last() == ws@[i as int]);
        let ghost before = strs(r@);
        match &ws[i].worktree_space {
            Some(space) => {
                if !crate::folder::contains_string(&r, space.key.as_str()) {
                    r.push(space.key.clone());
                    assert(strs(r@) =~= before + seq![space.key@]);
                } else {
                    assert(before + Seq::<Seq<char>>::empty() =~= before);
                }
            },
            None => {
                assert(before + Seq::<Seq<char>>::empty() =~= before);
            },
        }
        i = i + 1;
    }
    assert(ws@.take(ws@.len() as int) =~= ws@);
    r
}

impl AppState {
    /// Move a split worktree family into the parent checkout's folder.
    pub fn ensure_worktree_family_colocated(&mut self, key: &str)
        requires
            old(self).wf(),
        ensures
            final(self)@ == colocate_spec(old(self)@, key@),
            final(self).wf(),
            space_order_invariants(old(self)@) ==> space_order_invariants(final(self)@),
    {
        proof {
            lemma_colocate_wf(self@, key@);
            if space_order_invariants(self@) {
                crate::invariant_laws::lemma_colocate_keeps_invariants(self@, key@);
            }
        }
        if self.space_order.is_empty() {
            return;
        }
        let ghost s = self@;
        let members = family_members_exec(&self.workspaces, key);
        let ghost mv = members@.map_values(|m: (String, bool)| (m.0@, m.1));
        if members.len() < 2 {
            return;
        }
        let mut anchor_idx: usize = 0;
        let mut found = false;
        let mut i: usize = 0;
        assert(mv.take(0) =~= Seq::<(Seq<char>, bool)>::empty());
        while i < members.len() && !found
            invariant
                i <= members@.len(),
                members@.len() >= 2,
                anchor_idx < members@.len(),
                !found ==> anchor_idx == 0,
                mv == members@.map_values(|m: (String, bool)| (m.0@, m.1)),
                !found ==> first_unlinked(mv.take(i as int)) is None,
                found ==> anchor_idx < members@.len() && first_unlinked(mv) == Some(mv[anchor_idx as int].0),
            decreases members.len() - i,
        {
            assert(mv.take(i + 1).drop_last() =~= mv.take(i as int));
            if !members[i].1 {
                anchor_idx = i;
                found = true;
                proof { lemma_first_unlinked_prefix(mv, i + 1); }
            }
            i = i + 1;
        }
        if !found {
            assert(mv.take(members@.len() as int) =~= mv);
        }
        let anchor: String = members[anchor_idx].0.clone();
        assert(anchor@ == mv[anchor_idx as int].0);
        assert(anchor@ == match first_unlinked(mv) { Some(a) => a, None => mv[0].0 });
        let target: Option<String> = match self.workspace_folder_id(anchor.as_str()) {
            Some(f) => Some(f.to_owned()),
            None => None,
        };
        let ghost tv = folder_of_spec(s.order, anchor@);
        let mut split = false;
        let mut j: usize = 0;
        while j < members.len()
            invariant
                j <= members@.len(),
                s == self@,
                mv == members@.map_values(|m: (String, bool)| (m.0@, m.1)),
                match target { Some(t) => tv == Some(t@), None => tv is None },
                tv == folder_of_spec(s.order, anchor@),
                split == exists|k: int| 0 <= k < j && folder_of_spec(s.order, #[trigger] mv[k].0) != tv,
            decreases members.len() - j,
        {
            let here = self.workspace_folder_id(members[j].0.as_str());
            let same = match &target {
                Some(t) => opt_str_eq(here, Some(t.as_str())),
                None => opt_str_eq(here, None),
            };
            if !same {
                split = true;
            }
            proof {
                assert(mv[j as int].0 == members@[j as int].0@);
                if !same {
                    assert(folder_of_spec(s.order, mv[j as int].0) != tv);
                }
            }
            j = j + 1;
        }
        assert(mv == family_members_of(s.ws, key@));
        if !split {
            return;
        }
        let _ = self.assign_workspace_to_folder(anchor.as_str(), match &target {
            Some(t) => Some(t.as_str()),
            None => None,
        }, None);
    }

    /// Repair every worktree family split across folders, in vec order.
    pub fn heal_split_worktree_families(&mut self)
        requires
            old(self).wf(),
        ensures
            final(self)@ == heal_spec(old(self)@),
            final(self).wf(),
    {
        if self.space_order.is_empty() {
            return;
        }
        let ghost s = self@;
        let keys = family_keys_exec(&self.workspaces);
        let mut k: usize = 0;
        assert(strs(keys@).take(0) =~= Seq::<Seq<char>>::empty());
        while k < keys.len()
            invariant
                k <= keys@.len(),
                strs(keys@) == family_keys(s.ws),
                self@ == colocate_all(s, strs(keys@).take(k as int)),
                self.wf(),
            decreases keys.len() - k,
        {
            assert(strs(keys@).take(k + 1).drop_last() =~= strs(keys@).take(k as int));
            self.ensure_worktree_family_colocated(keys[k].as_str());
            k = k + 1;
        }
        assert(strs(keys@).take(keys@.len() as int) =~= strs(keys@));
    }
}

proof fn lemma_first_unlinked_prefix(s: Seq<(Seq<char>, bool)>, k: int)
    requires
        0 < k <= s.len(),
        first_unlinked(s.take(k - 1)) is None,
        !s[k - 1].1,
    ensures
        first_unlinked(s) == Some(s[k - 1].0),
    decreases s.len(),
{
    assert(s.take(k).drop_last() =~= s.take(k - 1));
    if k == s.len() {
        assert(s.take(k) =~= s);
    } else {
        assert(s.drop_last().take(k) =~= s.take(k));
        assert(s.drop_last().take(k - 1) =~= s.take(k - 1));
        lemma_first_unlinked_prefix(s.drop_last(), k);
    }
}

// ---------------------------------------------------------------------------
// Rebuilding the order after an index-based move of the workspaces.
// ---------------------------------------------------------------------------

/// The distinct folders of an order, first occurrence first, with the name
/// of the first occurrence and no members.
pub open spec fn first_folders(order: Seq<EntryV>) -> Seq<FolderV>
    decreases order.len(),
{
    if order.len() == 0 {
        seq![]
    } else {
        let prev = first_folders(order.drop_last());
        match order.last() {
            EntryV::Folder(f) => if fids(prev).contains(f.id) {
                prev
            } else {
                prev.push(FolderV { id: f.id, name: f.name, members: seq![] })
            },
            EntryV::Workspace(_) => prev,
        }
    }
}

/// The ids of a list of folders.
pub open spec fn fids(fs: Seq<FolderV>) -> Seq<Seq<char>> {
    fs.map_values(|f: FolderV| f.id)
}

/// The id of the first folder entry listing `m`, scanning the whole order.
pub open spec fn member_folder_id(order: Seq<EntryV>, m: Seq<char>) -> Option<Seq<char>>
    decreases order.len(),
{
    if order.len() == 0 {
        None
    } else {
        match member_folder_id(order.drop_last(), m) {
            Some(x) => Some(x),
            None => match order.last() {
                EntryV::Folder(f) => if f.members.contains(m) { Some(f.id) } else { None },
                EntryV::Workspace(_) => None,
            },
        }
    }
}

/// The position among `first_folders` of the folder `m` belongs to.
pub open spec fn member_pos(order: Seq<EntryV>, m: Seq<char>) -> Option<int> {
    match member_folder_id(order, m) {
        Some(x) => first_pos(fids(first_folders(order)), x),
        None => None,
    }
}

/// The ids of `ids` that belong to folder position `q`, in order.
pub open spec fn ids_at(ids: Seq<Seq<char>>, order: Seq<EntryV>, q: int) -> Seq<Seq<char>>
    decreases ids.len(),
{
    if ids.len() == 0 {
        seq![]
    } else {
        ids_at(ids.drop_last(), order, q) + if member_pos(order, ids.last()) == Some(q) { seq![ids.last()] } else { seq![] }
    }
}

/// The distinct folders, each holding its members in workspace order.
pub open spec fn filled_folders(order: Seq<EntryV>, ids: Seq<Seq<char>>) -> Seq<FolderV> {
    Seq::new(first_folders(order).len(), |q: int| FolderV { members: ids_at(ids, order, q), ..first_folders(order)[q] })
}

/// Walking the workspaces in order: loose workspaces stay in place, and each
/// folder anchors at its first member.
pub open spec fn rebuild_walk(ids: Seq<Seq<char>>, order: Seq<EntryV>, filled: Seq<FolderV>) -> (Seq<EntryV>, Seq<int>)
    decreases ids.len(),
{
    if ids.len() == 0 {
        (seq![], seq![])
    } else {
        rebuild_step(rebuild_walk(ids.drop_last(), order, filled), order, filled, ids.last())
    }
}

/// One step of the walk, for workspace `id`: a loose workspace is placed;
/// a member places its folder unless the folder is already placed.
pub open spec fn rebuild_step(acc: (Seq<EntryV>, Seq<int>), order: Seq<EntryV>, filled: Seq<FolderV>, id: Seq<char>) -> (Seq<EntryV>, Seq<int>) {
    let (out, em) = acc;
    match member_pos(order, id) {
        Some(q) => if em.contains(q) { (out, em) } else { (out.push(EntryV::Folder(filled[q])), em.push(q)) },
        None => (out.push(EntryV::Workspace(id)), em),
    }
}

/// The folders of positions below `n` that were not placed, in order.
pub open spec fn leftover_folders(filled: Seq<FolderV>, em: Seq<int>, n: int) -> Seq<EntryV>
    decreases n,
{
    if n <= 0 {
        seq![]
    } else {
        leftover_folders(filled, em, n - 1) + if em.contains(n - 1) { seq![] } else { seq![EntryV::Folder(filled[n - 1])] }
    }
}

/// The order rebuilt from the workspace order, preserving folder membership;
/// memberless folders append at the end.
pub open spec fn rebuilt_order(order: Seq<EntryV>, ids: Seq<Seq<char>>) -> Seq<EntryV> {
    let filled = filled_folders(order, ids);
    let (out, em) = rebuild_walk(ids, order, filled);
    out + leftover_folders(filled, em, filled.len() as int)
}

/// The state after rebuilding its order from its workspace order.
pub open spec fn rebuild_spec(s: StateV) -> StateV {
    if s.order.len() == 0 {
        s
    } else {
        let s1 = StateV { order: rebuilt_order(s.order, ws_ids(s.ws)), ..s };
        sync_spec(normalize_state_spec(s1))
    }
}

fn folder_pos_by_id(folders: &Vec<Folder>, id: &str) -> (r: Option<usize>)
    ensures
        r matches Some(i) ==> first_pos(fids(folders@.map_values(|f: Folder| f@)), id@) == Some(i as int) && i < folders@.len(),
        r is None ==> first_pos(fids(folders@.map_values(|f: Folder| f@)), id@) is None,
{
    let ghost v = fids(folders@.map_values(|f: Folder| f@));
    let mut i: usize = 0;
    while i < folders.len()
        invariant
            i <= folders@.len(),
            v == fids(folders@.map_values(|f: Folder| f@)),
            first_pos(v.take(i as int), id@) is None,
        decreases folders.len() - i,
    {
        assert(v.take(i + 1).drop_last() =~= v.take(i as int));
        assert(v[i as int] == folders@[i as int].id@);
        if str_eq(folders[i].id.as_str(), id) {
            assert(first_pos(v.take(i + 1), id@) == Some(i as int));
            proof { lemma_first_pos_prefix(v, i + 1, id@); }
            return Some(i);
        }
        i = i + 1;
    }
    assert(v.take(folders@.len() as int) =~= v);
    None
}

fn first_folders_exec(order: &Vec<SpaceOrderEntry>) -> (r: Vec<Folder>)
    ensures
        r@.map_values(|f: Folder| f@) == first_folders(entries_view(order@)),
{
    let ghost v = entries_view(order@);
    let mut r: Vec<Folder> = Vec::new();
    let mut i: usize = 0;
    assert(v.take(0) =~= Seq::<EntryV>::empty());
    assert(r@.map_values(|f: Folder| f@) =~= Seq::<FolderV>::empty());
    while i < order.len()
        invariant
            i <= order@.len(),
            v == entries_view(order@),
            r@.map_values(|f: Folder| f@) == first_folders(v.take(i as int)),
        decreases order.len() - i,
    {
        assert(v.take(i + 1).drop_last() =~= v.take(i as int));
        assert(v.take(i + 1).last() == order@[i as int]@);
        match &order[i] {
            SpaceOrderEntry::Folder(f) => {
                if folder_pos_by_id(&r, f.id.as_str()).is_none() {
                    proof { lemma_first_pos(fids(r@.map_values(|g: Folder| g@)), f.id@); }
                    let ghost before = r@.map_values(|g: Folder| g@);
                    let members: Vec<String> = Vec::new();
                    let nf = Folder { id: f.id.clone(), name: f.name.clone(), members };
                    r.push(nf);
                    assert(strs(nf.members@) =~= Seq::<Seq<char>>::empty());
                    assert(r@.map_values(|g: Folder| g@) =~= before.push(FolderV { id: f.id@, name: f.name@, members: seq![] }));
                } else {
                    proof {
                        let fv = fids(r@.map_values(|g: Folder| g@));
                        lemma_first_pos(fv, f.id@);
                    }
                }
            },
            SpaceOrderEntry::Workspace(_) => {},
        }
        i = i + 1;
    }
    assert(v.take(order@.len() as int) =~= v);
    r
}

fn member_folder_id_exec<'a>(order: &'a Vec<SpaceOrderEntry>, m: &str) -> (r: Option<&'a String>)
    ensures
        match member_folder_id(entries_view(order@), m@) {
            Some(x) => r matches Some(y) && y@ == x,
            None => r is None,
        },
{
    let ghost v = entries_view(order@);
    let mut i: usize = 0;
    assert(v.take(0) =~= Seq::<EntryV>::empty());
    while i < order.len()
        invariant
            i <= order@.len(),
            v == entries_view(order@),
            member_folder_id(v.take(i as int), m@) is None,
        decreases order.len() - i,
    {
        assert(v.take(i + 1).drop_last() =~= v.take(i as int));
        assert(v.take(i + 1).last() == order@[i as int]@);
        match &order[i] {
            SpaceOrderEntry::Folder(f) => {
                if crate::folder::contains_string(&f.members, m) {
                    proof { lemma_member_folder_prefix(v, i + 1, m@); }
                    return Some(&f.id);
                }
            },
            SpaceOrderEntry::Workspace(_) => {},
        }
        i = i + 1;
    }
    assert(v.take(order@.len() as int) =~= v);
    None
}

proof fn lemma_member_folder_prefix(s: Seq<EntryV>, k: int, m: Seq<char>)
    requires
        0 <= k <= s.len(),
        member_folder_id(s.take(k), m) is Some,
    ensures
        member_folder_id(s, m) == member_folder_id(s.take(k), m),
    decreases s.len(),
{
    if k == s.len() {
        assert(s.take(k) =~= s);
    } else {
        assert(s.drop_last().take(k) =~= s.take(k));
        lemma_member_folder_prefix(s.drop_last(), k, m);
    }
}

fn member_pos_exec(order: &Vec<SpaceOrderEntry>, folders: &Vec<Folder>, m: &str) -> (r: Option<usize>)
    requires
        folders@.map_values(|f: Folder| f@) == first_folders(entries_view(order@)),
    ensures
        match member_pos(entries_view(order@), m@) {
            Some(q) => r == Some(q as usize) && 0 <= q < folders@.len(),
            None => r is None,
        },
{
    proof {
        match member_folder_id(entries_view(order@), m@) {
            Some(x) => lemma_first_pos(fids(first_folders(entries_view(order@))), x),
            None => {},
        }
    }
    match member_folder_id_exec(order, m) {
        Some(fid) => folder_pos_by_id(folders, fid.as_str()),
        None => None,
    }
}

/// Places workspace `id` on the rebuilt order: one step of `rebuild_walk`.
fn rebuild_place(
    order: &Vec<SpaceOrderEntry>,
    base: &Vec<Folder>,
    folders: &Vec<Folder>,
    id: &str,
    entries: &mut Vec<SpaceOrderEntry>,
    emitted: &mut Vec<bool>,
    Ghost(filled): Ghost<Seq<FolderV>>,
    Ghost(em0): Ghost<Seq<int>>,
)
    requires
        base@.map_values(|f: Folder| f@) == first_folders(entries_view(order@)),
        folders@.map_values(|f: Folder| f@) == filled,
        base.len() == folders.len(),
        old(emitted)@.len() == folders@.len(),
        forall|j: int| 0 <= j < old(emitted)@.len() ==> #[trigger] old(emitted)@[j] == em0.contains(j),
    ensures
        final(emitted)@.len() == old(emitted)@.len(),
        ({
            let (out1, em1) = rebuild_step((entries_view(old(entries)@), em0), entries_view(order@), filled, id@);
            &&& entries_view(final(entries)@) == out1
            &&& forall|j: int| 0 <= j < final(emitted)@.len() ==> #[trigger] final(emitted)@[j] == em1.contains(j)
        }),
{
    let ghost before = entries_view(entries@);
    let ghost ov = entries_view(order@);
    let pos = member_pos_exec(order, base, id);
    match pos {
        Some(qq) => {
            proof {
                match member_pos(ov, id@) {
                    Some(q) => {
                        assert(0 <= q < folders.len());
                        assert((q as usize) as int == q);
                    },
                    None => {},
                }
            }
            assert(member_pos(ov, id@) == Some(qq as int));
            assert(emitted@[qq as int] == em0.contains(qq as int));
            if !emitted[qq] {
                let f = &folders[qq];
                assert(f@ == filled[qq as int]);
                let e = SpaceOrderEntry::Folder(Folder { id: f.id.clone(), name: f.name.clone(), members: clone_strings(&f.members) });
                entries.push(e);
                emitted.set(qq, true);
                assert(entries_view(entries@) =~= before.push(EntryV::Folder(filled[qq as int])));
                assert forall|j: int| 0 <= j < emitted@.len() implies #[trigger] emitted@[j] == em0.push(qq as int).contains(j) by {
                    lemma_push_contains(em0, qq as int, j);
                }
                assert(rebuild_step((before, em0), ov, filled, id@) == (before.push(EntryV::Folder(filled[qq as int])), em0.push(qq as int)));
            } else {
                assert(rebuild_step((before, em0), ov, filled, id@) == (before, em0));
            }
        },
        None => {
            assert(member_pos(ov, id@) is None);
            entries.push(SpaceOrderEntry::Workspace(id.to_owned()));
            assert(entries_view(entries@) =~= before.push(EntryV::Workspace(id@)));
            assert(rebuild_step((before, em0), ov, filled, id@) == (before.push(EntryV::Workspace(id@)), em0));
        },
    }
}

/// What a sequence holds once one more element is pushed.
proof fn lemma_push_contains(s: Seq<int>, x: int, j: int)
    ensures
        s.push(x).contains(j) == (j == x || s.contains(j)),
{
    if j == x {
        assert(s.push(x)[s.len() as int] == j);
    }
    if s.push(x).contains(j) && j != x {
        let t = choose|t: int| 0 <= t < s.push(x).len() && s.push(x)[t] == j;
        assert(s[t] == j);
    }
    if s.contains(j) {
        let t = choose|t: int| 0 <= t < s.len() && s[t] == j;
        assert(s.push(x)[t] == j);
    }
}

impl AppState {
    /// Rebuild the space order from the vec order after an index-based move,
    /// preserving folder membership.
    #[verifier::spinoff_prover]
    pub fn rebuild_space_order_after_reorder(&mut self)
        requires
            old(self).wf(),
        ensures
            final(self)@ == rebuild_spec(old(self)@),
            final(self).wf(),
            ws_ids(final(self)@.ws) == canonical_of(final(self)@),
            crate::name_laws::names_ok(old(self)@.order) ==> crate::name_laws::names_ok(final(self)@.order),
    {
        proof { crate::state_laws::lemma_rebuild_establishes_order(self@); }
        if self.space_order.is_empty() {
            return;
        }
        let ghost s = self@;
        let ghost ov = s.order;
        let ghost ids = ws_ids(s.ws);
        let base = first_folders_exec(&self.space_order);
        let ghost ff = first_folders(ov);
        let ghost filled = filled_folders(ov, ids);
        // Fill each folder with its members, in workspace order.
        let mut folders: Vec<Folder> = Vec::new();
        let mut q: usize = 0;
        assert(folders@.map_values(|f: Folder| f@) =~= filled.take(0));
        while q < base.len()
            invariant
                q <= base@.len(),
                base@.len() == ff.len(),
                base@.map_values(|f: Folder| f@) == ff,
                s == self@,
                ov == s.order,
                ids == ws_ids(s.ws),
                ff == first_folders(ov),
                filled == filled_folders(ov, ids),
                folders@.map_values(|f: Folder| f@) == filled.take(q as int),
            decreases base.len() - q,
        {
            let mut members: Vec<String> = Vec::new();
            let mut w: usize = 0;
            assert(ids.take(0) =~= Seq::<Seq<char>>::empty());
            assert(strs(members@) =~= Seq::<Seq<char>>::empty());
            while w < self.workspaces.len()
                invariant
                    w <= self.workspaces@.len(),
                    s == self@,
                    ov == s.order,
                    ids == ws_ids(s.ws),
                    ff == first_folders(ov),
                    base@.map_values(|f: Folder| f@) == ff,
                    q < base@.len(),
                    base@.len() <= usize::MAX,
                    strs(members@) == ids_at(ids.take(w as int), ov, q as int),
                decreases self.workspaces.len() - w,
            {
                assert(ids.take(w + 1).drop_last() =~= ids.take(w as int));
                assert(ids.take(w + 1).last() == self.workspaces@[w as int].id@);
                let ghost before = strs(members@);
                let pos = member_pos_exec(&self.space_order, &base, self.workspaces[w].id.as_str());
                assert(ids_at(ids.take(w + 1), ov, q as int) == ids_at(ids.take(w as int), ov, q as int)
                    + if member_pos(ov, ids[w as int]) == Some(q as int) { seq![ids[w as int]] } else { Seq::<Seq<char>>::empty() });
                assert(ids[w as int] == self.workspaces@[w as int].id@);
                proof {
                    match member_pos(ov, ids[w as int]) {
                        Some(q2) => {
                            assert(pos == Some(q2 as usize));
                            assert(0 <= q2 < base@.len());
                            assert((q2 as usize) as int == q2);
                            if pos == Some(q) {
                                assert(q2 == q as int);
                            }
                            if q2 == q as int {
                                assert(pos == Some(q));
                            }
                        },
                        None => {
                            assert(pos is None);
                        },
                    }
                }
                assert((pos == Some(q)) == (member_pos(ov, ids[w as int]) == Some(q as int)));
                if pos == Some(q) {
                    members.push(self.workspaces[w].id.clone());
                    assert(strs(members@) =~= before + seq![ids[w as int]]);
                } else {
                    assert(before + Seq::<Seq<char>>::empty() =~= before);
                }
                w = w + 1;
            }
            assert(ids.take(self.workspaces@.len() as int) =~= ids);
            let nf = Folder { id: base[q].id.clone(), name: base[q].name.clone(), members };
            let ghost before = folders@.map_values(|f: Folder| f@);
            folders.push(nf);
            assert(base@[q as int]@ == ff[q as int]);
            assert(nf@ == filled[q as int]);
            assert(folders@.map_values(|f: Folder| f@) =~= before.push(nf@));
            assert(filled.take(q + 1) =~= filled.take(q as int).push(filled[q as int]));
            q = q + 1;
        }
        assert(filled.take(base@.len() as int) =~= filled);
        assert(folders@.map_values(|f: Folder| f@) == filled);
        // Each folder anchors at its first member; memberless folders append at the end.
        let mut entries: Vec<SpaceOrderEntry> = Vec::new();
        let mut emitted: Vec<bool> = Vec::new();
        let mut z: usize = 0;
        assert(folders@.len() == base@.len());
        while z < folders.len()
            invariant
                z <= folders@.len(),
                emitted@.len() == z,
                forall|j: int| 0 <= j < z ==> !emitted@[j],
            decreases folders.len() - z,
        {
            emitted.push(false);
            z = z + 1;
        }
        let mut w: usize = 0;
        assert(ids.take(0) =~= Seq::<Seq<char>>::empty());
        assert(entries_view(entries@) =~= Seq::<EntryV>::empty());
        while w < self.workspaces.len()
            invariant
                w <= self.workspaces@.len(),
                s == self@,
                ov == s.order,
                ids == ws_ids(s.ws),
                filled == filled_folders(ov, ids),
                folders@.map_values(|f: Folder| f@) == filled,
                base@.map_values(|f: Folder| f@) == first_folders(ov),
                base@.len() == folders@.len(),
                emitted@.len() == folders@.len(),
                ({
                    let (out, em) = rebuild_walk(ids.take(w as int), ov, filled);
                    &&& entries_view(entries@) == out
                    &&& forall|j: int| 0 <= j < emitted@.len() ==> #[trigger] emitted@[j] == em.contains(j)
                }),
            decreases self.workspaces.len() - w,
        {
            assert(ids.take(w + 1).drop_last() =~= ids.take(w as int));
            assert(ids.take(w + 1).last() == self.workspaces@[w as int].id@);
            let ghost (out0, em0) = rebuild_walk(ids.take(w as int), ov, filled);
            rebuild_place(&self.space_order, &base, &folders, self.workspaces[w].id.as_str(), &mut entries, &mut emitted,
                Ghost(filled), Ghost(em0));
            w = w + 1;
        }
        assert(ids.take(self.workspaces@.len() as int) =~= ids);
        let ghost (out, em) = rebuild_walk(ids, ov, filled);
        let mut f: usize = 0;
        assert(entries_view(entries@) =~= out + leftover_folders(filled, em, 0));
        while f < folders.len()
            invariant
                f <= folders@.len(),
                folders@.map_values(|g: Folder| g@) == filled,
                emitted@.len() == folders@.len(),
                forall|j: int| 0 <= j < emitted@.len() ==> #[trigger] emitted@[j] == em.contains(j),
                entries_view(entries@) == out + leftover_folders(filled, em, f as int),
            decreases folders.len() - f,
        {
            let ghost before = entries_view(entries@);
            if !emitted[f] {
                let g = &folders[f];
                let e = SpaceOrderEntry::Folder(Folder { id: g.id.clone(), name: g.name.clone(), members: clone_strings(&g.members) });
                entries.push(e);
                assert(entries_view(entries@) =~= before.push(EntryV::Folder(filled[f as int])));
                assert(out + leftover_folders(filled, em, f + 1) =~= before + seq![EntryV::Folder(filled[f as int])]);
            } else {
                assert(out + leftover_folders(filled, em, f + 1) =~= before + Seq::<EntryV>::empty());
            }
            f = f + 1;
        }
        assert(filled.len() == folders@.len());
        self.space_order = entries;
        assert(self@ =~= StateV { order: rebuilt_order(s.order, ws_ids(s.ws)), ..s });
        self.normalize_space_order();
        let ghost s2 = self@;
        self.sync_workspaces_to_space_order();
        proof { lemma_sync_sorts(s2); }
    }

    /// Install a restored space order, repairing stale data. Returns the
    /// warnings about each kind of repair, for logging.
    pub fn install_space_order(&mut self, entries: Vec<SpaceOrderEntry>) -> (warnings: Vec<crate::folder::RestoreWarning>)
        requires
            old(self).wf(),
        ensures
            final(self)@ == install_spec(old(self)@, entries_view(entries@)),
            warnings@.map_values(|w: crate::folder::RestoreWarning| (w.kind, strs(w.ids@)))
                == if entries@.len() == 0 {
                    Seq::empty()
                } else {
                    crate::folder::restore_warnings_spec(normalize_spec(entries_view(entries@), ws_ids(old(self)@.ws)).1)
                },
            final(self).wf(),
            ws_ids(final(self)@.ws) == canonical_of(final(self)@),
            crate::name_laws::names_ok(final(self)@.order),
            space_order_invariants(final(self)@),
    {
        proof {
            crate::invariant_laws::lemma_install_establishes_invariants(self@, entries_view(entries@));
        }
        let ghost s = self@;
        proof { crate::state_laws::lemma_install_establishes_order_and_names(s, entries_view(entries@)); }
        crate::folder::reserve_folder_ids(&mut self.folder_ids, entries.as_slice());
        self.space_order = entries;
        if self.space_order.is_empty() {
            let w: Vec<crate::folder::RestoreWarning> = Vec::new();
            assert(w@.map_values(|x: crate::folder::RestoreWarning| (x.kind, strs(x.ids@))) =~= Seq::empty());
            assert(named_order(Seq::<EntryV>::empty()) =~= Seq::<EntryV>::empty());
            return w;
        }
        let ids = workspace_id_strs(&self.workspaces);
        let (normalized, repairs) = crate::folder::normalized_space_order_with_repairs(self.space_order.as_slice(), ids.as_slice());
        self.space_order = normalized;
        let warnings = repairs.log_restore_warnings();
        coalesce_family_blocks(&self.workspaces, &mut self.space_order);
        self.heal_split_worktree_families();
        let ghost s3 = self@;
        self.sync_workspaces_to_space_order();
        proof { lemma_sync_sorts(s3); }
        name_blank_folders(&mut self.space_order);
        warnings
    }
}

/// The state after installing a restored order: folder ids reserved, the
/// order normalized and family-coalesced, split families healed and the
/// workspaces re-sorted. An empty order is installed as it is.
pub open spec fn install_spec(s: StateV, entries: Seq<EntryV>) -> StateV {
    let next = crate::folder::reserved_next(s.next_id, entries);
    let installed = if entries.len() == 0 {
        StateV { order: entries, next_id: next, ..s }
    } else {
        let n = normalize_spec(entries, ws_ids(s.ws)).0;
        let s1 = StateV { order: coalesce_entries_spec(s.ws, n), next_id: next, ..s };
        sync_spec(heal_spec(s1))
    };
    StateV { order: named_order(installed.order), ..installed }
}

/// The name a restored folder gets when its stored name is blank.
pub const RESTORED_FOLDER_NAME: &'static str = "Folder";

/// An entry with a blank folder name replaced by `RESTORED_FOLDER_NAME`.
pub open spec fn named_entry(e: EntryV) -> EntryV {
    match e {
        EntryV::Folder(f) => if is_blank(f.name) {
            EntryV::Folder(FolderV { name: RESTORED_FOLDER_NAME@, ..f })
        } else {
            e
        },
        EntryV::Workspace(_) => e,
    }
}

/// The order with every blank folder name replaced.
pub open spec fn named_order(order: Seq<EntryV>) -> Seq<EntryV> {
    order.map_values(|e: EntryV| named_entry(e))
}

/// The name given to blank restored folders is not blank.
proof fn lemma_restored_name_not_blank()
    ensures
        !is_blank(RESTORED_FOLDER_NAME@),
{
    reveal_strlit("Folder");
    let s = RESTORED_FOLDER_NAME@;
    assert(s[0] == 'F');
    assert(!crate::text::is_whitespace_char(s[0]));
    assert(crate::text::trim_start_spec(s) == s);
    assert(s.last() == 'r');
    assert(crate::text::trim_end_spec(s) == s);
}

/// Gives each folder with a blank name `RESTORED_FOLDER_NAME`.
fn name_blank_folders(order: &mut Vec<SpaceOrderEntry>)
    ensures
        entries_view(final(order)@) == named_order(entries_view(old(order)@)),
{
    let ghost start = entries_view(order@);
    let mut p: usize = 0;
    while p < order.len()
        invariant
            p <= order@.len(),
            start.len() == order@.len(),
            forall|q: int| 0 <= q < p ==> entries_view(order@)[q] == named_entry(#[trigger] start[q]),
            forall|q: int| p <= q < order@.len() ==> entries_view(order@)[q] == #[trigger] start[q],
        decreases order.len() - p,
    {
        let renamed = match &order[p] {
            SpaceOrderEntry::Folder(f) => if crate::text::is_blank_name(f.name.as_str()) {
                Some(Folder { id: f.id.clone(), name: RESTORED_FOLDER_NAME.to_owned(), members: clone_strings(&f.members) })
            } else {
                None
            },
            SpaceOrderEntry::Workspace(_) => None,
        };
        match renamed {
            Some(g) => {
                order.set(p, SpaceOrderEntry::Folder(g));
            },
            None => {},
        }
        p = p + 1;
    }
    assert(entries_view(order@) =~= named_order(start));
}

/// Installing a restored order leaves no folder with a blank name.
pub proof fn lemma_installed_names_not_blank(s: StateV, entries: Seq<EntryV>)
    ensures
        forall|p: int| 0 <= p < install_spec(s, entries).order.len() ==>
            (#[trigger] install_spec(s, entries).order[p] matches EntryV::Folder(g) ==> !is_blank(g.name)),
{
    lemma_restored_name_not_blank();
}

/// A way in which a state breaks the space-order invariants.
#[derive(Debug, Clone, PartialEq, Eq)]
pub enum SpaceOrderViolation {
    /// The order references a workspace that does not exist.
    UnknownWorkspace(String),
    /// A workspace appears in the order more than once.
    DuplicateReference(String),
    /// Two folders share an id.
    DuplicateFolderId(String),
    /// A folder's name is empty or whitespace only.
    EmptyFolderName(String),
    /// The workspaces are not in the order's canonical flattening.
    NotCanonical,
    /// A worktree family is split across folders.
    SplitFamily(String),
}

/// Same family key.
pub open spec fn same_family(a: Workspace, b: Workspace) -> bool {
    match (a.worktree_space, b.worktree_space) {
        (Some(x), Some(y)) => x.key@ == y.key@,
        _ => false,
    }
}

/// The invariants every folder operation keeps: the order references only
/// live workspaces, each at most once; folder ids are unique and folder
/// names are not blank; the workspaces follow the canonical order; and no
/// worktree family is split across folders.
pub open spec fn space_order_invariants(s: StateV) -> bool {
    let f = crate::folder::flat(s.order);
    &&& forall|x: Seq<char>| f.contains(x) ==> ws_ids(s.ws).contains(x)
    &&& f.no_duplicates()
    &&& crate::folder::folder_ids(s.order).no_duplicates()
    &&& forall|p: int| 0 <= p < s.order.len() ==> (#[trigger] s.order[p] matches EntryV::Folder(g) ==> !is_blank(g.name))
    &&& ws_ids(s.ws) == canonical_of(s)
    &&& forall|i: int, j: int| 0 <= i < s.ws.len() && 0 <= j < s.ws.len() && same_family(#[trigger] s.ws[i], #[trigger] s.ws[j])
        ==> folder_of_spec(s.order, s.ws[i].id@) == folder_of_spec(s.order, s.ws[j].id@)
}

fn folder_ids_exec(order: &Vec<SpaceOrderEntry>) -> (r: Vec<String>)
    ensures
        strs(r@) == crate::folder::folder_ids(entries_view(order@)),
{
    let ghost v = entries_view(order@);
    let mut r: Vec<String> = Vec::new();
    let mut i: usize = 0;
    assert(v.take(0) =~= Seq::<EntryV>::empty());
    assert(strs(r@) =~= Seq::<Seq<char>>::empty());
    while i < order.len()
        invariant
            i <= order@.len(),
            v == entries_view(order@),
            strs(r@) == crate::folder::folder_ids(v.take(i as int)),
        decreases order.len() - i,
    {
        assert(v.take(i + 1).drop_last() =~= v.take(i as int));
        assert(v.take(i + 1).last() == order@[i as int]@);
        let ghost before = strs(r@);
        match &order[i] {
            SpaceOrderEntry::Folder(f) => {
                r.push(f.id.clone());
                assert(strs(r@) =~= before + seq![f.id@]);
            },
            SpaceOrderEntry::Workspace(_) => {
                assert(before + Seq::<Seq<char>>::empty() =~= before);
            },
        }
        i = i + 1;
    }
    assert(v.take(order@.len() as int) =~= v);
    r
}

/// The first repeated string, if any.
fn first_repeat(v: &Vec<String>) -> (r: Option<usize>)
    ensures
        r matches Some(k) ==> k < v@.len() && strs(v@).take(k as int).contains(strs(v@)[k as int]),
        r is None ==> strs(v@).no_duplicates(),
{
    let ghost sv = strs(v@);
    let mut k: usize = 0;
    while k < v.len()
        invariant
            k <= v@.len(),
            sv == strs(v@),
            forall|a: int, b: int| 0 <= a < b < k ==> sv[a] != sv[b],
        decreases v.len() - k,
    {
        let mut j: usize = 0;
        while j < k
            invariant
                j <= k < v@.len(),
                sv == strs(v@),
                forall|a: int| 0 <= a < j ==> sv[a] != sv[k as int],
            decreases k - j,
        {
            if str_eq(v[j].as_str(), v[k].as_str()) {
                assert(sv.take(k as int)[j as int] == sv[k as int]);
                return Some(k);
            }
            j = j + 1;
        }
        k = k + 1;
    }
    None
}

impl AppState {
    /// The first broken space-order invariant found, or `None` when the
    /// state keeps them all.
    pub fn space_order_violation(&self) -> (r: Option<SpaceOrderViolation>)
        ensures
            r is None <==> space_order_invariants(self@),
            r matches Some(SpaceOrderViolation::UnknownWorkspace(id)) ==> crate::folder::flat(self@.order).contains(id@)
                && !ws_ids(self@.ws).contains(id@),
            r matches Some(SpaceOrderViolation::DuplicateReference(id)) ==> exists|a: int, b: int|
                0 <= a < b < crate::folder::flat(self@.order).len()
                && #[trigger] crate::folder::flat(self@.order)[a] == id@ && #[trigger] crate::folder::flat(self@.order)[b] == id@,
            r matches Some(SpaceOrderViolation::DuplicateFolderId(id)) ==> exists|a: int, b: int|
                0 <= a < b < crate::folder::folder_ids(self@.order).len()
                && #[trigger] crate::folder::folder_ids(self@.order)[a] == id@ && #[trigger] crate::folder::folder_ids(self@.order)[b] == id@,
            r matches Some(SpaceOrderViolation::EmptyFolderName(id)) ==> exists|p: int|
                0 <= p < self@.order.len() && (#[trigger] self@.order[p] matches EntryV::Folder(g) && g.id == id@ && is_blank(g.name)),
            r matches Some(SpaceOrderViolation::NotCanonical) ==> ws_ids(self@.ws) != canonical_of(self@),
            r matches Some(SpaceOrderViolation::SplitFamily(key)) ==> exists|i: int, j: int|
                0 <= i < self@.ws.len() && 0 <= j < self@.ws.len() && same_family(#[trigger] self@.ws[i], #[trigger] self@.ws[j])
                && (self@.ws[i].worktree_space matches Some(w) && w.key@ == key@)
                && folder_of_spec(self@.order, self@.ws[i].id@) != folder_of_spec(self@.order, self@.ws[j].id@),
    {
        let ghost s = self@;
        let flat = crate::folder::flatten_entries(&self.space_order);
        let ids = workspace_id_strs(&self.workspaces);
        let mut k: usize = 0;
        while k < flat.len()
            invariant
                k <= flat@.len(),
                s == self@,
                strs(flat@) == crate::folder::flat(s.order),
                ids_view(ids@) == ws_ids(s.ws),
                forall|a: int| 0 <= a < k ==> ws_ids(s.ws).contains(#[trigger] strs(flat@)[a]),
            decreases flat.len() - k,
        {
            if !crate::folder::contains_string_in_strs(ids.as_slice(), flat[k].as_str()) {
                assert(crate::folder::flat(s.order)[k as int] == flat@[k as int]@);
                assert(crate::folder::flat(s.order).contains(flat@[k as int]@));
                return Some(SpaceOrderViolation::UnknownWorkspace(flat[k].clone()));
            }
            k = k + 1;
        }
        assert forall|x: Seq<char>| crate::folder::flat(s.order).contains(x) implies ws_ids(s.ws).contains(x) by {
            let a = choose|a: int| 0 <= a < strs(flat@).len() && strs(flat@)[a] == x;
        }
        match first_repeat(&flat) {
            Some(k) => {
                proof {
                    let sv = strs(flat@);
                    let b = choose|b: int| 0 <= b < sv.take(k as int).len() && sv.take(k as int)[b] == sv[k as int];
                    assert(sv[b] == sv[k as int]);
                    assert(sv[k as int] == flat@[k as int]@);
                    assert(crate::folder::flat(s.order)[b] == flat@[k as int]@ && crate::folder::flat(s.order)[k as int] == flat@[k as int]@);
                }
                return Some(SpaceOrderViolation::DuplicateReference(flat[k].clone()));
            },
            None => {},
        }
        let fids = folder_ids_exec(&self.space_order);
        match first_repeat(&fids) {
            Some(k) => {
                proof {
                    let sv = strs(fids@);
                    let b = choose|b: int| 0 <= b < sv.take(k as int).len() && sv.take(k as int)[b] == sv[k as int];
                    assert(sv[b] == sv[k as int]);
                    assert(sv[k as int] == fids@[k as int]@);
                    assert(crate::folder::folder_ids(s.order)[b] == fids@[k as int]@ && crate::folder::folder_ids(s.order)[k as int] == fids@[k as int]@);
                }
                return Some(SpaceOrderViolation::DuplicateFolderId(fids[k].clone()));
            },
            None => {},
        }
        let mut p: usize = 0;
        while p < self.space_order.len()
            invariant
                p <= self.space_order@.len(),
                s == self@,
                forall|q: int| 0 <= q < p ==> (#[trigger] s.order[q] matches EntryV::Folder(g) ==> !is_blank(g.name)),
            decreases self.space_order.len() - p,
        {
            match &self.space_order[p] {
                SpaceOrderEntry::Folder(f) => {
                    if crate::text::is_blank_name(f.name.as_str()) {
                        assert(s.order[p as int] == EntryV::Folder(f@));
                        return Some(SpaceOrderViolation::EmptyFolderName(f.id.clone()));
                    }
                },
                SpaceOrderEntry::Workspace(_) => {},
            }
            p = p + 1;
        }
        let canonical = self.canonical_workspace_order();
        if !ids_match(&self.workspaces, &canonical) {
            return Some(SpaceOrderViolation::NotCanonical);
        }
        let n = self.workspaces.len();
        let mut i: usize = 0;
        while i < n
            invariant
                i <= n,
                n == s.ws.len(),
                s == self@,
                forall|a: int, b: int| 0 <= a < i && 0 <= b < n && same_family(#[trigger] s.ws[a], #[trigger] s.ws[b])
                    ==> folder_of_spec(s.order, s.ws[a].id@) == folder_of_spec(s.order, s.ws[b].id@),
            decreases n - i,
        {
            let mut j: usize = 0;
            while j < n
                invariant
                    i < n,
                    j <= n,
                    n == s.ws.len(),
                    s == self@,
                    forall|a: int, b: int| 0 <= a < i && 0 <= b < n && same_family(#[trigger] s.ws[a], #[trigger] s.ws[b])
                        ==> folder_of_spec(s.order, s.ws[a].id@) == folder_of_spec(s.order, s.ws[b].id@),
                    forall|b: int| 0 <= b < j && same_family(s.ws[i as int], #[trigger] s.ws[b])
                        ==> folder_of_spec(s.order, s.ws[i as int].id@) == folder_of_spec(s.order, s.ws[b].id@),
                decreases n - j,
            {
                let same = match (&self.workspaces[i].worktree_space, &self.workspaces[j].worktree_space) {
                    (Some(x), Some(y)) => str_eq(x.key.as_str(), y.key.as_str()),
                    _ => false,
                };
                if same {
                    let a = self.workspace_folder_id(self.workspaces[i].id.as_str());
                    let b = self.workspace_folder_id(self.workspaces[j].id.as_str());
                    if !opt_str_eq(a, b) {
                        let key = match &self.workspaces[i].worktree_space {
                            Some(x) => x.key.clone(),
                            None => String::new(),
                        };
                        assert(same_family(s.ws[i as int], s.ws[j as int]));
                        assert(s.ws[i as int].worktree_space matches Some(w) && w.key@ == key@);
                        return Some(SpaceOrderViolation::SplitFamily(key));
                    }
                }
                j = j + 1;
            }
            i = i + 1;
        }
        None
    }
}

// ---------------------------------------------------------------------------
// Moving and closing workspaces by index.
// ---------------------------------------------------------------------------

/// The workspaces after moving the one at `from` to slot `to` (a slot index
/// in `0..=len`), or `None` when the move is out of range or changes nothing.
pub open spec fn move_index_spec(ws: Seq<Workspace>, from: usize, to: usize) -> Option<Seq<Workspace>> {
    if from >= ws.len() || to > ws.len() {
        None
    } else {
        let dest = if to > from { to - 1 } else { to as int };
        if dest == from {
            None
        } else {
            Some(ws.remove(from as int).insert(dest, ws[from as int]))
        }
    }
}

/// The focus carried over to a reordered workspace list by identity.
pub open spec fn refocus(s: StateV, ws: Seq<Workspace>) -> StateV {
    StateV {
        ws,
        active: match s.active {
            Some(a) => if a < s.ws.len() { focus_in(ws_ids(ws), s.ws[a as int].id@) } else { None },
            None => None,
        },
        selected: if s.selected < s.ws.len() {
            match focus_in(ws_ids(ws), s.ws[s.selected as int].id@) {
                Some(p) => p,
                None => 0,
            }
        } else {
            0
        },
        ..s
    }
}

/// The workspaces with the ids `ids` (in workspace order), then the others.
pub open spec fn split_block(ws: Seq<Workspace>, ids: Seq<Seq<char>>) -> (Seq<Workspace>, Seq<Workspace>)
    decreases ws.len(),
{
    if ws.len() == 0 {
        (seq![], seq![])
    } else {
        let (b, r) = split_block(ws.drop_last(), ids);
        if ids.contains(ws.last().id@) { (b.push(ws.last()), r) } else { (b, r.push(ws.last())) }
    }
}

/// The workspaces after moving the block `ids` before workspace `before`
/// (or to the end), or `None` when an id is unknown, the anchor is in the
/// block or missing, or nothing changes.
pub open spec fn move_block_spec(ws: Seq<Workspace>, ids: Seq<Seq<char>>, before: Option<Seq<char>>) -> Option<Seq<Workspace>> {
    if exists|k: int| 0 <= k < ids.len() && !ws_ids(ws).contains(#[trigger] ids[k]) {
        None
    } else {
        let (block, rest) = split_block(ws, ids);
        let moved = match before {
            Some(b) => match first_pos(ws_ids(rest), b) {
                Some(p) => Some(rest.take(p) + block + rest.skip(p)),
                None => None,
            },
            None => Some(rest + block),
        };
        match moved {
            Some(m) => if ws_ids(m) == ws_ids(ws) { None } else { Some(m) },
            None => None,
        }
    }
}

/// The state after closing the selected workspace: it leaves the workspace
/// list and the space order; the focus stays on the same neighbors.
pub open spec fn close_selected_spec(s: StateV) -> StateV {
    if s.selected >= s.ws.len() {
        s
    } else {
        let ws = s.ws.remove(s.selected as int);
        let active = match s.active {
            Some(a) => if a == s.selected { None } else if a > s.selected { Some((a - 1) as usize) } else { Some(a) },
            None => None,
        };
        let selected = if ws.len() == 0 {
            0
        } else if s.selected >= ws.len() {
            (ws.len() - 1) as usize
        } else {
            s.selected
        };
        let s1 = StateV { ws, active, selected, ..s };
        let s2 = if s1.order.len() == 0 { s1 } else { normalize_entries_spec(s1).0 };
        StateV { dirty: true, ..s2 }
    }
}

fn workspace_ids_owned(ws: &Vec<Workspace>) -> (r: Vec<String>)
    ensures
        strs(r@) == ws_ids(ws@),
{
    let mut r: Vec<String> = Vec::new();
    let mut i: usize = 0;
    while i < ws.len()
        invariant
            i <= ws@.len(),
            strs(r@) == ws_ids(ws@).take(i as int),
        decreases ws.len() - i,
    {
        let ghost before = strs(r@);
        r.push(ws[i].id.clone());
        assert(strs(r@) =~= before.push(ws@[i as int].id@));
        assert(ws_ids(ws@).take(i + 1) =~= ws_ids(ws@).take(i as int).push(ws@[i as int].id@));
        i = i + 1;
    }
    assert(ws_ids(ws@).take(ws@.len() as int) =~= ws_ids(ws@));
    r
}

/// Without duplicates, nothing occurs more than once.
pub proof fn lemma_no_dup_counts(s: Seq<Seq<char>>, x: Seq<char>)
    requires
        s.no_duplicates(),
    ensures
        count_of(s, x) <= 1,
    decreases s.len(),
{
    if s.len() > 0 {
        lemma_no_dup_counts(s.drop_last(), x);
        if s.last() == x && s.drop_last().contains(x) {
            let i = choose|i: int| 0 <= i < s.drop_last().len() && s.drop_last()[i] == x;
            assert(s[i] == s[s.len() - 1]);
        }
        lemma_count_contains(s.drop_last(), x);
    }
}

proof fn lemma_ws_ids_concat(a: Seq<Workspace>, b: Seq<Workspace>)
    ensures
        ws_ids(a + b) == ws_ids(a) + ws_ids(b),
{
    assert(ws_ids(a + b) =~= ws_ids(a) + ws_ids(b));
}

proof fn lemma_split_block_counts(ws: Seq<Workspace>, ids: Seq<Seq<char>>, x: Seq<char>)
    ensures
        count_of(ws_ids(split_block(ws, ids).0), x) + count_of(ws_ids(split_block(ws, ids).1), x) == count_of(ws_ids(ws), x),
    decreases ws.len(),
{
    if ws.len() > 0 {
        lemma_split_block_counts(ws.drop_last(), ids, x);
        let (b, r) = split_block(ws.drop_last(), ids);
        assert(ws_ids(ws).drop_last() =~= ws_ids(ws.drop_last()));
        assert(ws_ids(b.push(ws.last())) =~= ws_ids(b).push(ws.last().id@));
        assert(ws_ids(r.push(ws.last())) =~= ws_ids(r).push(ws.last().id@));
        assert(ws_ids(b.push(ws.last())).drop_last() =~= ws_ids(b));
        assert(ws_ids(r.push(ws.last())).drop_last() =~= ws_ids(r));
    }
}

/// Moving a block of workspaces keeps workspace ids unique.
proof fn lemma_move_block_wf(ws: Seq<Workspace>, ids: Seq<Seq<char>>, before: Option<Seq<char>>)
    requires
        ws_ids(ws).no_duplicates(),
    ensures
        move_block_spec(ws, ids, before) matches Some(m) ==> ws_ids(m).no_duplicates(),
{
    if let Some(m) = move_block_spec(ws, ids, before) {
        let (block, rest) = split_block(ws, ids);
        assert forall|x: Seq<char>| #[trigger] count_of(ws_ids(m), x) <= 1 by {
            lemma_split_block_counts(ws, ids, x);
            lemma_no_dup_counts(ws_ids(ws), x);
            match before {
                Some(b) => {
                    let p = first_pos(ws_ids(rest), b)->Some_0;
                    lemma_first_pos(ws_ids(rest), b);
                    assert(rest =~= rest.take(p) + rest.skip(p));
                    lemma_ws_ids_concat(rest.take(p), rest.skip(p));
                    lemma_ws_ids_concat(rest.take(p) + block, rest.skip(p));
                    lemma_ws_ids_concat(rest.take(p), block);
                    crate::folder_laws::lemma_count_concat_pub(ws_ids(rest.take(p)) + ws_ids(block), ws_ids(rest.skip(p)), x);
                    crate::folder_laws::lemma_count_concat_pub(ws_ids(rest.take(p)), ws_ids(block), x);
                    crate::folder_laws::lemma_count_concat_pub(ws_ids(rest.take(p)), ws_ids(rest.skip(p)), x);
                },
                None => {
                    lemma_ws_ids_concat(rest, block);
                    crate::folder_laws::lemma_count_concat_pub(ws_ids(rest), ws_ids(block), x);
                },
            }
        }
        lemma_counts_no_dup(ws_ids(m));
    }
}

/// Moving one workspace keeps workspace ids unique.
proof fn lemma_move_index_wf(ws: Seq<Workspace>, from: usize, to: usize)
    requires
        ws_ids(ws).no_duplicates(),
    ensures
        move_index_spec(ws, from, to) matches Some(m) ==> ws_ids(m).no_duplicates(),
{
    if let Some(m) = move_index_spec(ws, from, to) {
        let dest = if to > from { to - 1 } else { to as int };
        let r = ws.remove(from as int);
        assert(r =~= ws.take(from as int) + ws.skip(from + 1));
        assert(m =~= r.take(dest) + seq![ws[from as int]] + r.skip(dest));
        assert forall|x: Seq<char>| #[trigger] count_of(ws_ids(m), x) <= 1 by {
            lemma_no_dup_counts(ws_ids(ws), x);
            assert(ws =~= ws.take(from as int) + seq![ws[from as int]] + ws.skip(from + 1));
            lemma_ws_ids_concat(ws.take(from as int) + seq![ws[from as int]], ws.skip(from + 1));
            lemma_ws_ids_concat(ws.take(from as int), seq![ws[from as int]]);
            lemma_ws_ids_concat(ws.take(from as int), ws.skip(from + 1));
            assert(r =~= r.take(dest) + r.skip(dest));
            lemma_ws_ids_concat(r.take(dest), r.skip(dest));
            lemma_ws_ids_concat(r.take(dest) + seq![ws[from as int]], r.skip(dest));
            lemma_ws_ids_concat(r.take(dest), seq![ws[from as int]]);
            let wi = ws_ids(ws.take(from as int));
            let mi = ws_ids(seq![ws[from as int]]);
            let si = ws_ids(ws.skip(from + 1));
            crate::folder_laws::lemma_count_concat_pub(wi + mi, si, x);
            crate::folder_laws::lemma_count_concat_pub(wi, mi, x);
            crate::folder_laws::lemma_count_concat_pub(wi, si, x);
            let ti = ws_ids(r.take(dest));
            let ui = ws_ids(r.skip(dest));
            crate::folder_laws::lemma_count_concat_pub(ti + mi, ui, x);
            crate::folder_laws::lemma_count_concat_pub(ti, mi, x);
            crate::folder_laws::lemma_count_concat_pub(ti, ui, x);
        }
        lemma_counts_no_dup(ws_ids(m));
    }
}

impl AppState {
    /// An empty state.
    pub fn new() -> (r: Self)
        ensures
            r@.ws.len() == 0,
            r@.order.len() == 0,
            r@.active is None,
            r@.selected == 0,
            !r@.dirty,
            r@.next_id == 1,
            r.update_available is None,
            !r.latest_release_notes_available,
    {
        AppState {
            workspaces: Vec::new(),
            active: None,
            selected: 0,
            space_order: Vec::new(),
            session_dirty: false,
            folder_ids: FolderIdAllocator::new(),
            update_available: None,
            latest_release_notes_available: false,
        }
    }

    /// Carry `active` and `selected` over to the current workspace list by
    /// identity, from the ids they named before.
    fn refocus_by_ids(&mut self, active_id: Option<String>, selected_id: Option<String>)
        ensures
            final(self)@ == (StateV {
                active: match active_id { Some(id) => focus_in(ws_ids(old(self)@.ws), id@), None => None },
                selected: match selected_id {
                    Some(id) => match focus_in(ws_ids(old(self)@.ws), id@) { Some(p) => p, None => 0 },
                    None => 0,
                },
                ..old(self)@
            }),
    {
        let ids = workspace_ids_owned(&self.workspaces);
        self.active = match &active_id {
            Some(id) => position_of(&ids, id.as_str()),
            None => None,
        };
        self.selected = match &selected_id {
            Some(id) => match position_of(&ids, id.as_str()) {
                Some(p) => p,
                None => 0,
            },
            None => 0,
        };
    }
}

fn split_block_exec(ws: Vec<Workspace>, ids: &[String]) -> (r: (Vec<Workspace>, Vec<Workspace>))
    ensures
        (r.0@, r.1@) == split_block(ws@, strs_of_slice(ids@)),
{
    let mut block: Vec<Workspace> = Vec::new();
    let mut rest: Vec<Workspace> = Vec::new();
    let mut i: usize = 0;
    assert(ws@.take(0) =~= Seq::<Workspace>::empty());
    while i < ws.len()
        invariant
            i <= ws@.len(),
            (block@, rest@) == split_block(ws@.take(i as int), strs_of_slice(ids@)),
        decreases ws.len() - i,
    {
        assert(ws@.take(i + 1).drop_last() =~= ws@.take(i as int));
        assert(ws@.take(i + 1).last() == ws@[i as int]);
        let w = clone_workspace(&ws[i]);
        if slice_contains(ids, ws[i].id.as_str()) {
            block.push(w);
        } else {
            rest.push(w);
        }
        i = i + 1;
    }
    assert(ws@.take(ws@.len() as int) =~= ws@);
    (block, rest)
}

/// The character sequences of a slice of strings.
pub open spec fn strs_of_slice(v: Seq<String>) -> Seq<Seq<char>> {
    v.map_values(|s: String| s@)
}

fn slice_contains(v: &[String], x: &str) -> (r: bool)
    ensures
        r == strs_of_slice(v@).contains(x@),
{
    let mut i: usize = 0;
    while i < v.len()
        invariant
            i <= v@.len(),
            forall|k: int| 0 <= k < i ==> strs_of_slice(v@)[k] != x@,
        decreases v.len() - i,
    {
        if str_eq(v[i].as_str(), x) {
            assert(strs_of_slice(v@)[i as int] == x@);
            return true;
        }
        i = i + 1;
    }
    false
}

impl AppState {
    /// Move the workspace at `from` to slot `to` (`0..=len`), then rebuild
    /// the space order from the new workspace order. Returns whether
    /// anything moved.
    pub fn move_workspace(&mut self, from: usize, to: usize) -> (moved: bool)
        requires
            old(self).wf(),
        ensures
            moved == move_index_spec(old(self)@.ws, from, to) is Some,
            final(self)@ == match move_index_spec(old(self)@.ws, from, to) {
                Some(m) => rebuild_spec(refocus(old(self)@, m)),
                None => old(self)@,
            },
            final(self).wf(),
    {
        let ghost s = self@;
        let len = self.workspaces.len();
        if from >= len || to > len {
            return false;
        }
        let dest = if to > from { to - 1 } else { to };
        if dest == from {
            return false;
        }
        proof { lemma_move_index_wf(s.ws, from, to); }
        let active_id: Option<String> = match self.active {
            Some(a) => if a < len { Some(self.workspaces[a].id.clone()) } else { None },
            None => None,
        };
        let selected_id: Option<String> = if self.selected < len { Some(self.workspaces[self.selected].id.clone()) } else { None };
        let w = self.workspaces.remove(from);
        self.workspaces.insert(dest, w);
        self.refocus_by_ids(active_id, selected_id);
        assert(self@ =~= refocus(s, s.ws.remove(from as int).insert(dest as int, s.ws[from as int])));
        self.rebuild_space_order_after_reorder();
        true
    }

    /// Move the workspaces `ids` (as one block, in workspace order) before
    /// workspace `before`, or to the end; then rebuild the space order.
    /// Returns whether anything moved.
    pub fn move_workspace_block(&mut self, ids: &[String], before: Option<&String>) -> (moved: bool)
        requires
            old(self).wf(),
        ensures
            ({
                let b = match before { Some(x) => Some(x@), None => None };
                &&& moved == move_block_spec(old(self)@.ws, strs_of_slice(ids@), b) is Some
                &&& final(self)@ == match move_block_spec(old(self)@.ws, strs_of_slice(ids@), b) {
                    Some(m) => rebuild_spec(refocus(old(self)@, m)),
                    None => old(self)@,
                }
            }),
            final(self).wf(),
    {
        let ghost s = self@;
        let ghost bv = match before { Some(x) => Some(x@), None => None::<Seq<char>> };
        let ghost iv = strs_of_slice(ids@);
        let mut k: usize = 0;
        while k < ids.len()
            invariant
                k <= ids@.len(),
                s == self@,
                self.wf(),
                iv == strs_of_slice(ids@),
                forall|j: int| 0 <= j < k ==> ws_ids(s.ws).contains(#[trigger] iv[j]),
            decreases ids.len() - k,
        {
            if find_workspace(&self.workspaces, ids[k].as_str()).is_none() {
                proof { lemma_first_pos(ws_ids(s.ws), iv[k as int]); }
                return false;
            }
            proof { lemma_first_pos(ws_ids(s.ws), iv[k as int]); }
            k = k + 1;
        }
        let mut copy: Vec<Workspace> = Vec::new();
        let mut c: usize = 0;
        while c < self.workspaces.len()
            invariant
                c <= self.workspaces@.len(),
                s == self@,
                copy@ == s.ws.take(c as int),
            decreases self.workspaces.len() - c,
        {
            copy.push(clone_workspace(&self.workspaces[c]));
            assert(s.ws.take(c + 1) =~= s.ws.take(c as int).push(s.ws[c as int]));
            c = c + 1;
        }
        assert(s.ws.take(s.ws.len() as int) =~= s.ws);
        let (block, rest) = split_block_exec(copy, ids);
        let mut moved_ws: Vec<Workspace> = Vec::new();
        let p = match before {
            Some(b) => match find_workspace(&rest, b.as_str()) {
                Some(p) => p,
                None => return false,
            },
            None => rest.len(),
        };
        let mut i: usize = 0;
        while i < p
            invariant
                i <= p <= rest@.len(),
                moved_ws@ == rest@.take(i as int),
            decreases p - i,
        {
            moved_ws.push(clone_workspace(&rest[i]));
            assert(rest@.take(i + 1) =~= rest@.take(i as int).push(rest@[i as int]));
            i = i + 1;
        }
        let mut j: usize = 0;
        while j < block.len()
            invariant
                j <= block@.len(),
                p <= rest@.len(),
                moved_ws@ == rest@.take(p as int) + block@.take(j as int),
            decreases block.len() - j,
        {
            moved_ws.push(clone_workspace(&block[j]));
            assert(block@.take(j + 1) =~= block@.take(j as int).push(block@[j as int]));
            j = j + 1;
        }
        assert(block@.take(block@.len() as int) =~= block@);
        let mut t: usize = p;
        assert(rest@.skip(p as int).take(0) =~= Seq::<Workspace>::empty());
        while t < rest.len()
            invariant
                p <= t <= rest@.len(),
                moved_ws@ == rest@.take(p as int) + block@ + rest@.skip(p as int).take(t - p),
            decreases rest.len() - t,
        {
            moved_ws.push(clone_workspace(&rest[t]));
            assert(rest@.skip(p as int).take(t + 1 - p) =~= rest@.skip(p as int).take(t - p).push(rest@[t as int]));
            t = t + 1;
        }
        assert(rest@.skip(p as int).take(rest@.len() - p) =~= rest@.skip(p as int));
        if before.is_none() {
            assert(rest@.take(p as int) =~= rest@);
            assert(rest@.skip(p as int) =~= Seq::<Workspace>::empty());
            assert(moved_ws@ =~= rest@ + block@);
        }
        if ids_match(&moved_ws, &workspace_ids_owned(&self.workspaces)) {
            return false;
        }
        proof { lemma_move_block_wf(s.ws, iv, bv); }
        let len = self.workspaces.len();
        let active_id: Option<String> = match self.active {
            Some(a) => if a < len { Some(self.workspaces[a].id.clone()) } else { None },
            None => None,
        };
        let selected_id: Option<String> = if self.selected < len { Some(self.workspaces[self.selected].id.clone()) } else { None };
        self.workspaces = moved_ws;
        self.refocus_by_ids(active_id, selected_id);
        self.rebuild_space_order_after_reorder();
        true
    }

    /// Close the selected workspace: it leaves the workspace list and the
    /// space order, and the focus stays on the same neighbors.
    pub fn close_selected_workspace(&mut self)
        requires
            old(self).wf(),
        ensures
            final(self)@ == close_selected_spec(old(self)@),
            final(self).wf(),
    {
        let ghost s = self@;
        let len = self.workspaces.len();
        if self.selected >= len {
            return;
        }
        let sel = self.selected;
        let _closed = self.workspaces.remove(sel);
        proof {
            let r = s.ws.remove(sel as int);
            assert(ws_ids(r) =~= ws_ids(s.ws).remove(sel as int));
            assert forall|i: int, j: int| 0 <= i < ws_ids(r).len() && 0 <= j < ws_ids(r).len() && i != j
                implies ws_ids(r)[i] != ws_ids(r)[j] by {
                let i2 = if i < sel { i } else { i + 1 };
                let j2 = if j < sel { j } else { j + 1 };
                assert(ws_ids(r)[i] == ws_ids(s.ws)[i2]);
                assert(ws_ids(r)[j] == ws_ids(s.ws)[j2]);
            }
        }
        self.active = match self.active {
            Some(a) => if a == sel { None } else if a > sel { Some(a - 1) } else { Some(a) },
            None => None,
        };
        let new_len = self.workspaces.len();
        self.selected = if new_len == 0 { 0 } else if sel >= new_len { new_len - 1 } else { sel };
        self.prune_space_order();
        self.mark_session_dirty();
    }
}

impl AppState {
    /// The global launcher menu: an update waiting to install takes the slot
    /// of the release notes.
    pub fn global_menu_labels(&self) -> (r: Vec<&'static str>)
        ensures
            r@.map_values(|l: &str| l@) == seq!["settings"@, "keybinds"@, "reload config"@]
                + (if self.update_available is Some {
                    seq!["update ready"@]
                } else if self.latest_release_notes_available {
                    seq!["what's new"@]
                } else {
                    Seq::<Seq<char>>::empty()
                })
                + seq!["detach"@],
    {
        let mut labels: Vec<&'static str> = vec!["settings", "keybinds", "reload config"];
        let ghost first = labels@;
        if self.update_available.is_some() {
            labels.push("update ready");
        } else if self.latest_release_notes_available {
            labels.push("what's new");
        }
        let ghost middle = labels@;
        labels.push("detach");
        proof {
            let extra = if self.update_available is Some {
                seq!["update ready"@]
            } else if self.latest_release_notes_available {
                seq!["what's new"@]
            } else {
                Seq::<Seq<char>>::empty()
            };
            assert(middle.map_values(|l: &str| l@) =~= first.map_values(|l: &str| l@) + extra);
            assert(labels@.map_values(|l: &str| l@) =~= middle.map_values(|l: &str| l@).push("detach"@));
        }
        labels
    }
}

} // verus!
