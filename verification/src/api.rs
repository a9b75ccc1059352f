//! The folder API methods: each applies a mutation to the application state
//! and decides the response, the event subscribers see, and whether the
//! session needs saving. Encoding responses and delivering events is the
//! server's job.
use vstd::prelude::*;
use crate::folder::{entries_view, normalize_spec, normalized_space_order, strs, EntryV, Folder, FolderV, SpaceOrderEntry, folder_index};
use crate::schema::{
    FolderAssignParams, FolderCreateParams, FolderInfo, FolderMoveParams, FolderRenameParams, FolderTarget,
    SpaceOrderEntryInfo, SpaceOrderEntryKind,
};
use crate::state::{
    assign_spec, create_folder_spec, delete_folder_spec, folder_at, move_folder_spec, rename_folder_spec,
    workspace_id_strs, ws_ids, AppState, FolderMutationError, StateV,
};
use crate::folder::clone_strings;

verus! {

/// A successful folder API result.
#[derive(Debug, Clone, PartialEq, Eq)]
pub enum ResponseResult {
    FolderCreated { folder_id: String },
    FolderList { folders: Vec<FolderInfo>, order: Vec<SpaceOrderEntryInfo> },
    FolderUpdated { folder: FolderInfo },
    FolderDeleted { folder_id: String, workspace_ids: Vec<String> },
    FolderAssigned { folder_id: Option<String>, workspace_ids: Vec<String> },
    FolderMoved { folder_id: String, position: usize },
}

/// A rejected folder API request.
#[derive(Debug, Clone, PartialEq, Eq)]
pub struct ApiError {
    pub code: &'static str,
    pub message: &'static str,
}

/// A folder event for subscribers.
#[derive(Debug, Clone, PartialEq, Eq)]
pub enum EventData {
    FolderCreated { folder: FolderInfo },
    FolderUpdated { folder: FolderInfo },
    FolderDeleted { folder_id: String, workspace_ids: Vec<String> },
    FolderAssigned { folder_id: Option<String>, workspace_ids: Vec<String> },
    FolderMoved { folder_id: String, position: usize },
}

/// What handling a folder API request produced.
#[derive(Debug, PartialEq, Eq)]
pub struct ApiOutcome {
    pub response: Result<ResponseResult, ApiError>,
    pub event: Option<EventData>,
    /// The session changed and should be saved.
    pub save: bool,
}

/// The abstract value of a folder description.
pub open spec fn info_view(i: FolderInfo) -> FolderV {
    FolderV { id: i.folder_id@, name: i.name@, members: strs(i.members@) }
}

/// The abstract value of a result.
pub enum ResultV {
    Created(Seq<char>),
    List(Seq<FolderV>, Seq<(SpaceOrderEntryKind, Seq<char>)>),
    Updated(FolderV),
    Deleted(Seq<char>, Seq<Seq<char>>),
    Assigned(Option<Seq<char>>, Seq<Seq<char>>),
    Moved(Seq<char>, usize),
}

pub open spec fn opt_view(o: Option<String>) -> Option<Seq<char>> {
    match o {
        Some(s) => Some(s@),
        None => None,
    }
}

pub open spec fn result_view(r: ResponseResult) -> ResultV {
    match r {
        ResponseResult::FolderCreated { folder_id } => ResultV::Created(folder_id@),
        ResponseResult::FolderList { folders, order } => ResultV::List(
            folders@.map_values(|f: FolderInfo| info_view(f)),
            order@.map_values(|e: SpaceOrderEntryInfo| (e.kind, e.id@)),
        ),
        ResponseResult::FolderUpdated { folder } => ResultV::Updated(info_view(folder)),
        ResponseResult::FolderDeleted { folder_id, workspace_ids } => ResultV::Deleted(folder_id@, strs(workspace_ids@)),
        ResponseResult::FolderAssigned { folder_id, workspace_ids } => ResultV::Assigned(opt_view(folder_id), strs(workspace_ids@)),
        ResponseResult::FolderMoved { folder_id, position } => ResultV::Moved(folder_id@, position),
    }
}

/// The abstract value of an event.
pub enum EventV {
    Created(FolderV),
    Updated(FolderV),
    Deleted(Seq<char>, Seq<Seq<char>>),
    Assigned(Option<Seq<char>>, Seq<Seq<char>>),
    Moved(Seq<char>, usize),
}

pub open spec fn event_view(e: EventData) -> EventV {
    match e {
        EventData::FolderCreated { folder } => EventV::Created(info_view(folder)),
        EventData::FolderUpdated { folder } => EventV::Updated(info_view(folder)),
        EventData::FolderDeleted { folder_id, workspace_ids } => EventV::Deleted(folder_id@, strs(workspace_ids@)),
        EventData::FolderAssigned { folder_id, workspace_ids } => EventV::Assigned(opt_view(folder_id), strs(workspace_ids@)),
        EventData::FolderMoved { folder_id, position } => EventV::Moved(folder_id@, position),
    }
}

/// The error code a rejected mutation answers with.
pub open spec fn error_code(e: FolderMutationError) -> Seq<char> {
    match e {
        FolderMutationError::EmptyName => "invalid_folder_name"@,
        FolderMutationError::WorkspaceNotFound => "workspace_not_found"@,
        FolderMutationError::FolderNotFound => "folder_not_found"@,
    }
}

/// The message a rejected mutation answers with.
pub open spec fn error_message(e: FolderMutationError) -> Seq<char> {
    match e {
        FolderMutationError::EmptyName => "folder name must contain at least one non-whitespace character"@,
        FolderMutationError::WorkspaceNotFound => "workspace not found"@,
        FolderMutationError::FolderNotFound => "folder not found"@,
    }
}

/// The rejection that answers a mutation error.
pub open spec fn rejected(o: ApiOutcome, e: FolderMutationError) -> bool {
    &&& o.response matches Err(err) && err.code@ == error_code(e) && err.message@ == error_message(e)
    &&& o.event is None
    &&& !o.save
}

/// The folder at `id` in state `s`, if there is one.
pub open spec fn folder_in(s: StateV, id: Seq<char>) -> Option<FolderV> {
    match folder_index(s.order, id) {
        Some(p) => Some(folder_at(s.order, p)),
        None => None,
    }
}

/// A folder's API description.
pub fn folder_info(folder: &Folder) -> (r: FolderInfo)
    ensures
        info_view(r) == folder@,
{
    FolderInfo { folder_id: folder.id.clone(), name: folder.name.clone(), members: clone_strings(&folder.members) }
}

/// The rejection for a mutation error.
pub fn folder_mutation_error(err: &FolderMutationError) -> (r: ApiError)
    ensures
        r.code@ == error_code(*err),
        r.message@ == error_message(*err),
{
    proof {
        reveal_strlit("invalid_folder_name");
        reveal_strlit("workspace_not_found");
        reveal_strlit("folder_not_found");
        reveal_strlit("folder name must contain at least one non-whitespace character");
        reveal_strlit("workspace not found");
        reveal_strlit("folder not found");
    }
    match err {
        FolderMutationError::EmptyName => ApiError {
            code: "invalid_folder_name",
            message: "folder name must contain at least one non-whitespace character",
        },
        FolderMutationError::WorkspaceNotFound => ApiError { code: "workspace_not_found", message: "workspace not found" },
        FolderMutationError::FolderNotFound => ApiError { code: "folder_not_found", message: "folder not found" },
    }
}

fn reject(err: FolderMutationError) -> (r: ApiOutcome)
    ensures
        rejected(r, err),
{
    ApiOutcome { response: Err(folder_mutation_error(&err)), event: None, save: false }
}

/// The folder API over the application state.
pub struct App {
    pub state: AppState,
}

impl App {
    /// `folder.create`: a new empty folder at the end of the top level.
    pub fn handle_folder_create(&mut self, params: FolderCreateParams) -> (r: ApiOutcome)
        requires
            old(self).state.wf(),
        ensures
            final(self).state.wf(),
            ({
                let (s2, res) = create_folder_spec(old(self).state@, params.name@);
                &&& final(self).state@ == s2
                &&& match res {
                    Ok(id) => {
                        &&& r.response matches Ok(x) && result_view(x) == ResultV::Created(id)
                        &&& r.event matches Some(e) && event_view(e) == EventV::Created(folder_in(s2, id)->Some_0)
                        &&& folder_in(s2, id) is Some
                        &&& r.save
                    },
                    Err(e) => rejected(r, e),
                }
            }),
    {
        match self.state.create_folder(params.name.as_str()) {
            Ok(folder_id) => {
                let event = match self.state.folder(folder_id.as_str()) {
                    Some(folder) => Some(EventData::FolderCreated { folder: folder_info(folder) }),
                    None => None,
                };
                proof {
                    let s2 = self.state@;
                    crate::folder_laws::lemma_folder_index_found_pub(s2.order, folder_id@);
                    let n = s2.order.len() - 1;
                    assert(s2.order[n] matches EntryV::Folder(f) && f.id == folder_id@);
                    assert(crate::folder::folder_ids(s2.order).contains(folder_id@)) by {
                        lemma_folder_ids_last(s2.order);
                    }
                }
                ApiOutcome { response: Ok(ResponseResult::FolderCreated { folder_id }), event, save: true }
            },
            Err(err) => reject(err),
        }
    }
}

proof fn lemma_folder_ids_last(order: Seq<EntryV>)
    requires
        order.len() > 0,
        order.last() is Folder,
    ensures
        crate::folder::folder_ids(order).contains(order.last()->Folder_0.id),
{
    let ids = crate::folder::folder_ids(order);
    assert(ids[ids.len() - 1] == order.last()->Folder_0.id);
}

/// The folders of a normalized order, in order.
pub open spec fn list_folders(n: Seq<EntryV>) -> Seq<FolderV>
    decreases n.len(),
{
    if n.len() == 0 {
        seq![]
    } else {
        list_folders(n.drop_last()) + match n.last() {
            EntryV::Folder(f) => seq![f],
            EntryV::Workspace(_) => seq![],
        }
    }
}

/// The top-level entries of a normalized order as `(kind, id)`.
pub open spec fn list_order(n: Seq<EntryV>) -> Seq<(SpaceOrderEntryKind, Seq<char>)> {
    n.map_values(|e: EntryV| match e {
        EntryV::Folder(f) => (SpaceOrderEntryKind::Folder, f.id),
        EntryV::Workspace(w) => (SpaceOrderEntryKind::Workspace, w),
    })
}

/// The normalized order `folder.list` reports.
pub open spec fn listed_order(s: StateV) -> Seq<EntryV> {
    normalize_spec(s.order, ws_ids(s.ws)).0
}

/// Whether `o` reports `res` as an `Ok` with the given event and save flag.
pub open spec fn answered(o: ApiOutcome, res: ResultV, event: Option<EventV>, save: bool) -> bool {
    &&& o.response matches Ok(x) && result_view(x) == res
    &&& match event {
        Some(e) => o.event matches Some(x) && event_view(x) == e,
        None => o.event is None,
    }
    &&& o.save == save
}

impl App {
    /// `folder.list`: the folders and the top-level order, normalized so
    /// implicitly loose workspaces are explicit and stale references gone.
    pub fn handle_folder_list(&self) -> (r: ApiOutcome)
        ensures
            answered(r, ResultV::List(list_folders(listed_order(self.state@)), list_order(listed_order(self.state@))), None, false),
    {
        let workspace_ids = workspace_id_strs(&self.state.workspaces);
        let entries = normalized_space_order(self.state.space_order.as_slice(), workspace_ids.as_slice());
        let ghost n = entries_view(entries@);
        let mut folders: Vec<FolderInfo> = Vec::new();
        let mut order: Vec<SpaceOrderEntryInfo> = Vec::new();
        let mut i: usize = 0;
        while i < entries.len()
            invariant
                i <= entries@.len(),
                n == entries_view(entries@),
                folders@.map_values(|f: FolderInfo| info_view(f)) == list_folders(n.take(i as int)),
                order@.map_values(|e: SpaceOrderEntryInfo| (e.kind, e.id@)) == list_order(n.take(i as int)),
            decreases entries.len() - i,
        {
            proof {
                assert(n.take(i + 1).drop_last() =~= n.take(i as int));
                assert(n.take(i + 1).last() == entries@[i as int]@);
            }
            let ghost f0 = folders@;
            let ghost o0 = order@;
            match &entries[i] {
                SpaceOrderEntry::Folder(folder) => {
                    order.push(SpaceOrderEntryInfo { kind: SpaceOrderEntryKind::Folder, id: folder.id.clone() });
                    folders.push(folder_info(folder));
                    proof {
                        assert(folders@.map_values(|f: FolderInfo| info_view(f))
                            =~= f0.map_values(|f: FolderInfo| info_view(f)) + seq![folder@]);
                    }
                },
                SpaceOrderEntry::Workspace(workspace_id) => {
                    order.push(SpaceOrderEntryInfo { kind: SpaceOrderEntryKind::Workspace, id: workspace_id.clone() });
                    proof {
                        assert(folders@.map_values(|f: FolderInfo| info_view(f))
                            =~= f0.map_values(|f: FolderInfo| info_view(f)) + Seq::<FolderV>::empty());
                    }
                },
            }
            proof {
                assert(order@.map_values(|e: SpaceOrderEntryInfo| (e.kind, e.id@))
                    =~= o0.map_values(|e: SpaceOrderEntryInfo| (e.kind, e.id@)).push(list_order(n)[i as int]));
                assert(list_order(n.take(i + 1)) =~= list_order(n.take(i as int)).push(list_order(n)[i as int]));
            }
            i = i + 1;
        }
        proof { assert(n.take(entries@.len() as int) =~= n); }
        ApiOutcome { response: Ok(ResponseResult::FolderList { folders, order }), event: None, save: false }
    }

    /// `folder.rename`: names may repeat; the stored name is trimmed.
    pub fn handle_folder_rename(&mut self, params: FolderRenameParams) -> (r: ApiOutcome)
        requires
            old(self).state.wf(),
        ensures
            final(self).state.wf(),
            ({
                let (s2, res) = rename_folder_spec(old(self).state@, params.folder_id@, params.name@);
                &&& final(self).state@ == s2
                &&& match res {
                    Ok(_) => match folder_in(s2, params.folder_id@) {
                        Some(f) => answered(r, ResultV::Updated(f), Some(EventV::Updated(f)), true),
                        None => r.response matches Err(err) && err.code@ == error_code(FolderMutationError::FolderNotFound)
                            && r.event is None && r.save,
                    },
                    Err(e) => rejected(r, e),
                }
            }),
    {
        match self.state.rename_folder(params.folder_id.as_str(), params.name.as_str()) {
            Ok(()) => {
                let folder = match self.state.folder(params.folder_id.as_str()) {
                    Some(f) => folder_info(f),
                    None => {
                        return ApiOutcome {
                            response: Err(folder_mutation_error(&FolderMutationError::FolderNotFound)),
                            event: None,
                            save: true,
                        };
                    },
                };
                let event = EventData::FolderUpdated { folder: folder.clone_info() };
                ApiOutcome { response: Ok(ResponseResult::FolderUpdated { folder }), event: Some(event), save: true }
            },
            Err(err) => reject(err),
        }
    }

    /// `folder.delete`: the members are released in place.
    pub fn handle_folder_delete(&mut self, target: FolderTarget) -> (r: ApiOutcome)
        requires
            old(self).state.wf(),
        ensures
            final(self).state.wf(),
            ({
                let (s2, res) = delete_folder_spec(old(self).state@, target.folder_id@);
                &&& final(self).state@ == s2
                &&& match res {
                    Ok(ids) => answered(r, ResultV::Deleted(target.folder_id@, ids), Some(EventV::Deleted(target.folder_id@, ids)), true),
                    Err(e) => rejected(r, e),
                }
            }),
    {
        match self.state.delete_folder(target.folder_id.as_str()) {
            Ok(workspace_ids) => {
                let event = EventData::FolderDeleted {
                    folder_id: target.folder_id.clone(),
                    workspace_ids: clone_strings(&workspace_ids),
                };
                ApiOutcome {
                    response: Ok(ResponseResult::FolderDeleted { folder_id: target.folder_id, workspace_ids }),
                    event: Some(event),
                    save: true,
                }
            },
            Err(err) => reject(err),
        }
    }

    /// `folder.move`: the effective position is reported; a move that changes
    /// nothing is not announced.
    pub fn handle_folder_move(&mut self, params: FolderMoveParams) -> (r: ApiOutcome)
        requires
            old(self).state.wf(),
        ensures
            final(self).state.wf(),
            ({
                let (s2, res) = move_folder_spec(old(self).state@, params.folder_id@, params.position);
                &&& final(self).state@ == s2
                &&& match res {
                    Ok((position, moved)) => answered(
                        r,
                        ResultV::Moved(params.folder_id@, position),
                        if moved { Some(EventV::Moved(params.folder_id@, position)) } else { None },
                        moved,
                    ),
                    Err(e) => rejected(r, e),
                }
            }),
    {
        match self.state.move_folder(params.folder_id.as_str(), params.position) {
            Ok((position, moved)) => {
                let event = if moved {
                    Some(EventData::FolderMoved { folder_id: params.folder_id.clone(), position })
                } else {
                    None
                };
                ApiOutcome {
                    response: Ok(ResponseResult::FolderMoved { folder_id: params.folder_id, position }),
                    event,
                    save: moved,
                }
            },
            Err(err) => reject(err),
        }
    }

    /// `folder.assign`: files a workspace and its worktree family into a
    /// folder, or returns them to the top level. `resolved` is the index
    /// the API's workspace-id resolution gives for `params.workspace_id`.
    /// Reassigning to the folder it is already in reorders the members, and
    /// is announced as a folder update.
    pub fn handle_folder_assign(&mut self, params: FolderAssignParams, resolved: Option<usize>) -> (r: ApiOutcome)
        requires
            old(self).state.wf(),
        ensures
            final(self).state.wf(),
            match resolved {
                Some(i) if i < old(self).state@.ws.len() => {
                    let s = old(self).state@;
                    let wid = s.ws[i as int].id@;
                    let fid = opt_view(params.folder_id);
                    let previous = crate::folder::folder_of_spec(s.order, wid);
                    let (s2, res) = assign_spec(s, wid, fid, params.position);
                    &&& final(self).state@ == s2
                    &&& match res {
                        Ok(ids) => {
                            let same_folder = fid is Some && fid == previous;
                            let event = if same_folder {
                                match folder_in(s2, fid->Some_0) {
                                    Some(f) => Some(EventV::Updated(f)),
                                    None => None,
                                }
                            } else {
                                Some(EventV::Assigned(fid, ids))
                            };
                            answered(r, ResultV::Assigned(fid, ids), event, true)
                        },
                        Err(e) => rejected(r, e),
                    }
                },
                _ => final(self).state@ == old(self).state@ && rejected(r, FolderMutationError::WorkspaceNotFound),
            },
    {
        let index = match resolved {
            Some(i) => i,
            None => return reject(FolderMutationError::WorkspaceNotFound),
        };
        if index >= self.state.workspaces.len() {
            return reject(FolderMutationError::WorkspaceNotFound);
        }
        let workspace_id = self.state.workspaces[index].id.clone();
        let previous_folder_id: Option<String> = match self.state.workspace_folder_id(workspace_id.as_str()) {
            Some(f) => Some(f.to_string()),
            None => None,
        };
        let folder_id: Option<&str> = match &params.folder_id {
            Some(f) => Some(f.as_str()),
            None => None,
        };
        match self.state.assign_workspace_to_folder(workspace_id.as_str(), folder_id, params.position) {
            Ok(workspace_ids) => {
                let same_folder = match (&params.folder_id, &previous_folder_id) {
                    (Some(a), Some(b)) => crate::text::str_eq(a.as_str(), b.as_str()),
                    _ => false,
                };
                let event = if same_folder {
                    match &params.folder_id {
                        Some(f) => match self.state.folder(f.as_str()) {
                            Some(folder) => Some(EventData::FolderUpdated { folder: folder_info(folder) }),
                            None => None,
                        },
                        None => None,
                    }
                } else {
                    Some(EventData::FolderAssigned {
                        folder_id: clone_opt(&params.folder_id),
                        workspace_ids: clone_strings(&workspace_ids),
                    })
                };
                ApiOutcome {
                    response: Ok(ResponseResult::FolderAssigned { folder_id: params.folder_id, workspace_ids }),
                    event,
                    save: true,
                }
            },
            Err(err) => reject(err),
        }
    }
}

fn clone_opt(o: &Option<String>) -> (r: Option<String>)
    ensures
        opt_view(r) == opt_view(*o),
{
    match o {
        Some(s) => Some(s.clone()),
        None => None,
    }
}

impl FolderInfo {
    /// A copy of the description.
    pub fn clone_info(&self) -> (r: FolderInfo)
        ensures
            info_view(r) == info_view(*self),
    {
        FolderInfo { folder_id: self.folder_id.clone(), name: self.name.clone(), members: clone_strings(&self.members) }
    }
}

} // verus!
