//! Parameters and results of the folder API methods.
use vstd::prelude::*;

verus! {

#[derive(Debug, Clone, PartialEq, Eq)]
pub struct FolderCreateParams {
    /// Display name; duplicates allowed, empty/whitespace-only rejected.
    pub name: String,
}

#[derive(Debug, Clone, PartialEq, Eq)]
pub struct FolderRenameParams {
    pub folder_id: String,
    /// New display name; duplicates allowed, empty/whitespace-only rejected.
    pub name: String,
}

/// Parameters addressing a single folder by id.
#[derive(Debug, Clone, PartialEq, Eq)]
pub struct FolderTarget {
    pub folder_id: String,
}

#[derive(Debug, Clone, PartialEq, Eq)]
pub struct FolderAssignParams {
    pub workspace_id: String,
    /// Target folder, or `None` to return the workspace to the top level.
    /// Assigning any worktree family member moves the whole family.
    pub folder_id: Option<String>,
    /// Final index of the assigned block inside the target container; `None`
    /// appends, out-of-range positions clamp to the end.
    pub position: Option<usize>,
}

#[derive(Debug, Clone, PartialEq, Eq)]
pub struct FolderMoveParams {
    pub folder_id: String,
    /// The folder's final index among top-level entries; out-of-range
    /// positions clamp to the end.
    pub position: usize,
}

#[derive(Debug, Clone, PartialEq, Eq)]
pub struct FolderInfo {
    pub folder_id: String,
    pub name: String,
    /// Ordered member workspace ids.
    pub members: Vec<String>,
}

/// One entry of the top-level space order: a folder or a loose workspace.
#[derive(Debug, Clone, PartialEq, Eq)]
pub struct SpaceOrderEntryInfo {
    pub kind: SpaceOrderEntryKind,
    /// Folder id or workspace id, matching `kind`.
    pub id: String,
}

#[derive(Debug, Clone, Copy, PartialEq, Eq)]
pub enum SpaceOrderEntryKind {
    Folder,
    Workspace,
}

/// A folder API request.
#[derive(Debug, Clone, PartialEq, Eq)]
pub enum Method {
    FolderList,
    FolderCreate(FolderCreateParams),
    FolderRename(FolderRenameParams),
    FolderDelete(FolderTarget),
    FolderAssign(FolderAssignParams),
    FolderMove(FolderMoveParams),
}

} // verus!
