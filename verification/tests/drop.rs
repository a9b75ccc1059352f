use herdr_folders::drop::WorkspaceDropTarget;
use herdr_folders::folder::SpaceOrderEntry;
use herdr_folders::schema::FolderAssignParams;
use herdr_folders::state::{AppState, Workspace, WorktreeSpaceMembership};

fn workspace_with_space(name: &str, key: &str) -> Workspace {
    let mut ws = Workspace::new(&format!("ws-{name}"), name);
    ws.worktree_space = Some(WorktreeSpaceMembership {
        key: key.into(),
        label: "herdr".into(),
        repo_root: "/repo/herdr".into(),
        checkout_path: format!("/repo/{name}"),
        is_linked_worktree: name != "main",
    });
    ws
}

fn plain(name: &str) -> Workspace {
    Workspace::new(&format!("ws-{name}"), name)
}

fn state_with(workspaces: Vec<Workspace>) -> AppState {
    let mut state = AppState::new();
    state.workspaces = workspaces;
    state.active = Some(0);
    state
}

fn ws_idx(state: &AppState, name: &str) -> usize {
    state
        .workspaces
        .iter()
        .position(|ws| ws.id == format!("ws-{name}"))
        .unwrap_or_else(|| panic!("workspace {name} not found"))
}

fn names(state: &AppState) -> Vec<String> {
    state
        .workspaces
        .iter()
        .map(|ws| ws.id.trim_start_matches("ws-").to_string())
        .collect()
}

/// Two loose spaces around a folder holding two members: top level ends up
/// as `[a, d, work{b, c}]`, workspace vec `[a, d, b, c]`.
fn state_with_folder() -> (AppState, String) {
    let mut state = state_with(vec![plain("a"), plain("b"), plain("c"), plain("d")]);
    let folder_id = state.create_folder("work").expect("create folder");
    for name in ["b", "c"] {
        state
            .assign_workspace_to_folder(&format!("ws-{name}"), Some(&folder_id), None)
            .expect("assign member");
    }
    (state, folder_id)
}

fn apply(state: &mut AppState, params: &FolderAssignParams) {
    state
        .assign_workspace_to_folder(&params.workspace_id, params.folder_id.as_deref(), params.position)
        .expect("assign");
    assert!(state.space_order_violation().is_none());
}

fn plain_drag_before_a_parentless_linked_family() {
    let mut state = AppState::new();
    state.workspaces = vec![
        workspace_with_space("one", "repo-key"),
        workspace_with_space("two", "repo-key"),
        Workspace::new("ws-normal", "normal"),
    ];

    // "one" and "two" share a worktree family: dropping before either
    // member anchors to the family block, never inside it.
    let params = state
        .workspace_drop_assign_params(2, &WorkspaceDropTarget::Before(1))
        .unwrap();

    assert_eq!(params.workspace_id, state.workspaces[2].id);
    assert_eq!(params.folder_id, None);
    assert_eq!(params.position, Some(0));
}

#[test]
fn folders_plain_drag_before_a_parentless_linked_family_lands_before_the_whole_family() {
    plain_drag_before_a_parentless_linked_family();
}

#[test]
fn sidebar_plain_drag_before_a_parentless_linked_family_lands_before_the_whole_family() {
    plain_drag_before_a_parentless_linked_family();
}

#[test]
fn drop_between_folder_members_joins_the_folder_at_that_position() {
    let (mut state, folder_id) = state_with_folder();
    let target = WorkspaceDropTarget::InFolderBefore {
        folder_id: folder_id.clone(),
        ws_idx: ws_idx(&state, "c"),
    };
    let params = state
        .workspace_drop_assign_params(ws_idx(&state, "a"), &target)
        .expect("a change");
    assert_eq!(params.folder_id.as_deref(), Some(folder_id.as_str()));
    assert_eq!(params.position, Some(1));
    apply(&mut state, &params);
    assert_eq!(
        state.folder(&folder_id).unwrap().members,
        vec!["ws-b".to_string(), "ws-a".to_string(), "ws-c".to_string()]
    );
    assert_eq!(state.workspace_folder_id("ws-a"), Some(folder_id.as_str()));
}

#[test]
fn drop_onto_a_folder_header_appends_to_that_folder() {
    let (mut state, folder_id) = state_with_folder();
    let params = state
        .workspace_drop_assign_params(ws_idx(&state, "d"), &WorkspaceDropTarget::IntoFolder(folder_id.clone()))
        .expect("a change");
    assert_eq!(params.position, None);
    apply(&mut state, &params);
    assert_eq!(
        state.folder(&folder_id).unwrap().members,
        vec!["ws-b".to_string(), "ws-c".to_string(), "ws-d".to_string()]
    );
    assert_eq!(names(&state), vec!["a", "b", "c", "d"]);
}

#[test]
fn drop_of_a_foldered_space_between_top_level_entries_leaves_the_folder() {
    let (mut state, folder_id) = state_with_folder();
    let params = state
        .workspace_drop_assign_params(ws_idx(&state, "b"), &WorkspaceDropTarget::Before(ws_idx(&state, "d")))
        .expect("a change");
    assert_eq!(params.folder_id, None);
    assert_eq!(params.position, Some(1));
    apply(&mut state, &params);
    assert_eq!(state.workspace_folder_id("ws-b"), None);
    assert_eq!(state.folder(&folder_id).unwrap().members, vec!["ws-c".to_string()]);
    assert_eq!(names(&state), vec!["a", "b", "d", "c"]);
}

#[test]
fn drop_before_a_folder_header_lands_at_top_level() {
    let (mut state, folder_id) = state_with_folder();
    let params = state
        .workspace_drop_assign_params(ws_idx(&state, "a"), &WorkspaceDropTarget::BeforeFolder(folder_id.clone()))
        .expect("a change");
    assert_eq!(params.folder_id, None);
    assert_eq!(params.position, Some(1));
    apply(&mut state, &params);
    assert_eq!(state.workspace_folder_id("ws-a"), None);
    assert_eq!(names(&state), vec!["d", "a", "b", "c"]);
}

#[test]
fn drop_back_in_place_changes_nothing() {
    let (state, folder_id) = state_with_folder();
    // "a" is first at top level: dropping it before itself or before "d"
    // (the entry right after it) keeps it where it is.
    assert_eq!(
        state.workspace_drop_assign_params(ws_idx(&state, "a"), &WorkspaceDropTarget::Before(ws_idx(&state, "a"))),
        None
    );
    assert_eq!(
        state.workspace_drop_assign_params(ws_idx(&state, "a"), &WorkspaceDropTarget::Before(ws_idx(&state, "d"))),
        None
    );
    // "c" is already the last member of the folder.
    assert_eq!(
        state.workspace_drop_assign_params(
            ws_idx(&state, "c"),
            &WorkspaceDropTarget::InFolderEnd { folder_id: folder_id.clone() }
        ),
        None
    );
}

#[test]
fn dragging_a_family_member_moves_the_whole_family() {
    let mut state = state_with(vec![
        workspace_with_space("main", "repo-key"),
        plain("normal"),
        workspace_with_space("issue", "repo-key"),
    ]);
    let params = state
        .workspace_drop_assign_params(2, &WorkspaceDropTarget::End)
        .expect("a change");
    apply(&mut state, &params);
    assert_eq!(names(&state), vec!["normal", "main", "issue"]);
}

#[test]
fn folder_drag_repositions_the_folder_at_top_level() {
    let (mut state, folder_id) = state_with_folder();
    let params = state
        .folder_drop_move_params(&folder_id, &WorkspaceDropTarget::Before(ws_idx(&state, "a")))
        .expect("a change");
    assert_eq!(params.position, 0);
    state.move_folder(&params.folder_id, params.position).expect("move");
    assert!(matches!(state.space_order[0], SpaceOrderEntry::Folder(_)));
    assert_eq!(names(&state), vec!["b", "c", "a", "d"]);
}

#[test]
fn folder_drag_never_targets_the_inside_of_a_folder_or_its_own_slot() {
    let (state, folder_id) = state_with_folder();
    let inside = WorkspaceDropTarget::InFolderEnd { folder_id: folder_id.clone() };
    assert_eq!(state.folder_drop_move_params(&folder_id, &inside), None);
    assert_eq!(state.folder_drop_move_params(&folder_id, &WorkspaceDropTarget::IntoFolder(folder_id.clone())), None);
    assert_eq!(state.folder_drop_move_params(&folder_id, &WorkspaceDropTarget::BeforeFolder(folder_id.clone())), None);
    // Already last at top level.
    assert_eq!(state.folder_drop_move_params(&folder_id, &WorkspaceDropTarget::End), None);
    assert_eq!(state.folder_drop_move_params("f-missing", &WorkspaceDropTarget::End), None);
}
