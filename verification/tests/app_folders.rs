use herdr_folders::folder::{Folder, SpaceOrderEntry};
use herdr_folders::state::{
    AppState, FolderMutationError, SpaceOrderViolation, Workspace, WorktreeSpaceMembership,
};

fn test_workspace(name: &str) -> Workspace {
    Workspace::new(&format!("ws-{name}"), name)
}

fn app_with_workspaces(names: &[&str]) -> AppState {
    let mut state = AppState::new();
    for name in names {
        state.workspaces.push(test_workspace(name));
    }
    if !state.workspaces.is_empty() {
        state.active = Some(0);
    }
    state
}

fn assert_invariants_for_test(state: &AppState) {
    match state.space_order_violation() {
        None => {}
        Some(SpaceOrderViolation::UnknownWorkspace(id)) => {
            panic!("space order references unknown workspace {id}")
        }
        Some(SpaceOrderViolation::DuplicateReference(id)) => {
            panic!("workspace {id} appears in the space order more than once")
        }
        Some(SpaceOrderViolation::DuplicateFolderId(id)) => {
            panic!("duplicate folder id {id} in space order")
        }
        Some(SpaceOrderViolation::EmptyFolderName(id)) => panic!("folder {id} has an empty name"),
        Some(SpaceOrderViolation::NotCanonical) => panic!(
            "workspaces vec order {:?} diverged from canonical space order {:?}",
            workspace_id_order(state),
            state.canonical_workspace_order()
        ),
        Some(SpaceOrderViolation::SplitFamily(key)) => {
            panic!("worktree family {key} is split across folders")
        }
    }
}

fn workspace_id(state: &AppState, idx: usize) -> String {
    state.workspaces[idx].id.clone()
}

fn workspace_id_order(state: &AppState) -> Vec<String> {
    state.workspaces.iter().map(|ws| ws.id.clone()).collect()
}

fn mark_family_member(state: &mut AppState, ws_idx: usize, key: &str, is_linked: bool) {
    state.workspaces[ws_idx].worktree_space = Some(WorktreeSpaceMembership {
        key: key.into(),
        label: "repo".into(),
        repo_root: "/repo".into(),
        checkout_path: if is_linked {
            format!("/repo/worktree-{ws_idx}").into()
        } else {
            "/repo".into()
        },
        is_linked_worktree: is_linked,
    });
}

#[test]
fn create_folder_returns_f_prefixed_id_and_appends_to_top_level() {
    let mut state = app_with_workspaces(&["one", "two"]);

    let folder_id = state.create_folder("work").expect("create folder");

    assert!(folder_id.starts_with('f'), "folder id {folder_id}");
    let folder = state.folder(&folder_id).expect("folder exists");
    assert_eq!(folder.name, "work");
    assert!(folder.members.is_empty());
    assert!(
        matches!(
            state.space_order.last(),
            Some(SpaceOrderEntry::Folder(folder)) if folder.id == folder_id
        ),
        "folder must be the last top-level entry: {:?}",
        state.space_order
    );
    assert_eq!(
        state.canonical_workspace_order(),
        workspace_id_order(&state)
    );
    assert_invariants_for_test(&state);
}

#[test]
fn create_folder_rejects_empty_and_whitespace_only_names() {
    let mut state = app_with_workspaces(&["one"]);

    assert_eq!(state.create_folder(""), Err(FolderMutationError::EmptyName));
    assert_eq!(
        state.create_folder("   \t"),
        Err(FolderMutationError::EmptyName)
    );
    assert!(
        state.space_order.is_empty(),
        "rejected names must not mutate"
    );
}

#[test]
fn create_folder_allows_duplicate_names() {
    let mut state = app_with_workspaces(&["one"]);

    let first = state.create_folder("work").expect("first folder");
    let second = state.create_folder("work").expect("second folder");

    assert_ne!(first, second, "duplicate names get distinct ids");
    assert_invariants_for_test(&state);
}

#[test]
fn create_folder_trims_surrounding_whitespace() {
    let mut state = app_with_workspaces(&["one"]);

    let folder_id = state.create_folder("  work  ").expect("create folder");

    assert_eq!(state.folder(&folder_id).expect("folder").name, "work");
}

#[test]
fn rename_folder_updates_label_and_trims() {
    let mut state = app_with_workspaces(&["one"]);
    let folder_id = state.create_folder("work").expect("create folder");

    state
        .rename_folder(&folder_id, "  personal  ")
        .expect("rename folder");

    assert_eq!(state.folder(&folder_id).expect("folder").name, "personal");
    assert_invariants_for_test(&state);
}

#[test]
fn rename_folder_allows_duplicate_names() {
    let mut state = app_with_workspaces(&["one"]);
    let first = state.create_folder("work").expect("first folder");
    let second = state.create_folder("other").expect("second folder");

    state.rename_folder(&second, "work").expect("rename folder");

    assert_eq!(state.folder(&first).expect("folder").name, "work");
    assert_eq!(state.folder(&second).expect("folder").name, "work");
    assert_invariants_for_test(&state);
}

#[test]
fn rename_folder_rejects_empty_names_and_unknown_folders() {
    let mut state = app_with_workspaces(&["one"]);
    let folder_id = state.create_folder("work").expect("create folder");

    assert_eq!(
        state.rename_folder(&folder_id, ""),
        Err(FolderMutationError::EmptyName)
    );
    assert_eq!(
        state.rename_folder(&folder_id, "  \t"),
        Err(FolderMutationError::EmptyName)
    );
    assert_eq!(
        state.rename_folder("f-missing", "personal"),
        Err(FolderMutationError::FolderNotFound)
    );
    assert_eq!(
        state.folder(&folder_id).expect("folder").name,
        "work",
        "rejected renames must not mutate"
    );
    assert_invariants_for_test(&state);
}

#[test]
fn delete_folder_releases_members_at_former_position_in_order() {
    let mut state = app_with_workspaces(&["one", "two", "three", "four"]);
    let w1 = workspace_id(&state, 0);
    let w2 = workspace_id(&state, 1);
    let w3 = workspace_id(&state, 2);
    let w4 = workspace_id(&state, 3);
    let _ = state.install_space_order(vec![
        SpaceOrderEntry::Workspace(w1.clone()),
        SpaceOrderEntry::Folder(Folder {
            id: "f1".into(),
            name: "work".into(),
            members: vec![w2.clone(), w3.clone()],
        }),
        SpaceOrderEntry::Workspace(w4.clone()),
    ]);

    let released = state.delete_folder("f1").expect("delete folder");

    assert_eq!(released, vec![w2.clone(), w3.clone()]);
    assert!(state.folder("f1").is_none(), "folder must be gone");
    assert_eq!(state.workspace_folder_id(&w2), None);
    assert_eq!(state.workspace_folder_id(&w3), None);
    assert_eq!(
        state.space_order,
        vec![
            SpaceOrderEntry::Workspace(w1.clone()),
            SpaceOrderEntry::Workspace(w2.clone()),
            SpaceOrderEntry::Workspace(w3.clone()),
            SpaceOrderEntry::Workspace(w4.clone()),
        ]
    );
    assert_eq!(workspace_id_order(&state), vec![w1, w2, w3, w4]);
    assert_invariants_for_test(&state);
}

#[test]
fn delete_folder_preserves_active_and_selected_by_identity() {
    let mut state = app_with_workspaces(&["one", "two"]);
    let w2 = workspace_id(&state, 1);
    let folder_id = state.create_folder("work").expect("create folder");
    state
        .assign_workspace_to_folder(&w2, Some(&folder_id), None)
        .expect("assign");
    let w2_idx = state
        .workspaces
        .iter()
        .position(|ws| ws.id == w2)
        .expect("workspace present");
    state.active = Some(w2_idx);
    state.selected = w2_idx;

    state.delete_folder(&folder_id).expect("delete folder");

    let new_idx = state
        .workspaces
        .iter()
        .position(|ws| ws.id == w2)
        .expect("workspace still present");
    assert_eq!(state.active, Some(new_idx));
    assert_eq!(state.selected, new_idx);
    assert_invariants_for_test(&state);
}

#[test]
fn delete_empty_folder_works() {
    let mut state = app_with_workspaces(&["one"]);
    let folder_id = state.create_folder("work").expect("create folder");
    let before = workspace_id_order(&state);

    let released = state.delete_folder(&folder_id).expect("delete folder");

    assert!(released.is_empty());
    assert!(state.folder(&folder_id).is_none());
    assert_eq!(workspace_id_order(&state), before);
    assert_invariants_for_test(&state);
}

#[test]
fn delete_folder_rejects_unknown_folder() {
    let mut state = app_with_workspaces(&["one"]);

    assert_eq!(
        state.delete_folder("f-missing"),
        Err(FolderMutationError::FolderNotFound)
    );
}

#[test]
fn assign_moves_loose_space_into_folder_and_resorts_workspaces() {
    let mut state = app_with_workspaces(&["one", "two", "three"]);
    let w1 = workspace_id(&state, 0);
    let w2 = workspace_id(&state, 1);
    let w3 = workspace_id(&state, 2);
    let folder_id = state.create_folder("work").expect("create folder");

    let affected = state
        .assign_workspace_to_folder(&w1, Some(&folder_id), None)
        .expect("assign");

    assert_eq!(affected, vec![w1.clone()]);
    assert_eq!(
        state.folder(&folder_id).expect("folder").members,
        vec![w1.clone()]
    );
    assert_eq!(state.workspace_folder_id(&w1), Some(folder_id.as_str()));
    assert_eq!(workspace_id_order(&state), vec![w2, w3, w1]);
    assert_eq!(
        state.canonical_workspace_order(),
        workspace_id_order(&state)
    );
    assert_invariants_for_test(&state);
}

#[test]
fn assign_preserves_active_and_selected_by_identity() {
    let mut state = app_with_workspaces(&["one", "two", "three"]);
    let w1 = workspace_id(&state, 0);
    state.active = Some(0);
    state.selected = 0;
    let folder_id = state.create_folder("work").expect("create folder");

    state
        .assign_workspace_to_folder(&w1, Some(&folder_id), None)
        .expect("assign");

    let new_idx = state
        .workspaces
        .iter()
        .position(|ws| ws.id == w1)
        .expect("workspace still present");
    assert_eq!(state.active, Some(new_idx));
    assert_eq!(state.selected, new_idx);
    assert_invariants_for_test(&state);
}

#[test]
fn assign_to_none_returns_space_to_top_level_end() {
    let mut state = app_with_workspaces(&["one", "two"]);
    let w1 = workspace_id(&state, 0);
    let w2 = workspace_id(&state, 1);
    let folder_id = state.create_folder("work").expect("create folder");
    state
        .assign_workspace_to_folder(&w1, Some(&folder_id), None)
        .expect("assign in");

    let affected = state
        .assign_workspace_to_folder(&w1, None, None)
        .expect("assign out");

    assert_eq!(affected, vec![w1.clone()]);
    assert_eq!(state.workspace_folder_id(&w1), None);
    assert!(state.folder(&folder_id).expect("folder").members.is_empty());
    assert_eq!(workspace_id_order(&state), vec![w2, w1]);
    assert_eq!(
        state.canonical_workspace_order(),
        workspace_id_order(&state)
    );
    assert_invariants_for_test(&state);
}

#[test]
fn assign_rejects_unknown_workspace_and_folder() {
    let mut state = app_with_workspaces(&["one"]);
    let w1 = workspace_id(&state, 0);

    assert_eq!(
        state.assign_workspace_to_folder("w-missing", None, None),
        Err(FolderMutationError::WorkspaceNotFound)
    );
    assert_eq!(
        state.assign_workspace_to_folder(&w1, Some("f-missing"), None),
        Err(FolderMutationError::FolderNotFound)
    );
}

#[test]
fn assign_moves_whole_worktree_family_and_reports_all_members() {
    let mut state = app_with_workspaces(&["parent", "child", "other"]);
    mark_family_member(&mut state, 0, "repo-key", false);
    mark_family_member(&mut state, 1, "repo-key", true);
    let parent = workspace_id(&state, 0);
    let child = workspace_id(&state, 1);
    let other = workspace_id(&state, 2);
    let folder_id = state.create_folder("work").expect("create folder");

    let affected = state
        .assign_workspace_to_folder(&child, Some(&folder_id), None)
        .expect("assign family member");

    assert_eq!(affected, vec![parent.clone(), child.clone()]);
    assert_eq!(
        state.folder(&folder_id).expect("folder").members,
        vec![parent.clone(), child.clone()]
    );
    assert_eq!(state.workspace_folder_id(&parent), Some(folder_id.as_str()));
    assert_eq!(state.workspace_folder_id(&child), Some(folder_id.as_str()));
    assert_eq!(workspace_id_order(&state), vec![other, parent, child]);
    assert_invariants_for_test(&state);
}

#[test]
fn assign_family_out_of_folder_moves_all_members_to_top_level() {
    let mut state = app_with_workspaces(&["parent", "child", "other"]);
    mark_family_member(&mut state, 0, "repo-key", false);
    mark_family_member(&mut state, 1, "repo-key", true);
    let parent = workspace_id(&state, 0);
    let child = workspace_id(&state, 1);
    let other = workspace_id(&state, 2);
    let folder_id = state.create_folder("work").expect("create folder");
    state
        .assign_workspace_to_folder(&parent, Some(&folder_id), None)
        .expect("assign in");

    let affected = state
        .assign_workspace_to_folder(&parent, None, None)
        .expect("assign out");

    assert_eq!(affected, vec![parent.clone(), child.clone()]);
    assert_eq!(state.workspace_folder_id(&parent), None);
    assert_eq!(state.workspace_folder_id(&child), None);
    assert_eq!(workspace_id_order(&state), vec![other, parent, child]);
    assert_invariants_for_test(&state);
}

#[test]
fn positional_assign_inserts_at_position_inside_folder() {
    let mut state = app_with_workspaces(&["one", "two", "three"]);
    let w1 = workspace_id(&state, 0);
    let w2 = workspace_id(&state, 1);
    let w3 = workspace_id(&state, 2);
    let folder_id = state.create_folder("work").expect("create folder");
    state
        .assign_workspace_to_folder(&w1, Some(&folder_id), None)
        .expect("assign first");
    state
        .assign_workspace_to_folder(&w2, Some(&folder_id), None)
        .expect("assign second");

    let affected = state
        .assign_workspace_to_folder(&w3, Some(&folder_id), Some(1))
        .expect("positional assign");

    assert_eq!(affected, vec![w3.clone()]);
    assert_eq!(
        state.folder(&folder_id).expect("folder").members,
        vec![w1, w3, w2]
    );
    assert_invariants_for_test(&state);
}

#[test]
fn positional_assign_within_same_folder_reorders_members() {
    let mut state = app_with_workspaces(&["one", "two", "three"]);
    let w1 = workspace_id(&state, 0);
    let w2 = workspace_id(&state, 1);
    let w3 = workspace_id(&state, 2);
    let folder_id = state.create_folder("work").expect("create folder");
    for id in [&w1, &w2, &w3] {
        state
            .assign_workspace_to_folder(id, Some(&folder_id), None)
            .expect("assign");
    }

    let affected = state
        .assign_workspace_to_folder(&w3, Some(&folder_id), Some(0))
        .expect("reorder within folder");

    assert_eq!(affected, vec![w3.clone()]);
    assert_eq!(
        state.folder(&folder_id).expect("folder").members,
        vec![w3.clone(), w1, w2]
    );
    assert_eq!(state.workspace_folder_id(&w3), Some(folder_id.as_str()));
    assert_invariants_for_test(&state);
}

#[test]
fn positional_assign_to_top_level_inserts_at_entry_position() {
    let mut state = app_with_workspaces(&["one", "two", "three"]);
    let w1 = workspace_id(&state, 0);
    let w2 = workspace_id(&state, 1);
    let w3 = workspace_id(&state, 2);
    let folder_id = state.create_folder("work").expect("create folder");
    state
        .assign_workspace_to_folder(&w2, Some(&folder_id), None)
        .expect("assign into folder");

    // Top level is now [w1, w3, folder]; pull w2 out to position 1.
    let affected = state
        .assign_workspace_to_folder(&w2, None, Some(1))
        .expect("positional assign out");

    assert_eq!(affected, vec![w2.clone()]);
    assert_eq!(state.workspace_folder_id(&w2), None);
    assert_eq!(
        state.space_order,
        vec![
            SpaceOrderEntry::Workspace(w1.clone()),
            SpaceOrderEntry::Workspace(w2.clone()),
            SpaceOrderEntry::Workspace(w3.clone()),
            SpaceOrderEntry::Folder(Folder {
                id: folder_id,
                name: "work".into(),
                members: Vec::new(),
            }),
        ]
    );
    assert_eq!(workspace_id_order(&state), vec![w1, w2, w3]);
    assert_invariants_for_test(&state);
}

#[test]
fn positional_assign_with_null_folder_reorders_loose_space() {
    let mut state = app_with_workspaces(&["one", "two", "three"]);
    let w1 = workspace_id(&state, 0);
    let w2 = workspace_id(&state, 1);
    let w3 = workspace_id(&state, 2);

    // A loose space with a position is a pure top-level reorder.
    let affected = state
        .assign_workspace_to_folder(&w3, None, Some(0))
        .expect("top-level reorder");

    assert_eq!(affected, vec![w3.clone()]);
    assert_eq!(workspace_id_order(&state), vec![w3, w1, w2]);
    assert_eq!(
        state.canonical_workspace_order(),
        workspace_id_order(&state)
    );
    assert_invariants_for_test(&state);
}

#[test]
fn positional_assign_clamps_out_of_range_positions() {
    let mut state = app_with_workspaces(&["one", "two", "three"]);
    let w1 = workspace_id(&state, 0);
    let w2 = workspace_id(&state, 1);
    let w3 = workspace_id(&state, 2);
    let folder_id = state.create_folder("work").expect("create folder");

    state
        .assign_workspace_to_folder(&w1, Some(&folder_id), Some(99))
        .expect("clamped folder assign");
    assert_eq!(
        state.folder(&folder_id).expect("folder").members,
        vec![w1.clone()]
    );

    state
        .assign_workspace_to_folder(&w2, None, Some(99))
        .expect("clamped top-level assign");
    assert_eq!(workspace_id_order(&state), vec![w3, w1, w2.clone()]);
    assert!(
        matches!(
            state.space_order.last(),
            Some(SpaceOrderEntry::Workspace(id)) if *id == w2
        ),
        "clamped position must land at the end: {:?}",
        state.space_order
    );
    assert_invariants_for_test(&state);
}

#[test]
fn positional_assign_moves_family_as_contiguous_block() {
    let mut state = app_with_workspaces(&["parent", "child", "one", "two"]);
    mark_family_member(&mut state, 0, "repo-key", false);
    mark_family_member(&mut state, 1, "repo-key", true);
    let parent = workspace_id(&state, 0);
    let child = workspace_id(&state, 1);
    let w1 = workspace_id(&state, 2);
    let w2 = workspace_id(&state, 3);
    let folder_id = state.create_folder("work").expect("create folder");
    for id in [&w1, &w2] {
        state
            .assign_workspace_to_folder(id, Some(&folder_id), None)
            .expect("assign filler");
    }

    let affected = state
        .assign_workspace_to_folder(&child, Some(&folder_id), Some(1))
        .expect("positional family assign");

    assert_eq!(affected, vec![parent.clone(), child.clone()]);
    assert_eq!(
        state.folder(&folder_id).expect("folder").members,
        vec![w1.clone(), parent.clone(), child.clone(), w2.clone()]
    );

    // Family positional moves to the top level keep the block contiguous.
    let affected = state
        .assign_workspace_to_folder(&parent, None, Some(0))
        .expect("positional family move out");
    assert_eq!(affected, vec![parent.clone(), child.clone()]);
    assert_eq!(workspace_id_order(&state), vec![parent, child, w1, w2]);
    assert_invariants_for_test(&state);
}

#[test]
fn index_move_that_splits_a_family_coalesces_it_parent_first() {
    let mut state = app_with_workspaces(&["parent", "child", "one", "two"]);
    mark_family_member(&mut state, 0, "repo-key", false);
    mark_family_member(&mut state, 1, "repo-key", true);
    let parent = workspace_id(&state, 0);
    let child = workspace_id(&state, 1);
    let w1 = workspace_id(&state, 2);
    let w2 = workspace_id(&state, 3);
    state.create_folder("work").expect("create folder");

    // Move `one` between the parent and its child: [parent, one, child, two].
    assert!(state.move_workspace(2, 1));
    assert_eq!(
        workspace_id_order(&state),
        vec![parent.clone(), child.clone(), w1.clone(), w2.clone()],
        "the family closes ranks at the parent's position"
    );

    // Move the child ahead of its parent: [child, parent, one, two].
    assert!(state.move_workspace(1, 0));
    assert_eq!(
        workspace_id_order(&state),
        vec![parent.clone(), child.clone(), w1.clone(), w2.clone()],
        "the parent checkout leads its family"
    );

    // A drop before the family lands ahead of the parent, never inside the block.
    state
        .assign_workspace_to_folder(&w2, None, Some(0))
        .expect("assign before the family");
    assert_eq!(workspace_id_order(&state), vec![w2, parent, child, w1]);
    assert_invariants_for_test(&state);
}

#[test]
fn create_folder_resorts_an_interleaved_family_and_keeps_focus_identity() {
    let mut state = app_with_workspaces(&["parent", "other", "child"]);
    mark_family_member(&mut state, 0, "repo-key", false);
    mark_family_member(&mut state, 2, "repo-key", true);
    let parent = workspace_id(&state, 0);
    let other = workspace_id(&state, 1);
    let child = workspace_id(&state, 2);
    state.active = Some(1);
    state.selected = 2;

    let folder_id = state.create_folder("work").expect("create folder");

    assert_eq!(
        workspace_id_order(&state),
        vec![parent.clone(), child.clone(), other.clone()],
        "the vec follows the coalesced canonical order"
    );
    assert_eq!(
        state.space_order,
        vec![
            SpaceOrderEntry::Workspace(parent),
            SpaceOrderEntry::Workspace(child.clone()),
            SpaceOrderEntry::Workspace(other.clone()),
            SpaceOrderEntry::Folder(Folder {
                id: folder_id,
                name: "work".into(),
                members: Vec::new(),
            }),
        ]
    );
    assert_eq!(
        state.active.map(|idx| state.workspaces[idx].id.clone()),
        Some(other),
        "active follows identity, not index"
    );
    assert_eq!(state.workspaces[state.selected].id, child);
    assert_invariants_for_test(&state);
}

#[test]
fn move_folder_noop_still_resorts_an_interleaved_family() {
    let mut state = app_with_workspaces(&["parent", "other", "child"]);
    let folder_id = state.create_folder("work").expect("create folder");
    // Interleave after the folder exists, as an index move that bypassed the rebuild would.
    mark_family_member(&mut state, 0, "repo-key", false);
    mark_family_member(&mut state, 2, "repo-key", true);
    let parent = workspace_id(&state, 0);
    let other = workspace_id(&state, 1);
    let child = workspace_id(&state, 2);

    let (_, moved) = state.move_folder(&folder_id, 3).expect("noop move");

    assert!(!moved);
    assert_eq!(workspace_id_order(&state), vec![parent, child, other]);
    assert_invariants_for_test(&state);
}

#[test]
fn restored_space_order_coalesces_families_inside_folders() {
    let mut state = app_with_workspaces(&["parent", "child", "one"]);
    mark_family_member(&mut state, 0, "repo-key", false);
    mark_family_member(&mut state, 1, "repo-key", true);
    let parent = workspace_id(&state, 0);
    let child = workspace_id(&state, 1);
    let w1 = workspace_id(&state, 2);

    let _ = state.install_space_order(vec![SpaceOrderEntry::Folder(Folder {
        id: "f1".into(),
        name: "work".into(),
        members: vec![child.clone(), w1.clone(), parent.clone()],
    })]);

    assert_eq!(
        state.folder("f1").expect("folder").members,
        vec![parent.clone(), child.clone(), w1.clone()]
    );
    assert_eq!(workspace_id_order(&state), vec![parent, child, w1]);
    assert_invariants_for_test(&state);
}

#[test]
fn move_folder_repositions_folder_in_top_level_order() {
    let mut state = app_with_workspaces(&["one", "two"]);
    let w1 = workspace_id(&state, 0);
    let w2 = workspace_id(&state, 1);
    let folder_id = state.create_folder("work").expect("create folder");
    state
        .assign_workspace_to_folder(&w2, Some(&folder_id), None)
        .expect("assign");

    // Top level is [w1, folder]; move the folder to the front.
    let (position, moved) = state.move_folder(&folder_id, 0).expect("move folder");

    assert_eq!(position, 0);
    assert!(moved);
    assert!(
        matches!(
            state.space_order.first(),
            Some(SpaceOrderEntry::Folder(folder)) if folder.id == folder_id
        ),
        "folder must lead the top level: {:?}",
        state.space_order
    );
    assert_eq!(state.workspace_folder_id(&w2), Some(folder_id.as_str()));
    assert_eq!(workspace_id_order(&state), vec![w2, w1]);
    assert_invariants_for_test(&state);
}

#[test]
fn move_folder_clamps_out_of_range_position() {
    let mut state = app_with_workspaces(&["one", "two"]);
    let folder_id = state.create_folder("work").expect("create folder");
    let (_, _) = state.move_folder(&folder_id, 0).expect("move to front");

    let (position, moved) = state.move_folder(&folder_id, 99).expect("clamped move");

    assert_eq!(position, 2, "clamps to the last top-level index");
    assert!(moved);
    assert!(matches!(
        state.space_order.last(),
        Some(SpaceOrderEntry::Folder(folder)) if folder.id == folder_id
    ));
    assert_invariants_for_test(&state);
}

#[test]
fn move_folder_to_current_position_reports_no_move() {
    let mut state = app_with_workspaces(&["one", "two"]);
    let folder_id = state.create_folder("work").expect("create folder");
    let before = state.space_order.clone();

    let (position, moved) = state.move_folder(&folder_id, 2).expect("noop move");

    assert_eq!(position, 2);
    assert!(!moved);
    assert_eq!(state.space_order, before);
    assert_invariants_for_test(&state);
}

#[test]
fn move_folder_rejects_unknown_folder() {
    let mut state = app_with_workspaces(&["one"]);

    assert_eq!(
        state.move_folder("f-missing", 0),
        Err(FolderMutationError::FolderNotFound)
    );
}

#[test]
fn new_workspace_appears_loose_at_end_of_canonical_order() {
    let mut state = app_with_workspaces(&["one", "two"]);
    let w1 = workspace_id(&state, 0);
    let w2 = workspace_id(&state, 1);
    let folder_id = state.create_folder("work").expect("create folder");
    state
        .assign_workspace_to_folder(&w1, Some(&folder_id), None)
        .expect("assign");

    state.workspaces.push(test_workspace("new"));
    let new_id = state.workspaces.last().expect("new workspace").id.clone();

    assert_eq!(
        state.canonical_workspace_order(),
        vec![w2.clone(), w1.clone(), new_id.clone()]
    );
    state.normalize_space_order();
    assert!(
        matches!(
            state.space_order.last(),
            Some(SpaceOrderEntry::Workspace(id)) if *id == new_id
        ),
        "new space must be loose at the end: {:?}",
        state.space_order
    );
    assert_eq!(state.workspace_folder_id(&new_id), None);
    assert_invariants_for_test(&state);
}

#[test]
#[should_panic(expected = "unknown workspace")]
fn invariants_catch_dangling_space_order_reference() {
    let mut state = app_with_workspaces(&["one"]);
    state
        .space_order
        .push(SpaceOrderEntry::Workspace("w-missing".into()));

    assert_invariants_for_test(&state);
}

#[test]
#[should_panic(expected = "more than once")]
fn invariants_catch_duplicate_space_order_membership() {
    let mut state = app_with_workspaces(&["one"]);
    let w1 = workspace_id(&state, 0);
    state
        .space_order
        .push(SpaceOrderEntry::Workspace(w1.clone()));
    state.space_order.push(SpaceOrderEntry::Folder(Folder {
        id: "f1".into(),
        name: "work".into(),
        members: vec![w1],
    }));

    assert_invariants_for_test(&state);
}

#[test]
#[should_panic(expected = "worktree family")]
fn invariants_catch_split_worktree_family() {
    let mut state = app_with_workspaces(&["parent", "child"]);
    mark_family_member(&mut state, 0, "repo-key", false);
    mark_family_member(&mut state, 1, "repo-key", true);
    let parent = workspace_id(&state, 0);
    let child = workspace_id(&state, 1);
    state.space_order = vec![
        SpaceOrderEntry::Workspace(parent),
        SpaceOrderEntry::Folder(Folder {
            id: "f1".into(),
            name: "work".into(),
            members: vec![child],
        }),
    ];

    assert_invariants_for_test(&state);
}

#[test]
#[should_panic(expected = "canonical")]
fn invariants_catch_workspaces_out_of_canonical_order() {
    let mut state = app_with_workspaces(&["one", "two"]);
    let w1 = workspace_id(&state, 0);
    let w2 = workspace_id(&state, 1);
    state.space_order = vec![
        SpaceOrderEntry::Workspace(w2),
        SpaceOrderEntry::Workspace(w1),
    ];

    assert_invariants_for_test(&state);
}

#[test]
fn closing_selected_workspace_prunes_it_from_space_order() {
    let mut state = app_with_workspaces(&["one", "two"]);
    let w1 = workspace_id(&state, 0);
    let folder_id = state.create_folder("work").expect("create folder");
    state
        .assign_workspace_to_folder(&w1, Some(&folder_id), None)
        .expect("assign");
    state.selected = state
        .workspaces
        .iter()
        .position(|ws| ws.id == w1)
        .expect("workspace present");

    state.close_selected_workspace();

    assert!(
        state
            .folder(&folder_id)
            .expect("folder kept")
            .members
            .is_empty(),
        "closed workspace must leave its folder"
    );
    assert_invariants_for_test(&state);
}

#[test]
fn move_workspace_rebuilds_space_order_and_keeps_membership() {
    let mut state = app_with_workspaces(&["one", "two", "three"]);
    let w1 = workspace_id(&state, 0);
    let w2 = workspace_id(&state, 1);
    let folder_id = state.create_folder("work").expect("create folder");
    state
        .assign_workspace_to_folder(&w2, Some(&folder_id), None)
        .expect("assign");
    // Order is now: one, three, [work: two]
    let from = state
        .workspaces
        .iter()
        .position(|ws| ws.id == w1)
        .expect("workspace present");

    assert!(state.move_workspace(from, state.workspaces.len()));

    assert_eq!(state.workspace_folder_id(&w2), Some(folder_id.as_str()));
    assert_invariants_for_test(&state);
}

#[test]
fn move_workspace_block_rebuilds_space_order_and_keeps_membership() {
    let mut state = app_with_workspaces(&["one", "two", "three"]);
    let w1 = workspace_id(&state, 0);
    let w2 = workspace_id(&state, 1);
    let w3 = workspace_id(&state, 2);
    let folder_id = state.create_folder("work").expect("create folder");
    state
        .assign_workspace_to_folder(&w2, Some(&folder_id), None)
        .expect("assign");
    // Order is now: one, three, [work: two]

    assert!(state.move_workspace_block(std::slice::from_ref(&w3), Some(&w1)));

    assert_eq!(state.workspace_folder_id(&w2), Some(folder_id.as_str()));
    assert_eq!(workspace_id_order(&state), vec![w3, w1, w2]);
    assert_invariants_for_test(&state);
}

#[test]
fn colocating_family_joins_members_into_parents_folder() {
    let mut state = app_with_workspaces(&["parent", "other"]);
    mark_family_member(&mut state, 0, "repo-key", false);
    let parent = workspace_id(&state, 0);
    let folder_id = state.create_folder("work").expect("create folder");
    state
        .assign_workspace_to_folder(&parent, Some(&folder_id), None)
        .expect("assign parent");

    // A new worktree child appears loose, then joins the family.
    state.workspaces.push(test_workspace("child"));
    let child_idx = state.workspaces.len() - 1;
    mark_family_member(&mut state, child_idx, "repo-key", true);
    let child = state.workspaces[child_idx].id.clone();

    state.ensure_worktree_family_colocated("repo-key");

    assert_eq!(state.workspace_folder_id(&child), Some(folder_id.as_str()));
    assert_eq!(state.workspace_folder_id(&parent), Some(folder_id.as_str()));
    assert_invariants_for_test(&state);
}

#[test]
fn colocating_family_with_loose_parent_releases_foldered_child() {
    let mut state = app_with_workspaces(&["parent", "child"]);
    mark_family_member(&mut state, 0, "repo-key", false);
    mark_family_member(&mut state, 1, "repo-key", true);
    let parent = workspace_id(&state, 0);
    let child = workspace_id(&state, 1);
    let folder_id = state.create_folder("work").expect("create folder");
    // Corrupt state: child foldered, parent loose.
    state.space_order = vec![
        SpaceOrderEntry::Workspace(parent.clone()),
        SpaceOrderEntry::Folder(Folder {
            id: folder_id.clone(),
            name: "work".into(),
            members: vec![child.clone()],
        }),
    ];

    state.ensure_worktree_family_colocated("repo-key");

    assert_eq!(state.workspace_folder_id(&parent), None);
    assert_eq!(state.workspace_folder_id(&child), None);
    assert_invariants_for_test(&state);
}

#[test]
fn installing_space_order_reorders_workspaces_and_reserves_folder_ids() {
    let mut state = app_with_workspaces(&["one", "two"]);
    let w1 = workspace_id(&state, 0);
    let w2 = workspace_id(&state, 1);
    let restored_folder = "fZZ".to_string();

    let _ = state.install_space_order(vec![
        SpaceOrderEntry::Folder(Folder {
            id: restored_folder.clone(),
            name: "restored".into(),
            members: vec![w2.clone()],
        }),
        SpaceOrderEntry::Workspace(w1.clone()),
    ]);

    assert_eq!(workspace_id_order(&state), vec![w2.clone(), w1]);
    assert_eq!(
        state.workspace_folder_id(&w2),
        Some(restored_folder.as_str())
    );
    let fresh = state.create_folder("fresh").expect("create folder");
    assert_ne!(
        fresh, restored_folder,
        "restored folder ids must be reserved against reuse"
    );
    assert_invariants_for_test(&state);
}

#[test]
fn installing_space_order_drops_stale_references_and_appends_unlisted() {
    let mut state = app_with_workspaces(&["one", "two"]);
    let w1 = workspace_id(&state, 0);

    let _ = state.install_space_order(vec![
        SpaceOrderEntry::Folder(Folder {
            id: "f1".into(),
            name: "work".into(),
            members: vec![w1.clone(), "w-gone".into()],
        }),
        SpaceOrderEntry::Workspace("w-gone".into()),
    ]);

    assert_eq!(state.folder("f1").expect("folder").members, vec![w1]);
    assert_invariants_for_test(&state);
}

#[test]
fn healing_multiple_split_families_is_deterministic() {
    let build = || {
        let mut state = app_with_workspaces(&["pa", "ca", "pb", "cb"]);
        mark_family_member(&mut state, 0, "repo-a", false);
        mark_family_member(&mut state, 1, "repo-a", true);
        mark_family_member(&mut state, 2, "repo-b", false);
        mark_family_member(&mut state, 3, "repo-b", true);
        let ids: Vec<String> = state.workspaces.iter().map(|ws| ws.id.clone()).collect();
        // Both families split: each parent foldered, each child loose.
        let entries = vec![
            SpaceOrderEntry::Folder(Folder {
                id: "f1".into(),
                name: "alpha".into(),
                members: vec![ids[0].clone()],
            }),
            SpaceOrderEntry::Workspace(ids[1].clone()),
            SpaceOrderEntry::Folder(Folder {
                id: "f2".into(),
                name: "beta".into(),
                members: vec![ids[2].clone()],
            }),
            SpaceOrderEntry::Workspace(ids[3].clone()),
        ];
        let _ = state.install_space_order(entries);
        assert_invariants_for_test(&state);
        let label_of = |id: &String| {
            state
                .workspaces
                .iter()
                .find(|ws| &ws.id == id)
                .map(|ws| ws.custom_name.clone().unwrap_or_default())
                .unwrap_or_default()
        };
        state
            .space_order
            .iter()
            .map(|entry| match entry {
                SpaceOrderEntry::Workspace(id) => format!("loose:{}", label_of(id)),
                SpaceOrderEntry::Folder(folder) => format!(
                    "{}[{}]",
                    folder.id,
                    folder
                        .members
                        .iter()
                        .map(label_of)
                        .collect::<Vec<_>>()
                        .join(",")
                ),
            })
            .collect::<Vec<_>>()
    };

    let first = build();
    let second = build();

    assert_eq!(
        first,
        vec!["f1[pa,ca]".to_string(), "f2[pb,cb]".to_string()],
        "both families heal into their parent's folder"
    );
    assert_eq!(first, second, "healing must be deterministic across runs");
}

#[test]
fn installing_space_order_heals_split_families_into_parents_folder() {
    let mut state = app_with_workspaces(&["parent", "child"]);
    mark_family_member(&mut state, 0, "repo-key", false);
    mark_family_member(&mut state, 1, "repo-key", true);
    let parent = workspace_id(&state, 0);
    let child = workspace_id(&state, 1);

    let _ = state.install_space_order(vec![
        SpaceOrderEntry::Folder(Folder {
            id: "f1".into(),
            name: "work".into(),
            members: vec![parent.clone()],
        }),
        SpaceOrderEntry::Workspace(child.clone()),
    ]);

    assert_eq!(state.workspace_folder_id(&parent), Some("f1"));
    assert_eq!(state.workspace_folder_id(&child), Some("f1"));
    assert_invariants_for_test(&state);
}

#[test]
fn installing_empty_space_order_keeps_prior_workspace_order() {
    let mut state = app_with_workspaces(&["one", "two"]);
    let before = workspace_id_order(&state);

    let _ = state.install_space_order(Vec::new());

    assert_eq!(workspace_id_order(&state), before);
    assert!(state.space_order.is_empty());
    assert_invariants_for_test(&state);
}


#[test]
fn whats_new_remains_in_menu_for_latest_installed_release_notes() {
    let mut state = AppState::new();
    state.latest_release_notes_available = true;

    assert_eq!(
        state.global_menu_labels(),
        vec!["settings", "keybinds", "reload config", "what's new", "detach"]
    );
}

#[test]
fn a_pending_update_takes_the_release_notes_slot() {
    let mut state = AppState::new();
    state.latest_release_notes_available = true;
    state.update_available = Some("1.2.3".into());
    assert_eq!(state.global_menu_labels(), vec!["settings", "keybinds", "reload config", "update ready", "detach"]);
    state.update_available = None;
    state.latest_release_notes_available = false;
    assert_eq!(state.global_menu_labels(), vec!["settings", "keybinds", "reload config", "detach"]);
}

#[test]
fn folder_view_ranks_group_families_at_their_first_member_parent_first() {
    let mut state = app_with_workspaces(&["a", "child1", "b", "parent", "child2", "c"]);
    mark_family_member(&mut state, 1, "repo", true);
    mark_family_member(&mut state, 3, "repo", false);
    mark_family_member(&mut state, 4, "repo", true);
    // The family sits at its first member's place, parent first, children in order.
    assert_eq!(state.folder_view_workspace_ranks(), vec![0, 2, 4, 1, 3, 5]);
}

#[test]
fn folder_view_ranks_leave_ungrouped_families_in_place() {
    let mut state = app_with_workspaces(&["a", "lone", "b", "linked1", "linked2"]);
    // A single member is no group.
    mark_family_member(&mut state, 1, "solo", false);
    // Linked worktrees without their parent checkout are no group either.
    mark_family_member(&mut state, 3, "orphans", true);
    mark_family_member(&mut state, 4, "orphans", true);
    assert_eq!(state.folder_view_workspace_ranks(), vec![0, 1, 2, 3, 4]);
    assert!(AppState::new().folder_view_workspace_ranks().is_empty());
}

#[test]
fn restored_folders_with_blank_names_get_a_name() {
    let mut state = app_with_workspaces(&["one", "two"]);
    let one = workspace_id(&state, 0);
    let _ = state.install_space_order(vec![
        SpaceOrderEntry::Folder(Folder { id: "f1".into(), name: "   ".into(), members: vec![one.clone()] }),
        SpaceOrderEntry::Folder(Folder { id: "f2".into(), name: "kept".into(), members: Vec::new() }),
    ]);
    let folder = state.folder("f1").expect("restored folder");
    assert_eq!(folder.name, "Folder");
    assert_eq!(folder.members, vec![one]);
    assert_eq!(state.folder("f2").expect("second folder").name, "kept");
    assert_invariants_for_test(&state);
}

#[test]
fn installing_a_damaged_order_establishes_every_invariant() {
    let mut state = app_with_workspaces(&["parent", "child", "solo", "other"]);
    mark_family_member(&mut state, 0, "repo-key", false);
    mark_family_member(&mut state, 1, "repo-key", true);
    let parent = workspace_id(&state, 0);
    let child = workspace_id(&state, 1);
    let solo = workspace_id(&state, 2);

    let _ = state.install_space_order(vec![
        SpaceOrderEntry::Workspace(child.clone()),
        SpaceOrderEntry::Folder(Folder {
            id: "f3".into(),
            name: "   ".into(),
            members: vec![parent.clone(), "ws-gone".into(), solo.clone()],
        }),
        SpaceOrderEntry::Folder(Folder {
            id: "f3".into(),
            name: "again".into(),
            members: vec![solo.clone()],
        }),
        SpaceOrderEntry::Workspace(solo.clone()),
    ]);

    assert_invariants_for_test(&state);
    assert_eq!(state.workspace_folder_id(&parent), state.workspace_folder_id(&child));
    assert_eq!(state.workspace_folder_id(&solo), Some("f3"));
}

#[test]
fn every_folder_operation_keeps_the_invariants() {
    let mut state = app_with_workspaces(&["parent", "child", "solo"]);
    mark_family_member(&mut state, 0, "repo-key", false);
    mark_family_member(&mut state, 1, "repo-key", true);
    let child = workspace_id(&state, 1);
    let solo = workspace_id(&state, 2);

    let first = state.create_folder("first").expect("create");
    assert_invariants_for_test(&state);
    let second = state.create_folder("second").expect("create");
    assert_invariants_for_test(&state);
    state.assign_workspace_to_folder(&child, Some(&first), None).expect("assign family");
    assert_invariants_for_test(&state);
    state.assign_workspace_to_folder(&solo, Some(&second), Some(0)).expect("assign solo");
    assert_invariants_for_test(&state);
    state.move_folder(&second, 0).expect("move");
    assert_invariants_for_test(&state);
    state.ensure_worktree_family_colocated("repo-key");
    assert_invariants_for_test(&state);
    state.delete_folder(&first).expect("delete");
    assert_invariants_for_test(&state);
    assert_eq!(state.workspace_folder_id(&child), None);
    assert_eq!(state.workspace_folder_id(&solo), Some(second.as_str()));
}

#[test]
fn folder_operations_fail_only_on_missing_folders() {
    let mut state = app_with_workspaces(&["one"]);
    let one = workspace_id(&state, 0);
    let folder = state.create_folder("work").expect("create");

    assert_eq!(state.move_folder("f999", 0), Err(FolderMutationError::FolderNotFound));
    assert_eq!(
        state.assign_workspace_to_folder(&one, Some("f999"), None),
        Err(FolderMutationError::FolderNotFound)
    );
    assert_eq!(
        state.assign_workspace_to_folder("ws-missing", Some(&folder), None),
        Err(FolderMutationError::WorkspaceNotFound)
    );
    assert!(state.delete_folder("f999").is_err());
    assert!(state.move_folder(&folder, 0).is_ok());
    assert!(state.assign_workspace_to_folder(&one, Some(&folder), None).is_ok());
    assert!(state.delete_folder(&folder).is_ok());
    assert_invariants_for_test(&state);
}

#[test]
fn folder_view_ranks_are_a_permutation_of_the_workspaces() {
    let mut state = app_with_workspaces(&["a", "child", "b", "parent", "c"]);
    mark_family_member(&mut state, 1, "repo-key", true);
    mark_family_member(&mut state, 3, "repo-key", false);

    let mut ranks = state.folder_view_workspace_ranks();
    assert_eq!(ranks.len(), 5);
    ranks.sort();
    assert_eq!(ranks, vec![0, 1, 2, 3, 4]);
}
