use herdr_folders::schema::Method;
use herdr_folders::shell::{
    place_folder_header, FolderHeaderLook, HeaderBackground, HeaderNameStyle,
    expanded_workspace_ranks,
    folder_hidden_gap_position, folder_move_targets, settle_slot_rows, sidebar_entries, visible_workspace_entries,
    SidebarEntry, WorkspaceEntry, CollapsePreferences, truncate_end, folder_menu_items, space_menu_folder_items,
    ClientContextMenuAction, ClientContextMenuTarget, ClientRenameTarget, ClientShellInput, ClientShellOverlay,
    MENU_ITEM_MOVE_TO_FOLDER, MENU_ITEM_NEW_FOLDER, MENU_ITEM_REMOVE_FROM_FOLDER, FolderHit, Rect, ShellHitMap,
    WorkspaceHit, FolderCollapsePreferences, FolderCollapseState, ClientShellFolder, ClientShellSnapshot, ClientShellSpaceOrderEntry, ClientShellState,
    ClientShellWorkspace, ClientShellWorktree, SpaceDragSource, SpaceDropSlot, SpaceDropTarget,
};

fn workspace(id: &str, label: &str, folder_id: Option<&str>) -> ClientShellWorkspace {
    ClientShellWorkspace {
        workspace_id: id.into(),
        label: label.into(),
        custom_label: false,
        branch: None,
        worktree: None,
        focused: false,
        folder_id: folder_id.map(str::to_owned),
    }
}

/// Spaces `a`, `[work: b, c]`, `d`, with `a` focused.
fn foldered_snapshot() -> ClientShellSnapshot {
    let mut snapshot = ClientShellSnapshot {
        workspaces: vec![
            workspace("ws_a", "alpha", None),
            workspace("ws_b", "bravo", Some("f_1")),
            workspace("ws_c", "charlie", Some("f_1")),
            workspace("ws_d", "delta", None),
        ],
        folders: vec![ClientShellFolder {
            folder_id: "f_1".into(),
            name: "work".into(),
            members: vec!["ws_b".into(), "ws_c".into()],
        }],
        space_order: vec![
            ClientShellSpaceOrderEntry::Workspace("ws_a".into()),
            ClientShellSpaceOrderEntry::Folder("f_1".into()),
            ClientShellSpaceOrderEntry::Workspace("ws_d".into()),
        ],
        focused_workspace_id: Some("ws_a".into()),
        agents: Vec::new(),
        agent_view_label: None,
    };
    snapshot.workspaces[0].focused = true;
    snapshot
}

fn empty_preferences() -> CollapsePreferences {
    CollapsePreferences { folder_collapse: Vec::new(), collapsed_folders: Vec::new(), collapsed_agent_spaces: Vec::new() }
}

fn state_with(snapshot: ClientShellSnapshot) -> ClientShellState {
    let mut state = ClientShellState::new(empty_preferences());
    state.snapshot = Some(snapshot);
    state
}

#[test]
fn drop_slot_rows_settle_without_collisions_and_keep_end_reachable() {
    let in_folder_end = || SpaceDropTarget::InFolderEnd {
        folder_id: "f_1".into(),
    };
    let rows = |slots: &[SpaceDropSlot]| {
        slots
            .iter()
            .map(|slot| (slot.target.clone(), slot.row))
            .collect::<Vec<_>>()
    };

    // Two slots want the boundary row; the top-level one moves down.
    let settled = settle_slot_rows(
        vec![(in_folder_end(), 5), (SpaceDropTarget::Before("ws_d".into()), 5), (SpaceDropTarget::End, 6)],
        20,
    );
    assert_eq!(
        rows(&settled),
        [
            (in_folder_end(), Some(5)),
            (SpaceDropTarget::Before("ws_d".into()), Some(6)),
            (SpaceDropTarget::End, Some(7)),
        ]
    );

    // One free row below the last folder: the end-of-folder slot yields to `End`.
    let settled = settle_slot_rows(
        vec![(SpaceDropTarget::BeforeFolder("f_1".into()), 1), (in_folder_end(), 5), (SpaceDropTarget::End, 5)],
        6,
    );
    assert_eq!(
        rows(&settled),
        [(SpaceDropTarget::BeforeFolder("f_1".into()), Some(1)), (SpaceDropTarget::End, Some(5)),]
    );

    // Slots past the limit are dropped.
    let settled = settle_slot_rows(vec![(SpaceDropTarget::Before("ws_a".into()), 3), (SpaceDropTarget::End, 4)], 4);
    assert_eq!(rows(&settled), [(SpaceDropTarget::Before("ws_a".into()), Some(3))]);

    // `End` naturally sits on the limit row; earlier end-of-folder slots survive.
    let in_folder_end_2 = || SpaceDropTarget::InFolderEnd {
        folder_id: "f_2".into(),
    };
    let settled = settle_slot_rows(
        vec![
            (SpaceDropTarget::BeforeFolder("f_1".into()), 1),
            (in_folder_end(), 4),
            (SpaceDropTarget::BeforeFolder("f_2".into()), 5),
            (in_folder_end_2(), 9),
            (SpaceDropTarget::Before("ws_z".into()), 9),
            (SpaceDropTarget::End, 12),
        ],
        12,
    );
    assert_eq!(
        rows(&settled),
        [
            (SpaceDropTarget::BeforeFolder("f_1".into()), Some(1)),
            (in_folder_end(), Some(4)),
            (SpaceDropTarget::BeforeFolder("f_2".into()), Some(5)),
            (in_folder_end_2(), Some(9)),
            (SpaceDropTarget::Before("ws_z".into()), Some(10)),
        ]
    );

    // Only the end-of-folder slot in the colliding run is sacrificed.
    let settled = settle_slot_rows(
        vec![
            (in_folder_end(), 2),
            (SpaceDropTarget::Before("ws_m".into()), 4),
            (in_folder_end_2(), 8),
            (SpaceDropTarget::Before("ws_z".into()), 8),
            (SpaceDropTarget::End, 9),
        ],
        10,
    );
    assert_eq!(
        rows(&settled),
        [
            (in_folder_end(), Some(2)),
            (SpaceDropTarget::Before("ws_m".into()), Some(4)),
            (SpaceDropTarget::Before("ws_z".into()), Some(8)),
            (SpaceDropTarget::End, Some(9)),
        ]
    );
}

#[test]
fn folder_dragged_to_the_end_moves_after_the_last_top_level_entry() {
    let state = state_with(foldered_snapshot());
    assert!(matches!(
        state.space_drop_method(
            &SpaceDragSource::Folder("f_1".into()),
            &SpaceDropTarget::End,
        ),
        Some(Method::FolderMove(params))
            if params.folder_id == "f_1" && params.position == 2
    ));

    let mut snapshot = foldered_snapshot();
    snapshot.space_order = vec![
        ClientShellSpaceOrderEntry::Workspace("ws_a".into()),
        ClientShellSpaceOrderEntry::Workspace("ws_d".into()),
        ClientShellSpaceOrderEntry::Folder("f_1".into()),
    ];
    let state = state_with(snapshot);
    assert!(state
        .space_drop_method(
            &SpaceDragSource::Folder("f_1".into()),
            &SpaceDropTarget::End,
        )
        .is_none());
}

#[test]
fn in_folder_and_top_level_drops_compute_container_positions() {
    let state = state_with(foldered_snapshot());
    let assign = |target| state.space_drop_method(&SpaceDragSource::Workspace("ws_a".into()), &target);
    assert!(matches!(
        assign(SpaceDropTarget::InFolderBefore {
            folder_id: "f_1".into(),
            workspace_id: "ws_c".into(),
        }),
        Some(Method::FolderAssign(params))
            if params.folder_id.as_deref() == Some("f_1") && params.position == Some(1)
    ));
    assert!(matches!(
        assign(SpaceDropTarget::End),
        Some(Method::FolderAssign(params))
            if params.folder_id.is_none() && params.position.is_none()
    ));
    assert!(matches!(
        assign(SpaceDropTarget::Before("ws_d".into())),
        Some(Method::FolderAssign(params))
            if params.folder_id.is_none() && params.position == Some(1)
    ));
    assert!(assign(SpaceDropTarget::BeforeFolder("f_1".into())).is_none());
    assert!(state
        .space_drop_method(
            &SpaceDragSource::Workspace("ws_b".into()),
            &SpaceDropTarget::IntoFolder("f_1".into()),
        )
        .is_some());
    assert!(state
        .space_drop_method(
            &SpaceDragSource::Workspace("ws_c".into()),
            &SpaceDropTarget::IntoFolder("f_1".into()),
        )
        .is_none());
    assert!(state
        .space_drop_method(
            &SpaceDragSource::Folder("f_1".into()),
            &SpaceDropTarget::InFolderEnd {
                folder_id: "f_1".into()
            },
        )
        .is_none());
}

#[test]
fn linked_worktrees_cannot_be_dragged_alone_and_families_move_together() {
    let mut snapshot = foldered_snapshot();
    snapshot.workspaces[0].worktree = Some(ClientShellWorktree {
        key: "repo".into(),
        label: "repo".into(),
        is_linked_worktree: false,
    });
    snapshot.workspaces[3].worktree = Some(ClientShellWorktree {
        key: "repo".into(),
        label: "repo".into(),
        is_linked_worktree: true,
    });
    let state = state_with(snapshot);
    assert!(state
        .space_drop_method(&SpaceDragSource::Workspace("ws_d".into()), &SpaceDropTarget::End)
        .is_none());
    // Dropping the parent before its own linked child is a no-op.
    assert!(state
        .space_drop_method(&SpaceDragSource::Workspace("ws_a".into()), &SpaceDropTarget::Before("ws_d".into()))
        .is_none());
    // The family leaves the top level: the remaining entry is the folder only.
    assert!(matches!(
        state.space_drop_method(&SpaceDragSource::Workspace("ws_a".into()), &SpaceDropTarget::End),
        Some(Method::FolderAssign(params)) if params.workspace_id == "ws_a" && params.position.is_none()
    ));
    // Moving into the folder before its second member lands at index 1.
    assert!(matches!(
        state.space_drop_method(
            &SpaceDragSource::Workspace("ws_a".into()),
            &SpaceDropTarget::InFolderBefore { folder_id: "f_1".into(), workspace_id: "ws_c".into() },
        ),
        Some(Method::FolderAssign(params)) if params.position == Some(1)
    ));
}

#[test]
fn drops_without_a_snapshot_or_onto_unknown_targets_do_nothing() {
    let state = ClientShellState::new(empty_preferences());
    assert!(state
        .space_drop_method(&SpaceDragSource::Folder("f_1".into()), &SpaceDropTarget::End)
        .is_none());
    let state = state_with(foldered_snapshot());
    assert!(state
        .space_drop_method(&SpaceDragSource::Workspace("ws_x".into()), &SpaceDropTarget::End)
        .is_none());
    assert!(state
        .space_drop_method(&SpaceDragSource::Workspace("ws_a".into()), &SpaceDropTarget::IntoFolder("f_9".into()))
        .is_none());
    assert!(state
        .space_drop_method(&SpaceDragSource::Folder("f_1".into()), &SpaceDropTarget::Before("ws_gone".into()))
        .is_none());
    // Moving the folder before the first entry puts it first.
    assert!(matches!(
        state.space_drop_method(&SpaceDragSource::Folder("f_1".into()), &SpaceDropTarget::Before("ws_a".into())),
        Some(Method::FolderMove(params)) if params.position == 0
    ));
}

fn entry_ids(snapshot: &ClientShellSnapshot, entries: &[SidebarEntry]) -> Vec<String> {
    entries
        .iter()
        .map(|entry| match entry {
            SidebarEntry::Folder { folder_index } => {
                format!("folder:{}", snapshot.folders[*folder_index].folder_id)
            }
            SidebarEntry::Workspace { entry, foldered } => format!(
                "{}{}",
                if *foldered { "  " } else { "" },
                snapshot.workspaces[entry.index].workspace_id
            ),
        })
        .collect()
}

#[test]
fn sidebar_entries_nest_folder_members_under_their_header() {
    let snapshot = foldered_snapshot();
    let entries = sidebar_entries(&snapshot, &Vec::new(), &Vec::new(), false, Vec::new());
    assert_eq!(
        entry_ids(&snapshot, &entries),
        ["ws_a", "folder:f_1", "  ws_b", "  ws_c", "ws_d"]
    );
}

#[test]
fn collapsed_folder_hides_its_members_from_the_panel() {
    let snapshot = foldered_snapshot();
    let collapsed = vec!["f_1".to_string()];
    let entries = sidebar_entries(&snapshot, &Vec::new(), &collapsed, false, Vec::new());
    assert_eq!(entry_ids(&snapshot, &entries), ["ws_a", "folder:f_1", "ws_d"]);
    // Forcing the panel open shows them again.
    let entries = sidebar_entries(&snapshot, &Vec::new(), &collapsed, true, Vec::new());
    assert_eq!(entry_ids(&snapshot, &entries), ["ws_a", "folder:f_1", "  ws_b", "  ws_c", "ws_d"]);
    // The hidden members sit behind the one visible space above the header.
    assert_eq!(folder_hidden_gap_position(&snapshot, &Vec::new(), &collapsed, "ws_c", Vec::new()), Some(1));
    assert_eq!(folder_hidden_gap_position(&snapshot, &Vec::new(), &collapsed, "ws_a", Vec::new()), None);
    let visible: Vec<usize> = visible_workspace_entries(&snapshot, &Vec::new(), &collapsed, Vec::new())
        .iter()
        .map(|entry| entry.index)
        .collect();
    assert_eq!(visible, [0, 3]);
}

#[test]
fn families_are_hoisted_at_their_parent_and_collapse_to_the_focused_child() {
    let mut snapshot = foldered_snapshot();
    snapshot.folders.clear();
    snapshot.space_order.clear();
    // Folders are needed for the folder-aware projection; keep an empty one.
    snapshot.folders.push(ClientShellFolder { folder_id: "f_9".into(), name: "empty".into(), members: vec![] });
    for (index, linked) in [(1usize, true), (3usize, false), (2usize, true)] {
        snapshot.workspaces[index].worktree = Some(ClientShellWorktree {
            key: "repo".into(),
            label: "repo".into(),
            is_linked_worktree: linked,
        });
    }
    snapshot.workspaces[2].focused = true;
    let entries = sidebar_entries(&snapshot, &Vec::new(), &Vec::new(), false, Vec::new());
    // Unlisted workspaces come in vec order; the family appears at its first
    // member with the parent ("ws_d") first.
    assert_eq!(entry_ids(&snapshot, &entries), ["ws_a", "ws_d", "ws_b", "ws_c"]);
    assert!(matches!(entries[3], SidebarEntry::Workspace { entry: WorkspaceEntry { indented: true, last_child: true, .. }, .. }));
    let collapsed_groups = vec!["repo".to_string()];
    let entries = sidebar_entries(&snapshot, &collapsed_groups, &Vec::new(), false, Vec::new());
    assert_eq!(entry_ids(&snapshot, &entries), ["ws_a", "ws_d", "ws_c"]);
}

#[test]
fn without_folders_the_panel_shows_the_flat_listing() {
    let mut snapshot = foldered_snapshot();
    snapshot.folders.clear();
    let flat = vec![WorkspaceEntry { index: 2, indented: false, last_child: false }];
    let entries = sidebar_entries(&snapshot, &Vec::new(), &Vec::new(), false, flat);
    assert_eq!(entry_ids(&snapshot, &entries), ["ws_c"]);
}

#[test]
fn move_targets_list_other_folders_in_space_order() {
    let mut snapshot = foldered_snapshot();
    snapshot.folders.push(ClientShellFolder { folder_id: "f_2".into(), name: "play".into(), members: vec![] });
    snapshot.space_order.insert(0, ClientShellSpaceOrderEntry::Folder("f_2".into()));
    assert_eq!(
        folder_move_targets(&snapshot, "ws_a"),
        vec![("f_2".to_string(), "play".to_string()), ("f_1".to_string(), "work".to_string())]
    );
    assert_eq!(folder_move_targets(&snapshot, "ws_b"), vec![("f_2".to_string(), "play".to_string())]);
}

#[test]
fn legacy_flat_collapse_preferences_load_as_the_local_endpoints() {
    let mut preferences = empty_preferences();
    preferences.collapsed_folders = vec!["f_1".into()];
    preferences.collapsed_agent_spaces = vec!["ws_b".into()];
    let state = ClientShellState::new(preferences);

    assert!(state.collapsed_folders().contains(&"f_1".to_string()));
    assert!(state.folder_collapse().agent_spaces.contains(&"ws_b".to_string()));
    assert_eq!(state.folder_collapse.len(), 1);
    assert!(state.folder_collapse.iter().any(|(key, _)| key == "local"));
}

#[test]
fn stored_collapse_state_merges_legacy_lists_and_drops_empty_endpoints() {
    let per_endpoint = vec![
        (
            "local".to_string(),
            FolderCollapsePreferences { collapsed_folders: vec!["f_1".into(), "f_1".into()], collapsed_agent_spaces: vec![] },
        ),
        ("ssh:idle".to_string(), FolderCollapsePreferences { collapsed_folders: vec![], collapsed_agent_spaces: vec![] }),
        (
            "ssh:build".to_string(),
            FolderCollapsePreferences { collapsed_folders: vec![], collapsed_agent_spaces: vec!["ws_x".into()] },
        ),
    ];
    let map = FolderCollapseState::from_preferences(per_endpoint, vec!["f_2".into(), "f_1".into()], vec![]);
    assert_eq!(
        map,
        vec![
            ("local".to_string(), FolderCollapseState { folders: vec!["f_1".into(), "f_2".into()], agent_spaces: vec![] }),
            ("ssh:build".to_string(), FolderCollapseState { folders: vec![], agent_spaces: vec!["ws_x".into()] }),
        ]
    );
}

#[test]
fn truncation_keeps_the_prefix_that_fits() {
    assert_eq!(truncate_end("workspace", 4), "work");
    assert_eq!(truncate_end("work", 10), "work");
    assert_eq!(truncate_end("漢字漢字", 5), "漢字");
    assert_eq!(truncate_end("a\tb", 2), "a\tb");
    assert_eq!(truncate_end("abc", 0), "");
}

#[test]
fn collapse_toggles_and_pruning_follow_the_snapshot() {
    let mut state = state_with(foldered_snapshot());
    let mut outcome = ClientShellInput::new();
    state.toggle_folder_collapse("f_1", &mut outcome);
    state.toggle_agent_space_collapse("ws_b", &mut outcome);
    assert!(outcome.repaint);
    assert_eq!(state.collapsed_folders(), vec!["f_1".to_string()]);
    assert_eq!(state.folder_collapse().agent_spaces, vec!["ws_b".to_string()]);
    state.toggle_folder_collapse("f_gone", &mut outcome);
    assert_eq!(state.collapsed_folders(), vec!["f_1".to_string(), "f_gone".to_string()]);
    assert!(state.prune_folder_collapse_state());
    assert_eq!(state.collapsed_folders(), vec!["f_1".to_string()]);
    assert!(!state.prune_folder_collapse_state());
    state.toggle_folder_collapse("f_1", &mut outcome);
    state.toggle_agent_space_collapse("ws_b", &mut outcome);
    assert!(state.collapsed_folders().is_empty());
    // An entry with nothing left is dropped by pruning.
    assert_eq!(state.folder_collapse.len(), 1);
    assert!(!state.prune_folder_collapse_state());
    assert!(state.folder_collapse.is_empty());
}

#[test]
fn navigation_steps_over_a_collapsed_folder() {
    let mut state = state_with(foldered_snapshot());
    let mut outcome = ClientShellInput::new();
    state.toggle_folder_collapse("f_1", &mut outcome);
    let snapshot = foldered_snapshot();
    let collapsed = state.collapsed_folders();
    let entries = visible_workspace_entries(&snapshot, &Vec::new(), &collapsed, Vec::new());
    assert_eq!(state.navigation_anchor(&snapshot, &entries, Some("ws_d"), 1), 1);
    // "ws_b" is hidden behind the header after one visible space.
    assert_eq!(state.navigation_anchor(&snapshot, &entries, Some("ws_b"), 1), 0);
    assert_eq!(state.navigation_anchor(&snapshot, &entries, Some("ws_b"), -1), 1);
    assert_eq!(state.navigation_anchor(&snapshot, &entries, None, 1), 0);
    state.mobile_layout = true;
    assert_eq!(state.navigation_anchor(&snapshot, &entries, Some("ws_b"), -1), 0);
}

#[test]
fn folder_menus_and_actions_request_the_api() {
    let labels = |target: &ClientContextMenuTarget| -> Vec<String> {
        folder_menu_items(target).expect("folder menu").iter().map(|item| item.label.clone()).collect()
    };
    assert_eq!(labels(&ClientContextMenuTarget::Folder { folder_id: "f_1".into() }), ["Rename", "Delete"]);
    assert_eq!(labels(&ClientContextMenuTarget::SpacesPanel), [MENU_ITEM_NEW_FOLDER]);
    assert!(folder_menu_items(&ClientContextMenuTarget::Other).is_none());
    let items: Vec<String> = space_menu_folder_items(true).iter().map(|item| item.label.clone()).collect();
    assert_eq!(items, [MENU_ITEM_MOVE_TO_FOLDER, MENU_ITEM_REMOVE_FROM_FOLDER]);

    let mut state = state_with(foldered_snapshot());
    let mut outcome = ClientShellInput::new();
    assert!(state.activate_folder_context_action(
        &ClientContextMenuTarget::Workspace { workspace_id: "ws_a".into() },
        ClientContextMenuAction::MoveToFolderMenu,
        4,
        4,
        &mut outcome,
    ));
    let submenu = match state.overlay.clone() {
        Some(ClientShellOverlay::ContextMenu { target, .. }) => target,
        other => panic!("move-to-folder submenu, got {other:?}"),
    };
    assert_eq!(labels(&submenu), ["work", MENU_ITEM_NEW_FOLDER]);
    assert!(state.activate_folder_context_action(&submenu, ClientContextMenuAction::MoveToFolder(0), 4, 4, &mut outcome));
    assert!(matches!(
        outcome.actions.as_slice(),
        [Method::FolderAssign(params)] if params.workspace_id == "ws_a" && params.folder_id.as_deref() == Some("f_1")
    ));
    assert!(state.activate_folder_context_action(&submenu, ClientContextMenuAction::NewFolder, 4, 4, &mut outcome));
    assert!(matches!(
        &state.overlay,
        Some(ClientShellOverlay::Rename { title: "new folder", target: ClientRenameTarget::NewFolder { move_workspace_id: Some(w) }, .. })
            if w == "ws_a"
    ));
    let follow_up = state.complete_folder_create(Some("ws_a".into()), Some("f_2"));
    assert!(matches!(
        follow_up.as_slice(),
        [Method::FolderAssign(params)] if params.folder_id.as_deref() == Some("f_2")
    ));
    assert!(state.complete_folder_create(None, Some("f_2")).is_empty());
    assert!(!state.activate_folder_context_action(&ClientContextMenuTarget::SpacesPanel, ClientContextMenuAction::Rename, 0, 0, &mut outcome));
    state.open_rename_folder_overlay("f_1".into());
    assert!(matches!(&state.overlay, Some(ClientShellOverlay::Rename { title: "rename folder", input, .. }) if input == "work"));
}

fn card(id: &str, y: u16, foldered: bool, endpoint: &str) -> WorkspaceHit {
    WorkspaceHit {
        rect: Rect { x: 0, y, width: 30, height: 1 },
        endpoint_id: endpoint.into(),
        workspace_id: id.into(),
        indented: false,
        foldered,
    }
}

/// The foldered snapshot drawn with single-row cards and no row gap:
/// `ws_a` on row 2, the `work` header on row 3, its members on rows 4 and
/// 5, and `ws_d` on row 6.
fn drawn_state() -> ClientShellState {
    let mut state = state_with(foldered_snapshot());
    state.hits = ShellHitMap {
        workspace_body: Rect { x: 0, y: 2, width: 30, height: 20 },
        new_workspace: Rect { x: 0, y: 22, width: 30, height: 1 },
        workspaces: vec![
            card("ws_a", 2, false, "local"),
            card("ws_b", 4, true, "local"),
            card("ws_c", 5, true, "local"),
            card("ws_d", 6, false, "local"),
        ],
        folder_headers: vec![FolderHit {
            rect: Rect { x: 0, y: 3, width: 30, height: 1 },
            endpoint_id: "local".into(),
            folder_id: "f_1".into(),
        }],
    };
    state
}

#[test]
fn every_drop_slot_is_reachable_with_single_row_cards_and_no_row_gap() {
    let state = drawn_state();
    let body = state.hits.workspace_body;
    let source = SpaceDragSource::Workspace("ws_a".into());
    let mut reached = Vec::new();
    for row in body.y.saturating_sub(1)..body.bottom() {
        if let Some(slot) = state.space_drop_slot_at((body.x + 3, row), &source) {
            if reached.last() != Some(&slot.target) {
                reached.push(slot.target);
            }
        }
    }
    assert_eq!(
        reached,
        [
            SpaceDropTarget::Before("ws_a".into()),
            SpaceDropTarget::BeforeFolder("f_1".into()),
            SpaceDropTarget::IntoFolder("f_1".into()),
            SpaceDropTarget::InFolderBefore { folder_id: "f_1".into(), workspace_id: "ws_b".into() },
            SpaceDropTarget::InFolderBefore { folder_id: "f_1".into(), workspace_id: "ws_c".into() },
            SpaceDropTarget::InFolderEnd { folder_id: "f_1".into() },
            SpaceDropTarget::Before("ws_d".into()),
            SpaceDropTarget::End,
        ]
    );
}

#[test]
fn folder_drags_see_only_top_level_slots_and_foreign_rows_block() {
    let mut state = drawn_state();
    let source = SpaceDragSource::Folder("f_1".into());
    // On the member rows the nearest top-level slot wins.
    let slot = state.space_drop_slot_at((3, 4), &source).expect("slot");
    assert!(slot.target.is_top_level());
    // Outside the panel nothing is reachable.
    assert_eq!(state.space_drop_slot_at((3, 0), &source), None);
    assert_eq!(state.space_drop_slot_at((3, 22), &source), None);
    // A card another endpoint drew blocks the drop.
    state.hits.workspaces.push(card("ws_x", 10, false, "ssh:build"));
    assert_eq!(state.space_drop_slot_at((3, 10), &source), None);
    state.snapshot = None;
    assert_eq!(state.space_drop_slot_at((3, 4), &source), None);
}

#[test]
fn collapsed_folder_hides_every_member_and_navigation_skips_them() {
    let snapshot = foldered_snapshot();
    let collapsed = vec!["f_1".to_string()];
    let entries = sidebar_entries(&snapshot, &Vec::new(), &collapsed, false, Vec::new());
    assert_eq!(entry_ids(&snapshot, &entries), ["ws_a", "folder:f_1", "ws_d"]);

    let mut state = state_with(snapshot.clone());
    let mut outcome = ClientShellInput::new();
    state.toggle_folder_collapse("f_1", &mut outcome);
    let visible = visible_workspace_entries(&snapshot, &Vec::new(), &state.collapsed_folders(), Vec::new());
    let step = |from: &str, delta: isize| {
        let anchor = state.navigation_anchor(&snapshot, &visible, Some(from), delta);
        let target = visible[(anchor + delta) as usize];
        snapshot.workspaces[target.index].workspace_id.clone()
    };
    // Down from a hidden member lands on the space below the folder.
    assert_eq!(step("ws_b", 1), "ws_d");
    // Up from a hidden member lands on the space above the folder.
    assert_eq!(step("ws_c", -1), "ws_a");
}

#[test]
fn folder_header_hits_and_background_follow_the_drawn_layout() {
    let mut state = drawn_state();
    assert!(state.folder_drag_active());
    assert_eq!(state.folder_header_hit_at((3, 3)).map(|hit| hit.folder_id.clone()), Some("f_1".to_string()));
    assert_eq!(state.folder_header_at((3, 3)), Some("f_1".to_string()));
    assert_eq!(state.folder_header_at((3, 4)), None);
    assert_eq!(state.folder_header_at((40, 3)), None);
    // The title row above the body and empty rows below the cards are background.
    assert!(state.spaces_panel_background_at((2, 1), 1));
    assert!(!state.spaces_panel_background_at((2, 0), 1));
    assert!(state.spaces_panel_background_at((2, 0), 2));
    assert!(state.spaces_panel_background_at((2, 10), 1));
    // Cards and headers are not.
    assert!(!state.spaces_panel_background_at((2, 2), 1));
    assert!(!state.spaces_panel_background_at((2, 3), 1));
    // Another endpoint's header is no folder of the active one, and is background.
    state.hits.folder_headers[0].endpoint_id = "ssh:build".into();
    assert_eq!(state.folder_header_hit_at((3, 3)).map(|hit| hit.folder_id.clone()), Some("f_1".to_string()));
    assert_eq!(state.folder_header_at((3, 3)), None);
    assert!(state.spaces_panel_background_at((2, 3), 1));
    // An empty body has no background.
    state.hits.workspace_body.height = 0;
    assert!(!state.spaces_panel_background_at((2, 1), 1));
    state.snapshot = None;
    assert!(!state.folder_drag_active());
}

#[test]
fn expanded_ranks_follow_the_panel_order_with_folders_open() {
    let snapshot = foldered_snapshot();
    let ranks = expanded_workspace_ranks(&snapshot, Vec::new());
    assert_eq!(
        ranks,
        vec![("ws_a".to_string(), 0), ("ws_b".to_string(), 1), ("ws_c".to_string(), 2), ("ws_d".to_string(), 3)]
    );
    let mut flat_only = foldered_snapshot();
    flat_only.folders.clear();
    let flat = vec![
        WorkspaceEntry { index: 3, indented: false, last_child: false },
        WorkspaceEntry { index: 9, indented: false, last_child: false },
        WorkspaceEntry { index: 0, indented: false, last_child: false },
    ];
    assert_eq!(
        expanded_workspace_ranks(&flat_only, flat),
        vec![("ws_d".to_string(), 0), ("ws_a".to_string(), 2)]
    );
}

#[test]
fn collapse_state_of_an_endpoint_is_empty_until_something_collapses() {
    let mut state = state_with(foldered_snapshot());
    let empty = FolderCollapseState::of(&state.folder_collapse, "local");
    assert!(empty.folders.is_empty() && empty.agent_spaces.is_empty());
    let mut outcome = ClientShellInput::new();
    state.toggle_folder_collapse("f_1", &mut outcome);
    assert_eq!(FolderCollapseState::of(&state.folder_collapse, "local").folders, vec!["f_1".to_string()]);
    assert!(FolderCollapseState::of(&state.folder_collapse, "ssh:build").folders.is_empty());
}

#[test]
fn collapse_state_round_trips_through_client_preferences_and_prunes_dangling_ids() {
    let mut state = state_with(foldered_snapshot());
    let mut outcome = ClientShellInput::new();
    state.toggle_folder_collapse("f_1", &mut outcome);
    state.toggle_agent_space_collapse("ws_b", &mut outcome);

    let stored = FolderCollapseState::to_preferences(&state.folder_collapse);
    let local = &stored.iter().find(|(key, _)| key == "local").expect("local endpoint entry").1;
    assert_eq!(local.collapsed_folders, ["f_1"]);
    assert_eq!(local.collapsed_agent_spaces, ["ws_b"]);

    // The legacy flat fields are no longer written.
    let preferences = CollapsePreferences {
        folder_collapse: stored,
        collapsed_folders: Vec::new(),
        collapsed_agent_spaces: Vec::new(),
    };
    let mut restored = ClientShellState::new(preferences);
    assert!(restored.collapsed_folders().contains(&"f_1".to_string()));
    assert!(restored.folder_collapse().agent_spaces.contains(&"ws_b".to_string()));

    let mut other = foldered_snapshot();
    other.folders.clear();
    other.space_order.clear();
    other.workspaces.retain(|workspace| workspace.workspace_id == "ws_a");
    restored.snapshot = Some(other);
    assert!(restored.prune_folder_collapse_state());
    assert!(restored.collapsed_folders().is_empty());
    assert!(restored.folder_collapse().agent_spaces.is_empty());
}

#[test]
fn stored_collapse_state_is_sorted_and_skips_empty_endpoints() {
    let state = |folders: &[&str], agent_spaces: &[&str]| FolderCollapseState {
        folders: folders.iter().map(|id| id.to_string()).collect(),
        agent_spaces: agent_spaces.iter().map(|id| id.to_string()).collect(),
    };
    let map = vec![
        ("ssh:zeta".to_string(), state(&["f_9", "f_10", "f_2"], &[])),
        ("local".to_string(), state(&["f_b", "f_a"], &["ws_b", "ws_a", "ws_b"])),
        ("ssh:empty".to_string(), state(&[], &[])),
        ("ssh:alpha".to_string(), state(&[], &["ws_é", "ws_e"])),
    ];
    let stored = FolderCollapseState::to_preferences(&map);
    let keys: Vec<&str> = stored.iter().map(|(key, _)| key.as_str()).collect();
    assert_eq!(keys, ["local", "ssh:alpha", "ssh:zeta"]);
    assert_eq!(stored[0].1.collapsed_folders, ["f_a", "f_b"]);
    assert_eq!(stored[0].1.collapsed_agent_spaces, ["ws_a", "ws_b"]);
    assert_eq!(stored[1].1.collapsed_agent_spaces, ["ws_e", "ws_é"]);
    assert_eq!(stored[2].1.collapsed_folders, ["f_10", "f_2", "f_9"]);
    assert!(stored[2].1.collapsed_agent_spaces.is_empty());
    // The order is that of `str`.
    let mut sorted = stored[2].1.collapsed_folders.clone();
    sorted.sort();
    assert_eq!(sorted, stored[2].1.collapsed_folders);
    assert!(FolderCollapseState::to_preferences(&Vec::new()).is_empty());
}

#[test]
fn space_context_menu_moves_between_folders_and_creates_new_ones() {
    let mut state = state_with(foldered_snapshot());

    // A loose space can move into a folder but not out of one.
    let loose_items = space_menu_folder_items(false);
    assert_eq!(loose_items[0].label, MENU_ITEM_MOVE_TO_FOLDER);
    assert!(!loose_items.iter().any(|item| item.action == ClientContextMenuAction::RemoveFromFolder));

    let foldered_items = space_menu_folder_items(true);
    let remove = foldered_items
        .iter()
        .position(|item| item.action == ClientContextMenuAction::RemoveFromFolder)
        .expect("remove from folder item");
    let mut outcome = ClientShellInput::new();
    assert!(state.activate_folder_context_action(
        &ClientContextMenuTarget::Workspace { workspace_id: "ws_b".into() },
        foldered_items[remove].action.clone(),
        4,
        4,
        &mut outcome,
    ));
    assert!(matches!(
        outcome.actions.as_slice(),
        [Method::FolderAssign(params)]
            if params.workspace_id == "ws_b" && params.folder_id.is_none() && params.position.is_none()
    ));

    let mut outcome = ClientShellInput::new();
    assert!(state.activate_folder_context_action(
        &ClientContextMenuTarget::Workspace { workspace_id: "ws_a".into() },
        loose_items[0].action.clone(),
        4,
        4,
        &mut outcome,
    ));
    let submenu = match state.overlay.clone() {
        Some(ClientShellOverlay::ContextMenu { target, .. }) => target,
        other => panic!("move-to-folder submenu, got {other:?}"),
    };
    let labels: Vec<String> = folder_menu_items(&submenu)
        .expect("submenu items")
        .iter()
        .map(|item| item.label.clone())
        .collect();
    assert_eq!(labels, ["work", MENU_ITEM_NEW_FOLDER]);
    let mut outcome = ClientShellInput::new();
    assert!(state.activate_folder_context_action(&submenu, ClientContextMenuAction::MoveToFolder(0), 4, 4, &mut outcome));
    assert!(matches!(
        outcome.actions.as_slice(),
        [Method::FolderAssign(params)]
            if params.workspace_id == "ws_a" && params.folder_id.as_deref() == Some("f_1")
    ));

    state.open_move_to_folder_menu("ws_a".into(), 4, 4);
    let submenu = match state.overlay.clone() {
        Some(ClientShellOverlay::ContextMenu { target, .. }) => target,
        other => panic!("move-to-folder submenu, got {other:?}"),
    };
    let items = folder_menu_items(&submenu).expect("submenu items");
    let mut outcome = ClientShellInput::new();
    assert!(state.activate_folder_context_action(&submenu, items[1].action.clone(), 4, 4, &mut outcome));
    assert!(matches!(
        &state.overlay,
        Some(ClientShellOverlay::Rename {
            title: "new folder",
            target: ClientRenameTarget::NewFolder { move_workspace_id: Some(workspace_id) },
            ..
        }) if workspace_id == "ws_a"
    ));
    // Saving the name creates the folder; once created, the space follows it in.
    let follow_up = state.complete_folder_create(Some("ws_a".into()), Some("f_2"));
    assert!(matches!(
        follow_up.as_slice(),
        [Method::FolderAssign(params)]
            if params.workspace_id == "ws_a" && params.folder_id.as_deref() == Some("f_2")
    ));
}

#[test]
fn folder_header_look_follows_collapse_selection_and_drag_state() {
    let snapshot = foldered_snapshot();
    let folder = snapshot.folders[0].clone();
    let mut hits = drawn_state().hits;
    let rect = Rect { x: 0, y: 3, width: 8, height: 1 };
    let before = hits.folder_headers.len();

    // Expanded, nothing going on: muted name cut to the row, open chevron.
    let look = place_folder_header(&snapshot, &folder, &Vec::new(), None, None, None, rect, "local", &mut hits);
    assert_eq!(
        look,
        Some(FolderHeaderLook {
            background: HeaderBackground::Plain,
            name_style: HeaderNameStyle::Muted,
            name: "work".into(),
            chevron: Some(false),
        })
    );
    assert_eq!(hits.folder_headers.len(), before + 1);
    assert_eq!(hits.folder_headers[before].folder_id, "f_1");

    // Collapsed over the selected member, while dragging into it.
    let collapsed = vec!["f_1".to_string()];
    let narrow = Rect { x: 0, y: 3, width: 5, height: 1 };
    let look = place_folder_header(&snapshot, &folder, &collapsed, None, Some("f_1"), Some("ws_c"), narrow, "local", &mut hits)
        .expect("look");
    assert_eq!(look.background, HeaderBackground::Selected);
    assert_eq!(look.name_style, HeaderNameStyle::DropTarget);
    assert_eq!(look.name, "wo");
    assert_eq!(look.chevron, Some(true));

    // The dragged folder; a focused hidden member only marks a collapsed folder.
    let look = place_folder_header(&snapshot, &folder, &Vec::new(), Some("f_1"), None, None, rect, "local", &mut hits)
        .expect("look");
    assert_eq!((look.background, look.name_style), (HeaderBackground::Dragged, HeaderNameStyle::Strong));
    let mut focused = foldered_snapshot();
    focused.focused_workspace_id = Some("ws_b".into());
    let look = place_folder_header(&focused, &folder, &collapsed, None, None, None, Rect { x: 0, y: 3, width: 1, height: 1 }, "local", &mut hits)
        .expect("look");
    assert_eq!((look.background, look.name_style), (HeaderBackground::Active, HeaderNameStyle::Strong));
    assert_eq!(look.chevron, None);
    assert_eq!(look.name, "");

    // An empty row shows nothing and records no hit.
    let count = hits.folder_headers.len();
    let empty = Rect { x: 0, y: 3, width: 0, height: 1 };
    assert!(place_folder_header(&snapshot, &folder, &collapsed, None, None, None, empty, "local", &mut hits).is_none());
    assert_eq!(hits.folder_headers.len(), count);
}
