use herdr_folders::agent_view::{
    agent_folder_view_active, agent_folder_view_layout, agent_folder_view_rows, AgentPanelRow, RowPlacement,
};
use herdr_folders::shell::{
    expanded_workspace_ranks, sidebar_entries, SidebarEntry, Rect,
    ClientShellAgent, ClientShellFolder, ClientShellInput, ClientShellSnapshot, ClientShellSpaceOrderEntry,
    ClientShellState, ClientShellWorkspace, ClientShellWorktree, CollapsePreferences, WorkspaceEntry,
};

fn workspace(id: &str, label: &str, folder_id: Option<&str>) -> ClientShellWorkspace {
    ClientShellWorkspace {
        workspace_id: id.into(),
        label: label.into(),
        custom_label: false,
        branch: None,
        worktree: None,
        focused: false,
        folder_id: folder_id.map(str::to_owned),
    }
}

/// Spaces `a`, `[work: b, c]`, `d`, with `a` focused.
fn foldered_snapshot() -> ClientShellSnapshot {
    let mut snapshot = ClientShellSnapshot {
        workspaces: vec![
            workspace("ws_a", "alpha", None),
            workspace("ws_b", "bravo", Some("f_1")),
            workspace("ws_c", "charlie", Some("f_1")),
            workspace("ws_d", "delta", None),
        ],
        folders: vec![ClientShellFolder {
            folder_id: "f_1".into(),
            name: "work".into(),
            members: vec!["ws_b".into(), "ws_c".into()],
        }],
        space_order: vec![
            ClientShellSpaceOrderEntry::Workspace("ws_a".into()),
            ClientShellSpaceOrderEntry::Folder("f_1".into()),
            ClientShellSpaceOrderEntry::Workspace("ws_d".into()),
        ],
        focused_workspace_id: Some("ws_a".into()),
        agents: Vec::new(),
        agent_view_label: None,
    };
    snapshot.workspaces[0].focused = true;
    snapshot
}

fn agent(pane_id: &str, workspace_id: &str) -> ClientShellAgent {
    ClientShellAgent { pane_id: pane_id.into(), workspace_id: workspace_id.into() }
}

fn state_with(snapshot: ClientShellSnapshot) -> ClientShellState {
    let mut state = ClientShellState::new(CollapsePreferences {
        folder_collapse: Vec::new(),
        collapsed_folders: Vec::new(),
        collapsed_agent_spaces: Vec::new(),
    });
    state.snapshot = Some(snapshot);
    state
}

/// The rows of the active endpoint's folder view for `panes`.
fn rows_of(state: &ClientShellState, panes: &[&str]) -> Vec<AgentPanelRow> {
    let panes: Vec<String> = panes.iter().map(|pane| pane.to_string()).collect();
    let collapse = state.folder_collapse();
    agent_folder_view_rows(
        state.snapshot.as_ref().expect("snapshot"),
        &panes,
        &collapse.folders,
        &collapse.agent_spaces,
        Vec::new(),
    )
}

/// Space headers that take clicks: all but the thin ones.
fn space_headers(rows: &[AgentPanelRow]) -> Vec<String> {
    rows.iter()
        .filter_map(|row| match row {
            AgentPanelRow::SpaceHeader { workspace_id, thin: false, .. } => Some(workspace_id.clone()),
            _ => None,
        })
        .collect()
}

fn agent_count(rows: &[AgentPanelRow]) -> usize {
    rows.iter().filter(|row| matches!(row, AgentPanelRow::Agent { .. })).count()
}

#[test]
fn collapsing_a_family_parent_in_the_agents_panel_hides_its_worktree_children() {
    let mut snapshot = foldered_snapshot();
    snapshot.workspaces[1].worktree = Some(ClientShellWorktree {
        key: "repo".into(),
        label: "repo".into(),
        is_linked_worktree: false,
    });
    snapshot.workspaces[2].worktree = Some(ClientShellWorktree {
        key: "repo".into(),
        label: "repo".into(),
        is_linked_worktree: true,
    });
    snapshot.workspaces[2].focused = true;
    snapshot.workspaces[0].focused = false;
    snapshot.focused_workspace_id = Some("ws_c".into());
    for workspace_id in ["ws_b", "ws_c"] {
        snapshot.agents.push(agent(&format!("pane_{workspace_id}"), workspace_id));
    }
    let mut state = state_with(snapshot);
    let panes = ["pane_ws_b", "pane_ws_c"];
    let rows = rows_of(&state, &panes);
    assert_eq!(space_headers(&rows), ["ws_b", "ws_c"]);
    assert_eq!(agent_count(&rows), 2);

    let mut outcome = ClientShellInput::new();
    state.toggle_agent_space_collapse("ws_b", &mut outcome);
    let rows = rows_of(&state, &panes);
    assert_eq!(space_headers(&rows), ["ws_b"], "the child header is hidden with its parent");
    assert_eq!(agent_count(&rows), 0);
    let parent = rows
        .iter()
        .find_map(|row| match row {
            AgentPanelRow::SpaceHeader { label, collapsed, indicates_active, .. } => {
                Some((label.clone(), *collapsed, *indicates_active))
            }
            _ => None,
        })
        .expect("parent header");
    assert_eq!(parent.0, "bravo");
    assert!(parent.1, "the parent header shows collapsed");
    assert!(parent.2, "the parent header indicates the hidden focused child");

    state.toggle_agent_space_collapse("ws_b", &mut outcome);
    let rows = rows_of(&state, &panes);
    assert_eq!(space_headers(&rows), ["ws_b", "ws_c"]);
    assert_eq!(agent_count(&rows), 2);
}

#[test]
fn folder_view_places_agents_under_their_spaces_and_hides_empty_ones() {
    let mut snapshot = foldered_snapshot();
    snapshot.agents = vec![agent("p1", "ws_c"), agent("p2", "ws_d"), agent("p3", "ws_c")];
    let state = state_with(snapshot);
    let rows = rows_of(&state, &["p2", "p1", "p3", "p_gone"]);
    assert_eq!(
        rows,
        vec![
            AgentPanelRow::FolderHeader {
                folder_id: "f_1".into(),
                name: "work".into(),
                collapsed: false,
                indicates_active: false,
            },
            AgentPanelRow::SpaceHeader {
                workspace_id: "ws_c".into(),
                label: "charlie".into(),
                indented: false,
                last_child: false,
                foldered: true,
                thin: false,
                collapsed: false,
                indicates_active: false,
            },
            AgentPanelRow::Agent { agent_index: Some(1), indent: 4 },
            AgentPanelRow::Agent { agent_index: Some(2), indent: 4 },
            AgentPanelRow::SpaceHeader {
                workspace_id: "ws_d".into(),
                label: "delta".into(),
                indented: false,
                last_child: false,
                foldered: false,
                thin: false,
                collapsed: false,
                indicates_active: false,
            },
            AgentPanelRow::Agent { agent_index: Some(0), indent: 2 },
        ]
    );
}

#[test]
fn collapsed_folder_shows_its_header_when_a_member_has_agents() {
    let mut snapshot = foldered_snapshot();
    snapshot.agents = vec![agent("p1", "ws_b")];
    snapshot.focused_workspace_id = Some("ws_b".into());
    let mut state = state_with(snapshot);
    let mut outcome = ClientShellInput::new();
    state.toggle_folder_collapse("f_1", &mut outcome);
    let rows = rows_of(&state, &["p1"]);
    assert_eq!(
        rows,
        vec![AgentPanelRow::FolderHeader {
            folder_id: "f_1".into(),
            name: "work".into(),
            collapsed: true,
            indicates_active: true,
        }]
    );
    // Without agents among its members the collapsed folder disappears.
    let rows = rows_of(&state, &[]);
    assert!(rows.is_empty());
}

#[test]
fn thin_parent_keeps_its_worktree_child_in_place_with_its_branch_label() {
    let mut snapshot = foldered_snapshot();
    snapshot.workspaces[0].worktree = Some(ClientShellWorktree {
        key: "repo".into(),
        label: "repo".into(),
        is_linked_worktree: false,
    });
    snapshot.workspaces[3].worktree = Some(ClientShellWorktree {
        key: "repo".into(),
        label: "repo".into(),
        is_linked_worktree: true,
    });
    snapshot.workspaces[3].branch = Some("worktree/feature".into());
    snapshot.agents = vec![agent("p1", "ws_d")];
    let state = state_with(snapshot);
    let rows = rows_of(&state, &["p1"]);
    assert_eq!(
        rows,
        vec![
            AgentPanelRow::SpaceHeader {
                workspace_id: "ws_a".into(),
                label: "alpha".into(),
                indented: false,
                last_child: false,
                foldered: false,
                thin: true,
                collapsed: false,
                indicates_active: false,
            },
            AgentPanelRow::SpaceHeader {
                workspace_id: "ws_d".into(),
                label: "feature".into(),
                indented: true,
                last_child: true,
                foldered: false,
                thin: false,
                collapsed: false,
                indicates_active: false,
            },
            AgentPanelRow::Agent { agent_index: Some(0), indent: 8 },
        ]
    );
}

#[test]
fn agent_view_label_turns_the_folder_view_off() {
    let mut snapshot = foldered_snapshot();
    assert!(agent_folder_view_active(&snapshot, true));
    assert!(!agent_folder_view_active(&snapshot, false));
    snapshot.agent_view_label = Some("working".into());
    assert!(!agent_folder_view_active(&snapshot, true));
}

#[test]
fn flat_listing_stands_in_without_folders() {
    let mut snapshot = foldered_snapshot();
    snapshot.folders.clear();
    snapshot.agents = vec![agent("p1", "ws_b")];
    let flat = vec![
        WorkspaceEntry { index: 1, indented: false, last_child: false },
        WorkspaceEntry { index: 0, indented: false, last_child: false },
    ];
    let rows = agent_folder_view_rows(&snapshot, &vec!["p1".to_string()], &Vec::new(), &Vec::new(), flat);
    assert_eq!(space_headers(&rows), ["ws_b"]);
    assert_eq!(agent_count(&rows), 1);
}

#[test]
fn agents_panel_folder_view_nests_headers_and_collapses_agent_lists() {
    let mut snapshot = foldered_snapshot();
    for workspace_id in ["ws_a", "ws_b", "ws_d"] {
        snapshot.agents.push(agent(&format!("pane_{workspace_id}"), workspace_id));
    }
    let mut state = state_with(snapshot);
    let panes = ["pane_ws_a", "pane_ws_b", "pane_ws_d"];
    let rows = rows_of(&state, &panes);
    assert!(rows.iter().any(|row| matches!(
        row,
        AgentPanelRow::FolderHeader { folder_id, name, collapsed: false, .. } if folder_id == "f_1" && name == "work"
    )));
    assert_eq!(space_headers(&rows), ["ws_a", "ws_b", "ws_d"]);
    assert_eq!(agent_count(&rows), 3);

    let mut outcome = ClientShellInput::new();
    state.toggle_agent_space_collapse("ws_b", &mut outcome);
    assert!(state.folder_collapse().agent_spaces.contains(&"ws_b".to_string()));
    let rows = rows_of(&state, &panes);
    assert_eq!(agent_count(&rows), 2);
    assert_eq!(expanded_workspace_ranks(state.snapshot.as_ref().expect("snapshot"), Vec::new()).len(), 4);

    state.toggle_folder_collapse("f_1", &mut outcome);
    assert!(state.collapsed_folders().contains(&"f_1".to_string()));
    let rows = rows_of(&state, &panes);
    assert!(!space_headers(&rows).iter().any(|id| id == "ws_b"));
    let snapshot = state.snapshot.as_ref().expect("snapshot");
    let entries = sidebar_entries(snapshot, &Vec::new(), &state.collapsed_folders(), false, Vec::new());
    assert!(!entries.iter().any(|entry| matches!(
        entry,
        SidebarEntry::Workspace { entry, .. } if snapshot.workspaces[entry.index].workspace_id == "ws_b"
    )));
}

#[test]
fn folder_view_layout_stacks_rows_down_the_body_until_it_is_full() {
    let mut snapshot = foldered_snapshot();
    snapshot.agents = vec![agent("p1", "ws_c"), agent("p2", "ws_d"), agent("p3", "ws_c")];
    let state = state_with(snapshot);
    let rows = rows_of(&state, &["p2", "p1", "p3"]);
    assert_eq!(rows.len(), 6);
    let lines = vec![2, 1, 3];
    let body = Rect { x: 0, y: 3, width: 20, height: 8 };
    let placed = agent_folder_view_layout(&rows, &lines, body, 1, 0, true);
    let at = |row: usize, y: u16, height: u16| RowPlacement { row, rect: Rect { x: 0, y, width: 19, height } };
    assert_eq!(placed, vec![at(0, 3, 1), at(1, 4, 1), at(2, 5, 1), at(3, 7, 3)]);

    // Scrolled to the second space, the rest fits; the last row has no gap after it.
    let placed = agent_folder_view_layout(&rows, &lines, body, 1, 4, false);
    let full = |row: usize, y: u16, height: u16| RowPlacement { row, rect: Rect { x: 0, y, width: 20, height } };
    assert_eq!(placed, vec![full(4, 3, 1), full(5, 4, 2)]);

    // A tall agent row is cut to the body's height; an empty body shows nothing.
    let short = Rect { x: 0, y: 3, width: 20, height: 2 };
    assert_eq!(agent_folder_view_layout(&rows, &lines, short, 1, 3, false), vec![RowPlacement {
        row: 3,
        rect: Rect { x: 0, y: 3, width: 20, height: 2 },
    }]);
    assert!(agent_folder_view_layout(&rows, &lines, Rect { x: 0, y: 3, width: 0, height: 8 }, 1, 0, false).is_empty());
}
