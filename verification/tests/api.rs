use herdr_folders::api::{ApiError, ApiOutcome, App, EventData, ResponseResult};
use herdr_folders::schema::{
    FolderAssignParams, FolderCreateParams, FolderInfo, FolderMoveParams, FolderRenameParams, FolderTarget,
    SpaceOrderEntryInfo, SpaceOrderEntryKind,
};
use herdr_folders::state::{AppState, SpaceOrderViolation, Workspace, WorktreeSpaceMembership};

/// The folder API with the events it has emitted so far.
struct TestApp {
    app: App,
    events: Vec<EventData>,
}

fn test_app(names: &[&str]) -> TestApp {
    let mut state = AppState::new();
    state.workspaces = names.iter().map(|name| Workspace::new(&format!("ws-{name}"), name)).collect();
    if !state.workspaces.is_empty() {
        state.active = Some(0);
        state.selected = 0;
    }
    TestApp { app: App { state }, events: Vec::new() }
}

impl TestApp {
    fn record(&mut self, outcome: ApiOutcome) -> Result<ResponseResult, ApiError> {
        if let Some(event) = outcome.event {
            self.events.push(event);
        }
        outcome.response
    }

    fn create(&mut self, params: FolderCreateParams) -> Result<ResponseResult, ApiError> {
        let outcome = self.app.handle_folder_create(params);
        self.record(outcome)
    }

    fn rename(&mut self, params: FolderRenameParams) -> Result<ResponseResult, ApiError> {
        let outcome = self.app.handle_folder_rename(params);
        self.record(outcome)
    }

    fn delete(&mut self, target: FolderTarget) -> Result<ResponseResult, ApiError> {
        let outcome = self.app.handle_folder_delete(target);
        self.record(outcome)
    }

    fn assign(&mut self, params: FolderAssignParams) -> Result<ResponseResult, ApiError> {
        let resolved = self.app.state.workspaces.iter().position(|ws| ws.id == params.workspace_id);
        let outcome = self.app.handle_folder_assign(params, resolved);
        self.record(outcome)
    }

    fn move_folder(&mut self, params: FolderMoveParams) -> Result<ResponseResult, ApiError> {
        let outcome = self.app.handle_folder_move(params);
        self.record(outcome)
    }

    fn list(&mut self) -> (Vec<FolderInfo>, Vec<SpaceOrderEntryInfo>) {
        match self.app.handle_folder_list().response {
            Ok(ResponseResult::FolderList { folders, order }) => (folders, order),
            other => panic!("expected folder_list, got {other:?}"),
        }
    }
}

fn created_folder_id(response: Result<ResponseResult, ApiError>) -> String {
    match response {
        Ok(ResponseResult::FolderCreated { folder_id }) => folder_id,
        other => panic!("expected folder_created, got {other:?}"),
    }
}

fn error_code(response: Result<ResponseResult, ApiError>) -> &'static str {
    match response {
        Err(error) => error.code,
        Ok(other) => panic!("error response expected, got {other:?}"),
    }
}

fn success(response: Result<ResponseResult, ApiError>) -> ResponseResult {
    response.expect("success response")
}

fn assert_invariants(state: &AppState) {
    let violation: Option<SpaceOrderViolation> = state.space_order_violation();
    assert_eq!(violation, None, "space order invariants");
}

#[test]
fn folder_create_rejects_whitespace_only_name() {
    let mut app = test_app(&["one"]);
    let response = app.create(FolderCreateParams { name: "   ".into() });
    assert_eq!(error_code(response), "invalid_folder_name");
}

#[test]
fn folder_assign_moves_family_and_reports_all_affected_spaces() {
    let mut app = test_app(&["parent", "child", "other"]);
    for (ws_idx, is_linked) in [(0usize, false), (1usize, true)] {
        app.app.state.workspaces[ws_idx].worktree_space = Some(WorktreeSpaceMembership {
            key: "repo-key".into(),
            label: "herdr".into(),
            repo_root: "/repo/herdr".into(),
            checkout_path: if is_linked { "/repo/herdr-issue".into() } else { "/repo/herdr".into() },
            is_linked_worktree: is_linked,
        });
    }
    let parent = app.app.state.workspaces[0].id.clone();
    let child = app.app.state.workspaces[1].id.clone();

    let folder_id = created_folder_id(app.create(FolderCreateParams { name: "work".into() }));
    let response = app.assign(FolderAssignParams {
        workspace_id: child.clone(),
        folder_id: Some(folder_id.clone()),
        position: None,
    });

    assert_eq!(
        success(response),
        ResponseResult::FolderAssigned {
            folder_id: Some(folder_id.clone()),
            workspace_ids: vec![parent.clone(), child.clone()],
        }
    );
    // Both the created and assigned events reach subscribers.
    assert!(app.events.iter().any(|event| matches!(event, EventData::FolderCreated { .. })));
    assert!(app.events.iter().any(|event| matches!(event, EventData::FolderAssigned { .. })));
    // The parent now carries the folder id.
    assert_eq!(app.app.state.workspace_folder_id(&parent), Some(folder_id.as_str()));
    // folder.list reproduces the organization: loose space then folder.
    let (folders, order) = app.list();
    assert_eq!(folders.len(), 1);
    assert_eq!(folders[0].folder_id, folder_id);
    assert_eq!(folders[0].members, vec![parent, child]);
    assert_eq!(order.len(), 2);
    assert_eq!(order[0].kind, SpaceOrderEntryKind::Workspace);
    assert_eq!(order[1].kind, SpaceOrderEntryKind::Folder);
    assert_eq!(order[1].id, folder_id);
    assert_invariants(&app.app.state);
}

#[test]
fn folder_rename_updates_label_and_emits_folder_updated() {
    let mut app = test_app(&["one"]);
    let folder_id = created_folder_id(app.create(FolderCreateParams { name: "work".into() }));

    let response = app.rename(FolderRenameParams { folder_id: folder_id.clone(), name: "personal".into() });

    assert_eq!(
        success(response),
        ResponseResult::FolderUpdated {
            folder: FolderInfo { folder_id: folder_id.clone(), name: "personal".into(), members: Vec::new() }
        }
    );
    assert_eq!(app.app.state.folder(&folder_id).expect("folder").name, "personal");
    assert!(app.events.iter().any(|data| matches!(
        data,
        EventData::FolderUpdated { folder } if folder.folder_id == folder_id && folder.name == "personal"
    )));
    assert_invariants(&app.app.state);
}

#[test]
fn folder_rename_never_fails_on_name_collision() {
    let mut app = test_app(&["one"]);
    let first = created_folder_id(app.create(FolderCreateParams { name: "work".into() }));
    let second = created_folder_id(app.create(FolderCreateParams { name: "other".into() }));

    let response = app.rename(FolderRenameParams { folder_id: second.clone(), name: "work".into() });

    assert!(matches!(
        success(response),
        ResponseResult::FolderUpdated { folder } if folder.name == "work"
    ));
    assert_eq!(app.app.state.folder(&first).expect("folder").name, "work");
    assert_eq!(app.app.state.folder(&second).expect("folder").name, "work");
    assert_invariants(&app.app.state);
}

#[test]
fn folder_rename_rejects_empty_name_and_unknown_folder() {
    let mut app = test_app(&["one"]);
    let folder_id = created_folder_id(app.create(FolderCreateParams { name: "work".into() }));

    let response = app.rename(FolderRenameParams { folder_id: folder_id.clone(), name: "   ".into() });
    assert_eq!(error_code(response), "invalid_folder_name");

    let response = app.rename(FolderRenameParams { folder_id: "f-missing".into(), name: "personal".into() });
    assert_eq!(error_code(response), "folder_not_found");
    assert_eq!(app.app.state.folder(&folder_id).expect("folder").name, "work");
}

#[test]
fn folder_delete_releases_members_and_emits_folder_deleted() {
    let mut app = test_app(&["one", "two"]);
    let w1 = app.app.state.workspaces[0].id.clone();
    let w2 = app.app.state.workspaces[1].id.clone();
    let folder_id = created_folder_id(app.create(FolderCreateParams { name: "work".into() }));
    app.assign(FolderAssignParams { workspace_id: w2.clone(), folder_id: Some(folder_id.clone()), position: None })
        .expect("assign");

    let response = app.delete(FolderTarget { folder_id: folder_id.clone() });

    assert_eq!(
        success(response),
        ResponseResult::FolderDeleted { folder_id: folder_id.clone(), workspace_ids: vec![w2.clone()] }
    );
    assert!(app.app.state.folder(&folder_id).is_none());
    assert_eq!(app.app.state.workspace_folder_id(&w2), None);
    // No space was closed by the delete.
    assert_eq!(
        app.app.state.workspaces.iter().map(|ws| ws.id.clone()).collect::<Vec<_>>(),
        vec![w1, w2.clone()]
    );
    assert!(app.events.iter().any(|data| matches!(
        data,
        EventData::FolderDeleted { folder_id: deleted, workspace_ids }
            if *deleted == folder_id && *workspace_ids == vec![w2.clone()]
    )));
    assert_invariants(&app.app.state);
}

#[test]
fn folder_delete_rejects_unknown_folder() {
    let mut app = test_app(&["one"]);
    let response = app.delete(FolderTarget { folder_id: "f-missing".into() });
    assert_eq!(error_code(response), "folder_not_found");
}

#[test]
fn folder_assign_rejects_unknown_targets() {
    let mut app = test_app(&["one"]);
    let workspace_id = app.app.state.workspaces[0].id.clone();

    let response = app.assign(FolderAssignParams { workspace_id: "w-missing".into(), folder_id: None, position: None });
    assert_eq!(error_code(response), "workspace_not_found");

    let response = app.assign(FolderAssignParams { workspace_id, folder_id: Some("f-missing".into()), position: None });
    assert_eq!(error_code(response), "folder_not_found");
}

#[test]
fn folder_assign_with_position_inserts_member_at_position() {
    let mut app = test_app(&["one", "two", "three"]);
    let w1 = app.app.state.workspaces[0].id.clone();
    let w2 = app.app.state.workspaces[1].id.clone();
    let w3 = app.app.state.workspaces[2].id.clone();
    let folder_id = created_folder_id(app.create(FolderCreateParams { name: "work".into() }));
    for ws in [&w1, &w2] {
        app.assign(FolderAssignParams { workspace_id: ws.clone(), folder_id: Some(folder_id.clone()), position: None })
            .expect("assign");
    }

    let response = app.assign(FolderAssignParams {
        workspace_id: w3.clone(),
        folder_id: Some(folder_id.clone()),
        position: Some(1),
    });

    assert_eq!(
        success(response),
        ResponseResult::FolderAssigned { folder_id: Some(folder_id.clone()), workspace_ids: vec![w3.clone()] }
    );
    // folder.list reflects the canonical order after the mutation.
    let (folders, _) = app.list();
    assert_eq!(folders[0].members, vec![w1, w3, w2]);
    assert_invariants(&app.app.state);
}

#[test]
fn folder_assign_null_with_position_reorders_top_level() {
    let mut app = test_app(&["one", "two", "three"]);
    let w1 = app.app.state.workspaces[0].id.clone();
    let w2 = app.app.state.workspaces[1].id.clone();
    let w3 = app.app.state.workspaces[2].id.clone();

    let response = app.assign(FolderAssignParams { workspace_id: w3.clone(), folder_id: None, position: Some(0) });

    assert_eq!(
        success(response),
        ResponseResult::FolderAssigned { folder_id: None, workspace_ids: vec![w3.clone()] }
    );
    let (_, order) = app.list();
    let ids: Vec<&str> = order.iter().map(|entry| entry.id.as_str()).collect();
    assert_eq!(ids, vec![w3.as_str(), w1.as_str(), w2.as_str()]);
    // A top-level reorder is still an assignment to the top level.
    assert!(app.events.iter().any(|event| matches!(event, EventData::FolderAssigned { .. })));
    assert_invariants(&app.app.state);
}

#[test]
fn folder_assign_within_folder_reorder_emits_folder_updated() {
    let mut app = test_app(&["one", "two"]);
    let w1 = app.app.state.workspaces[0].id.clone();
    let w2 = app.app.state.workspaces[1].id.clone();
    let folder_id = created_folder_id(app.create(FolderCreateParams { name: "work".into() }));
    for ws in [&w1, &w2] {
        app.assign(FolderAssignParams { workspace_id: ws.clone(), folder_id: Some(folder_id.clone()), position: None })
            .expect("assign");
    }
    let sequence_before = app.events.len();

    let response = app.assign(FolderAssignParams {
        workspace_id: w2.clone(),
        folder_id: Some(folder_id.clone()),
        position: Some(0),
    });

    // The method contract stays folder_assigned; the event reports a
    // member-order change.
    assert_eq!(
        success(response),
        ResponseResult::FolderAssigned { folder_id: Some(folder_id.clone()), workspace_ids: vec![w2.clone()] }
    );
    let events = &app.events[sequence_before..];
    assert!(
        events.iter().any(|data| matches!(
            data,
            EventData::FolderUpdated { folder }
                if folder.folder_id == folder_id && folder.members == vec![w2.clone(), w1.clone()]
        )),
        "within-folder reorder must emit folder.updated: {events:?}"
    );
    assert!(
        !events.iter().any(|data| matches!(data, EventData::FolderAssigned { .. })),
        "within-folder reorder must not emit folder.assigned: {events:?}"
    );
    assert_eq!(app.app.state.folder(&folder_id).expect("folder").members, vec![w2, w1]);
    assert_invariants(&app.app.state);
}

#[test]
fn folder_move_repositions_folder_and_emits_folder_moved() {
    let mut app = test_app(&["one", "two"]);
    let w1 = app.app.state.workspaces[0].id.clone();
    let w2 = app.app.state.workspaces[1].id.clone();
    let folder_id = created_folder_id(app.create(FolderCreateParams { name: "work".into() }));
    app.assign(FolderAssignParams { workspace_id: w2.clone(), folder_id: Some(folder_id.clone()), position: None })
        .expect("assign");

    let response = app.move_folder(FolderMoveParams { folder_id: folder_id.clone(), position: 0 });

    assert_eq!(success(response), ResponseResult::FolderMoved { folder_id: folder_id.clone(), position: 0 });
    let (_, order) = app.list();
    assert_eq!(order[0].kind, SpaceOrderEntryKind::Folder);
    assert_eq!(order[0].id, folder_id);
    assert_eq!(order[1].id, w1);
    // Membership is untouched by the reposition.
    assert_eq!(app.app.state.workspace_folder_id(&w2), Some(folder_id.as_str()));
    // The workspaces follow the new canonical order, each with its folder id.
    let listed: Vec<(String, Option<String>)> = app
        .app
        .state
        .workspaces
        .iter()
        .map(|ws| (ws.id.clone(), app.app.state.workspace_folder_id(&ws.id).map(str::to_string)))
        .collect();
    assert_eq!(listed, vec![(w2.clone(), Some(folder_id.clone())), (w1.clone(), None)]);
    assert!(app.events.iter().any(|data| matches!(
        data,
        EventData::FolderMoved { folder_id: moved, position } if *moved == folder_id && *position == 0
    )));
    assert_invariants(&app.app.state);
}

#[test]
fn folder_move_clamps_position_and_reports_effective_index() {
    let mut app = test_app(&["one", "two"]);
    let folder_id = created_folder_id(app.create(FolderCreateParams { name: "work".into() }));
    app.move_folder(FolderMoveParams { folder_id: folder_id.clone(), position: 0 }).expect("move");

    let response = app.move_folder(FolderMoveParams { folder_id: folder_id.clone(), position: 99 });

    assert_eq!(success(response), ResponseResult::FolderMoved { folder_id, position: 2 });
    assert_invariants(&app.app.state);
}

#[test]
fn folder_move_noop_does_not_emit_event() {
    let mut app = test_app(&["one"]);
    let folder_id = created_folder_id(app.create(FolderCreateParams { name: "work".into() }));
    let sequence_before = app.events.len();

    let response = app.move_folder(FolderMoveParams { folder_id: folder_id.clone(), position: 1 });

    assert_eq!(success(response), ResponseResult::FolderMoved { folder_id, position: 1 });
    assert!(app.events[sequence_before..].is_empty(), "a no-op move must not emit events");
    assert_invariants(&app.app.state);
}

#[test]
fn folder_move_rejects_unknown_folder() {
    let mut app = test_app(&["one"]);
    let response = app.move_folder(FolderMoveParams { folder_id: "f-missing".into(), position: 0 });
    assert_eq!(error_code(response), "folder_not_found");
}

#[test]
fn rejections_carry_their_messages_and_request_no_save() {
    let mut app = test_app(&["one"]);
    let outcome = app.app.handle_folder_create(FolderCreateParams { name: " ".into() });
    assert_eq!(
        outcome.response,
        Err(ApiError {
            code: "invalid_folder_name",
            message: "folder name must contain at least one non-whitespace character",
        })
    );
    assert!(!outcome.save);
    let outcome = app.app.handle_folder_assign(
        FolderAssignParams { workspace_id: "ws-one".into(), folder_id: None, position: None },
        Some(7),
    );
    assert_eq!(outcome.response, Err(ApiError { code: "workspace_not_found", message: "workspace not found" }));
    let outcome = app.app.handle_folder_delete(FolderTarget { folder_id: "nope".into() });
    assert_eq!(outcome.response, Err(ApiError { code: "folder_not_found", message: "folder not found" }));
    assert!(outcome.event.is_none());
}
