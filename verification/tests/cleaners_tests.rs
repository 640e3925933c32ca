use mangodisk::cleaners::catalog_digest;
use mangodisk::cleaners::{assemble_preview, execution_step, CleanerRoute, ExecutionStep};
use mangodisk::cleaners::{
    cancelled_action, cleaner_scan_rule, execution_rule_ids, failed_source_selection_action, is_authored_entry_name,
    missing_tool_action, missing_tool_preview, order_actions_by_request, project_artifact_close_processes, project_start,
    unavailable_cleaner_action, CleanerPreview, CleanerPreviewStatus, ProjectArtifactCatalog,
};
use mangodisk::models::{
    CleanupActionKind, CleanupActionReason, CleanupActionStatus, CleanupCategory, CleanupGroup, RiskLevel,
    ScanItemStatus,
};

fn catalog() -> ProjectArtifactCatalog {
    ProjectArtifactCatalog {
        rule_ids: vec![
            "project.rust-build-artifacts".to_string(),
            "project.node-build-artifacts".to_string(),
            "project.python-build-artifacts".to_string(),
            "project.rails-cache".to_string(),
        ],
    }
}

#[test]
fn project_app_closure_accepts_only_known_catalog_ids_and_fixed_apps() {
    let catalog = catalog();
    assert_eq!(
        project_artifact_close_processes(&catalog, "project.rust-build-artifacts"),
        Some(vec!["Codex".into(), "ChatGPT".into()])
    );
    assert!(project_artifact_close_processes(&catalog, "project.unknown").is_none());
    assert!(project_artifact_close_processes(&catalog, "node").is_none());
    assert!(project_artifact_close_processes(&catalog, "app.chatgpt-cache").is_none());
}

#[test]
fn execution_queue_keeps_shared_project_discovery_last() {
    let selected = vec![
        "project.rust-build-artifacts".to_string(),
        "special.docker-build-cache".to_string(),
        "project.node-build-artifacts".to_string(),
        "special.conda-cache".to_string(),
    ];

    let queue = execution_rule_ids(&catalog(), &selected);
    assert_eq!(
        queue,
        vec![
            "special.docker-build-cache",
            "special.conda-cache",
            "project.rust-build-artifacts",
            "project.node-build-artifacts",
        ]
    );
    assert_eq!(project_start(&catalog(), &queue), 2);
}

#[test]
fn zero_byte_metadata_items_remain_visible_and_selectable() {
    let rule = cleaner_scan_rule(
        "special.conda-cache",
        CleanupCategory::Development,
        CleanerPreview { status: CleanerPreviewStatus::Ready, bytes: 0, item_count: 2, elapsed_ms: 1 },
    );
    assert_eq!(rule.status, ScanItemStatus::Found);
    assert!(rule.selectable);
}

#[test]
fn cleaner_rows_cover_each_preview_state() {
    let row = |status, bytes, items| {
        cleaner_scan_rule(
            "special.docker-build-cache",
            CleanupCategory::Container,
            CleanerPreview { status, bytes, item_count: items, elapsed_ms: 3 },
        )
    };
    let clean = row(CleanerPreviewStatus::Ready, 0, 0);
    assert_eq!((clean.status, clean.available, clean.selectable), (ScanItemStatus::Clean, true, false));
    let limited = row(CleanerPreviewStatus::Limited, 5, 1);
    assert_eq!((limited.status, limited.available, limited.selectable), (ScanItemStatus::Limited, true, false));
    let absent = row(CleanerPreviewStatus::NotApplicable, 0, 0);
    assert_eq!((absent.status, absent.available), (ScanItemStatus::NotApplicable, false));
    let found = row(CleanerPreviewStatus::Ready, 9, 0);
    assert_eq!(found.status, ScanItemStatus::Found);
    assert_eq!(found.group, CleanupGroup::Container);
    assert_eq!(found.risk, RiskLevel::Recoverable);
    assert!(!found.recommended_selected);
    assert_eq!(found.scan_elapsed_ms, 3);
    assert_eq!(missing_tool_preview(true, 2).status, CleanerPreviewStatus::NotApplicable);
    assert_eq!(missing_tool_preview(false, 2).status, CleanerPreviewStatus::Limited);
}

#[test]
fn fail_closed_actions_report_one_failed_item() {
    let a = cancelled_action("special.conda-cache", CleanupActionKind::Delete);
    assert_eq!(a.status, CleanupActionStatus::Blocked);
    assert_eq!(a.reason_code, Some(CleanupActionReason::Cancelled));
    assert_eq!((a.bytes_expected, a.released_bytes, a.affected_item_count, a.failed_item_count), (0, 0, 0, 1));
    let b = failed_source_selection_action("x", CleanupActionKind::Command);
    assert_eq!((b.status, b.reason_code), (CleanupActionStatus::Failed, Some(CleanupActionReason::PreflightFailed)));
    let c = missing_tool_action("x");
    assert_eq!(c.reason_code, Some(CleanupActionReason::RequiredToolUnavailable));
    let d = unavailable_cleaner_action("x");
    assert_eq!(d.reason_code, Some(CleanupActionReason::CleanerUnavailable));
    assert_eq!(d.action_kind, CleanupActionKind::Command);
}

#[test]
fn actions_follow_request_order() {
    let ids = vec!["b".to_string(), "a".to_string(), "c".to_string()];
    let actions = vec![
        cancelled_action("c", CleanupActionKind::Delete),
        cancelled_action("zz", CleanupActionKind::Delete),
        cancelled_action("a", CleanupActionKind::Delete),
        cancelled_action("b", CleanupActionKind::Delete),
    ];
    let ordered = order_actions_by_request(&ids, actions);
    let order: Vec<&str> = ordered.iter().map(|a| a.rule_id.as_str()).collect();
    assert_eq!(order, vec!["b", "a", "c", "zz"]);
}

#[test]
fn authored_entry_names_are_matched_case_insensitively() {
    for name in [".git", ".GIT", "program-keypair.json", "Program-Keypair.JSON"] {
        assert!(is_authored_entry_name(name.as_bytes()), "{name}");
    }
    for name in ["git", ".github", "gitignore", "keypair.json", "program-keypair.json.bak", "target"] {
        assert!(!is_authored_entry_name(name.as_bytes()), "{name}");
    }
}

#[test]
fn execution_steps_run_cleaners_then_the_project_phase() {
    let queue = vec!["special.conda-cache".to_string(), "project.rust-build-artifacts".to_string()];
    let scoped = CleanerRoute::Scoped { cancel_kind: CleanupActionKind::Delete };
    let generic = CleanerRoute::Unscoped { cancel_kind: CleanupActionKind::Command, kind: CleanupActionKind::Command };
    assert!(matches!(execution_step(&queue, &catalog(), 0, false, true, scoped), ExecutionStep::RunCleaner));
    assert!(matches!(execution_step(&queue, &catalog(), 0, false, false, generic), ExecutionStep::RunCleaner));
    match execution_step(&queue, &catalog(), 0, false, true, generic) {
        ExecutionStep::Finished(action) => {
            assert_eq!(action.rule_id, "special.conda-cache");
            assert_eq!(action.status, CleanupActionStatus::Failed);
            assert_eq!(action.reason_code, Some(CleanupActionReason::PreflightFailed));
        }
        _ => panic!("a source selection cannot be honoured"),
    }
    match execution_step(&queue, &catalog(), 0, false, false, CleanerRoute::Unregistered) {
        ExecutionStep::Finished(action) => {
            assert_eq!(action.action_kind, CleanupActionKind::Command);
            assert_eq!(action.reason_code, Some(CleanupActionReason::CleanerUnavailable));
            assert_eq!(action.failed_item_count, 1);
        }
        _ => panic!("an unregistered rule fails closed"),
    }
    assert!(matches!(execution_step(&queue, &catalog(), 1, false, false, generic), ExecutionStep::RunProjectPhase));
    assert!(matches!(execution_step(&queue, &catalog(), 2, false, false, generic), ExecutionStep::Done));
}

#[test]
fn cancelled_execution_blocks_every_remaining_rule() {
    let queue = vec![
        "special.conda-cache".to_string(),
        "project.rust-build-artifacts".to_string(),
        "project.node-build-artifacts".to_string(),
    ];
    let scoped = CleanerRoute::Scoped { cancel_kind: CleanupActionKind::Optimize };
    match execution_step(&queue, &catalog(), 0, true, false, scoped) {
        ExecutionStep::Finished(action) => {
            assert_eq!(action.action_kind, CleanupActionKind::Optimize);
            assert_eq!(action.status, CleanupActionStatus::Blocked);
            assert_eq!(action.reason_code, Some(CleanupActionReason::Cancelled));
        }
        _ => panic!("a cancelled rule is blocked"),
    }
    match execution_step(&queue, &catalog(), 1, true, false, scoped) {
        ExecutionStep::CancelProjects(actions) => {
            let ids = actions.iter().map(|action| action.rule_id.as_str()).collect::<Vec<_>>();
            assert_eq!(ids, vec!["project.rust-build-artifacts", "project.node-build-artifacts"]);
            assert!(actions.iter().all(|action| action.action_kind == CleanupActionKind::Delete
                && action.status == CleanupActionStatus::Blocked
                && action.reason_code == Some(CleanupActionReason::Cancelled)));
        }
        _ => panic!("cancelled project rules are blocked together"),
    }
}

#[test]
fn preview_rows_put_project_artifacts_last() {
    let ready = || CleanerPreview { status: CleanerPreviewStatus::Ready, bytes: 1, item_count: 1, elapsed_ms: 0 };
    let a = cleaner_scan_rule("special.conda-cache", CleanupCategory::Development, ready());
    let b = cleaner_scan_rule("project.rust-build-artifacts", CleanupCategory::Development, ready());
    let rows = assemble_preview(vec![a], vec![b]);
    let ids = rows.iter().map(|rule| rule.rule_id.as_str()).collect::<Vec<_>>();
    assert_eq!(ids, vec!["special.conda-cache", "project.rust-build-artifacts"]);
}

#[test]
fn catalog_digest_hashes_registered_cleaners_in_id_order() {
    let registered = vec![("b.tool".to_string(), "2".to_string()), ("a.tool".to_string(), "1".to_string())];
    let parts = vec!["codex.sessions".to_string(), "1".to_string()];
    let digest = catalog_digest(&registered, &parts);
    assert_eq!(digest.len(), 64);
    assert_eq!(digest, blake3::hash(b"a.tool1b.tool2codex.sessions1").to_hex().to_string());
    let reordered = vec![("a.tool".to_string(), "1".to_string()), ("b.tool".to_string(), "2".to_string())];
    assert_eq!(catalog_digest(&reordered, &parts), digest);
    let revised = vec![("a.tool".to_string(), "1".to_string()), ("b.tool".to_string(), "3".to_string())];
    assert_ne!(catalog_digest(&revised, &parts), digest);
}
