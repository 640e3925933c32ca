use mangodisk::cleaners::{cleaner_scan_rule, CleanerPreview, CleanerPreviewStatus};
use mangodisk::models::{CleanupCategory, CleanupGroup, RiskLevel, ScanItemStatus, ScanRuleResult};
use mangodisk::scan::{scan_worker_count, task_scheduling, worker_count_for_tasks, TaskScheduling, VolumeScheduling};
use mangodisk::scan::{
    latest_timestamp, merge_measure_result, merge_source_measurement, public_risk, scan_item_status,
    summarize_cleanup_sources, CleanupScanService, MeasureResult, RuleRiskLevel, SourceMeasurement,
    MAX_CLEANUP_SOURCE_DETAILS,
};
use mangodisk::scan_result::{
    assemble_scan_rules, cleanup_group, scan_rule_result, scan_snapshot, scan_totals, warning_counts_by_rule,
    warning_total, MeasuredRule, UserDirectories,
};

#[test]
fn cleanup_source_summary_limits_locations_in_size_order() {
    let measured = (0..620_u64)
        .map(|index| {
            (
                format!("/fixture/source-{index}"),
                SourceMeasurement { bytes: index + 1, file_count: 1, modified_at_ms: Some(index) },
            )
        })
        .collect::<Vec<_>>();

    let (sources, source_count, sources_truncated) = summarize_cleanup_sources(measured);

    assert_eq!(sources.len(), MAX_CLEANUP_SOURCE_DETAILS);
    assert_eq!(source_count, 620);
    assert!(sources_truncated);
    assert!(sources.windows(2).all(|pair| pair[0].bytes >= pair[1].bytes));
    assert_eq!(sources.first().map(|source| source.bytes), Some(620));
    assert_eq!(sources.last().map(|source| source.bytes), Some(365));
}

#[test]
fn cleanup_source_summary_keeps_largest_bounded_details() {
    let sources = (0..MAX_CLEANUP_SOURCE_DETAILS + 7)
        .map(|index| {
            (
                format!("/tmp/source-{index:03}"),
                SourceMeasurement { bytes: index as u64 + 1, file_count: 1, modified_at_ms: None },
            )
        })
        .collect::<Vec<_>>();

    let (details, source_count, truncated) = summarize_cleanup_sources(sources);

    assert_eq!(details.len(), MAX_CLEANUP_SOURCE_DETAILS);
    assert_eq!(source_count, (MAX_CLEANUP_SOURCE_DETAILS + 7) as u64);
    assert!(truncated);
    assert_eq!(details.first().map(|source| source.bytes), Some(263));
    assert_eq!(details.last().map(|source| source.bytes), Some(8));
}

#[test]
fn cleanup_source_summary_does_not_mark_exact_limit_as_truncated() {
    let sources = (0..MAX_CLEANUP_SOURCE_DETAILS)
        .map(|index| {
            (
                format!("/tmp/source-{index:03}"),
                SourceMeasurement { bytes: 1, file_count: 1, modified_at_ms: None },
            )
        })
        .collect::<Vec<_>>();

    let (details, source_count, truncated) = summarize_cleanup_sources(sources);

    assert_eq!(details.len(), MAX_CLEANUP_SOURCE_DETAILS);
    assert_eq!(source_count, MAX_CLEANUP_SOURCE_DETAILS as u64);
    assert!(!truncated);
}

#[test]
fn source_summary_drops_empty_sources_and_orders_equal_sizes_by_path() {
    let sources = vec![
        ("/b".to_string(), SourceMeasurement { bytes: 5, file_count: 1, modified_at_ms: None }),
        ("/empty".to_string(), SourceMeasurement { bytes: 0, file_count: 0, modified_at_ms: Some(3) }),
        ("/a".to_string(), SourceMeasurement { bytes: 5, file_count: 2, modified_at_ms: Some(9) }),
        ("/meta".to_string(), SourceMeasurement { bytes: 0, file_count: 4, modified_at_ms: None }),
    ];
    let (details, count, truncated) = summarize_cleanup_sources(sources);
    let paths: Vec<&str> = details.iter().map(|d| d.path.as_str()).collect();
    assert_eq!(paths, vec!["/a", "/b", "/meta"]);
    assert_eq!(count, 3);
    assert!(!truncated);
    assert_eq!(details[0].modified_at_ms, Some(9));
}

#[test]
fn rule_status_follows_availability_content_and_processes() {
    let running = vec!["Chrome".to_string()];
    let none: Vec<String> = Vec::new();
    assert_eq!(scan_item_status(false, 10, 0, &running), ScanItemStatus::NotApplicable);
    assert_eq!(scan_item_status(true, 10, 0, &running), ScanItemStatus::RequiresClose);
    assert_eq!(scan_item_status(true, 10, 3, &none), ScanItemStatus::Found);
    assert_eq!(scan_item_status(true, 0, 3, &running), ScanItemStatus::Limited);
    assert_eq!(scan_item_status(true, 0, 0, &none), ScanItemStatus::Clean);
    assert_eq!(public_risk(RuleRiskLevel::HighImpact), RiskLevel::Recoverable);
    assert_eq!(public_risk(RuleRiskLevel::Safe), RiskLevel::Safe);
}

#[test]
fn measurements_merge_saturating_with_the_latest_time() {
    let mut total = SourceMeasurement { bytes: u64::MAX - 1, file_count: 1, modified_at_ms: Some(5) };
    merge_source_measurement(&mut total, SourceMeasurement { bytes: 9, file_count: 2, modified_at_ms: Some(3) });
    assert_eq!(total.bytes, u64::MAX);
    assert_eq!(total.file_count, 3);
    assert_eq!(total.modified_at_ms, Some(5));
    let mut m = MeasureResult { bytes: 1, file_count: 1, skipped_count: u64::MAX };
    merge_measure_result(&mut m, MeasureResult { bytes: 2, file_count: 3, skipped_count: 1 });
    assert_eq!((m.bytes, m.file_count, m.skipped_count), (3, 4, u64::MAX));
    assert_eq!(latest_timestamp(None, Some(4)), Some(4));
    assert_eq!(latest_timestamp(None, None), None);
}

fn measured(id: &str, bytes: u64, skipped: u64, requires_app_close: bool) -> MeasuredRule {
    MeasuredRule {
        rule_id: id.to_string(),
        category: CleanupCategory::Browser,
        group: CleanupGroup::Browser,
        risk: RuleRiskLevel::Safe,
        default_selected: true,
        recommended_selected: true,
        requires_app_close,
        available: true,
        measured: MeasureResult { bytes, file_count: 1, skipped_count: skipped },
        scan_elapsed_ms: 4,
        sources: vec![("/cache".to_string(), SourceMeasurement { bytes, file_count: 1, modified_at_ms: None })],
        running_processes: vec!["Chrome".to_string()],
    }
}

fn cleaner(id: &str, status: ScanItemStatus) -> ScanRuleResult {
    ScanRuleResult {
        rule_id: id.to_string(),
        category: CleanupCategory::Development,
        group: CleanupGroup::Development,
        risk: RiskLevel::Recoverable,
        default_selected: false,
        recommended_selected: false,
        bytes: 0,
        file_count: 0,
        available: true,
        selectable: false,
        status,
        running_processes: Vec::new(),
        requires_app_close: false,
        sources: Vec::new(),
        source_count: 0,
        sources_truncated: false,
        scan_elapsed_ms: 0,
    }
}

#[test]
fn measured_rule_reports_blocking_processes_only_with_content() {
    let row = scan_rule_result(measured("browser.chrome", 10, 0, true));
    assert_eq!(row.status, ScanItemStatus::RequiresClose);
    assert_eq!(row.running_processes, vec!["Chrome".to_string()]);
    assert!(row.selectable);
    assert_eq!(row.source_count, 1);
    let empty = scan_rule_result(measured("browser.chrome", 0, 2, true));
    assert_eq!(empty.status, ScanItemStatus::Limited);
    assert!(empty.running_processes.is_empty());
    assert!(!empty.selectable);
    assert_eq!(empty.source_count, 1);
}

#[test]
fn warning_counts_are_ordered_by_rule_and_cleaners_override() {
    let rules = vec![measured("b.rule", 1, 2, false), measured("a.rule", 1, 0, false), measured("c.rule", 1, 5, false)];
    let cleaners = vec![cleaner("c.rule", ScanItemStatus::Limited), cleaner("d.tool", ScanItemStatus::Clean)];
    let counts = warning_counts_by_rule(&rules, &cleaners);
    assert_eq!(counts, vec![("b.rule".to_string(), 2), ("c.rule".to_string(), 1)]);
    assert_eq!(warning_total(&counts), 3);
}

#[test]
fn totals_and_snapshot_follow_the_rows() {
    let rules = assemble_scan_rules(
        vec![measured("a.rule", 10, 0, false), measured("b.rule", 0, 0, false)],
        vec![cleaner("c.tool", ScanItemStatus::NotApplicable)],
    );
    assert_eq!(rules.len(), 3);
    assert_eq!(rules[2].rule_id, "c.tool");
    let totals = scan_totals(&rules);
    assert_eq!(totals.reclaimable_bytes, 10);
    assert_eq!(totals.safe_bytes, 10);
    assert_eq!(totals.filtered_rule_count, 1);
    assert_eq!(totals.applicable_rule_count, 2);
    let snapshot = scan_snapshot(
        None,
        0,
        7,
        mangodisk::models::DiskInfo {
            name: "disk".to_string(),
            mount_point: "/".to_string(),
            total_bytes: 1,
            available_bytes: 1,
            used_bytes: 0,
        },
        rules,
        Vec::new(),
        vec![("a.rule".to_string(), 4)],
        1,
        2,
        3,
        9,
    );
    assert_eq!(snapshot.schema_version, "1.10");
    assert_eq!(snapshot.warning_count, 4);
    assert_eq!(snapshot.reclaimable_bytes, 10);
}

#[test]
fn developer_and_user_cache_roots_receive_shared_groups() {
    let dirs = UserDirectories {
        home_directory: "/Users/example".to_string(),
        cache_directory: "/Users/example/Library/Caches".to_string(),
    };
    let roots = vec![
        "/Users/example/Library/Caches/Google/Chrome".to_string(),
        "/Users/example/Library/Application Support/Google/Chrome".to_string(),
    ];
    assert_eq!(cleanup_group(CleanupCategory::Browser, &roots, Some(&dirs)), CleanupGroup::UserCache);
    assert_eq!(
        cleanup_group(CleanupCategory::Development, &vec!["/Users/example/.cargo/registry".to_string()], Some(&dirs)),
        CleanupGroup::Development
    );
    assert_eq!(
        cleanup_group(CleanupCategory::System, &vec!["/Library/Caches/com.apple.system".to_string()], Some(&dirs)),
        CleanupGroup::System
    );
    assert_eq!(
        cleanup_group(
            CleanupCategory::Development,
            &vec!["/Users/example/Library/Developer/CoreSimulator/Caches".to_string()],
            Some(&dirs)
        ),
        CleanupGroup::Xcode
    );
    assert_eq!(cleanup_group(CleanupCategory::Browser, &roots, None), CleanupGroup::Browser);
}

#[test]
fn engine_info_and_previous_installations_are_fixed() {
    let info = CleanupScanService::engine_info();
    assert_eq!(info.configured_worker_limit, 4);
    assert!(info.single_pass_rule_matching);
    assert_eq!(
        CleanupScanService::scan_previous_installations_with_privileges().unwrap_err(),
        "privileged previous-installation scanning is available only on Windows"
    );
}

fn scheduling(class: &str, worker_limit: usize) -> TaskScheduling {
    TaskScheduling { class: class.to_string(), worker_limit }
}

fn volume(mount_point: &str, class: &str, worker_limit: usize) -> VolumeScheduling {
    VolumeScheduling { mount_point: mount_point.to_string(), class: class.to_string(), worker_limit }
}

#[test]
fn scheduler_uses_lowest_volume_and_cpu_limit() {
    let volume_root = "/tmp/mangodisk-fixture";
    let roots = (0..4).map(|_| volume_root.to_string()).collect::<Vec<_>>();
    let ssd = vec![volume(volume_root, "solid_state", 4)];
    assert_eq!(scan_worker_count(&roots, &ssd, 8), (4, "solid_state".to_string()));
    assert_eq!(scan_worker_count(&roots, &ssd, 2).0, 2);
    let removable = vec![volume(volume_root, "removable", 1)];
    assert_eq!(scan_worker_count(&roots, &removable, 8), (1, "removable".to_string()));
    assert_eq!(scan_worker_count(&roots, &Vec::new(), 8), (1, "unknown".to_string()));
}

#[test]
fn tasks_take_the_first_volume_mounted_at_their_root() {
    let volumes = vec![
        volume("/Volumes/Data", "rotational", 2),
        volume("/Volumes/Data/", "solid_state", 4),
        volume("/", "solid_state", 4),
    ];
    let t = task_scheduling(&volumes, "/Volumes//Data");
    assert_eq!((t.class.as_str(), t.worker_limit), ("rotational", 2));
    let t = task_scheduling(&volumes, "/Volumes/Other");
    assert_eq!((t.class.as_str(), t.worker_limit), ("unknown", 1));
    let roots = vec!["/".to_string(), "/Volumes/Data".to_string(), "/Volumes/Other".to_string()];
    assert_eq!(scan_worker_count(&roots, &volumes, 8), (1, "rotational,solid_state,unknown".to_string()));
}

#[test]
fn worker_pool_for_resolved_tasks() {
    let solid_state = (0..4).map(|_| scheduling("solid_state", 4)).collect::<Vec<_>>();
    assert_eq!(worker_count_for_tasks(&solid_state, 8), (4, "solid_state".to_string()));
    assert_eq!(worker_count_for_tasks(&solid_state, 2).0, 2);
    assert_eq!(worker_count_for_tasks(&solid_state, 0).0, 1);

    let removable = (0..4).map(|_| scheduling("removable", 1)).collect::<Vec<_>>();
    assert_eq!(worker_count_for_tasks(&removable, 8), (1, "removable".to_string()));

    let mixed = vec![scheduling("solid_state", 4), scheduling("rotational", 2), scheduling("solid_state", 4)];
    assert_eq!(worker_count_for_tasks(&mixed, 8), (2, "rotational,solid_state".to_string()));

    let one = vec![scheduling("solid_state", 4)];
    assert_eq!(worker_count_for_tasks(&one, 8).0, 1);

    assert_eq!(worker_count_for_tasks(&Vec::new(), 8), (1, "unknown".to_string()));
}

fn row_is_consistent(rule: &ScanRuleResult) -> bool {
    rule.selectable
        == (rule.available
            && rule.bytes > 0
            && !matches!(
                rule.status,
                ScanItemStatus::Limited | ScanItemStatus::ReviewOnly | ScanItemStatus::RequiresElevation
            ))
        && (rule.status != ScanItemStatus::Found || rule.bytes > 0)
        && (rule.status != ScanItemStatus::Clean || rule.bytes == 0)
        && (rule.status != ScanItemStatus::NotApplicable || !rule.available)
        && rule.source_count >= rule.sources.len() as u64
        && rule.sources_truncated == (rule.source_count > rule.sources.len() as u64)
}

#[test]
fn assembled_rows_are_consistent_except_item_only_previews() {
    let preview = |status, bytes, item_count| CleanerPreview { status, bytes, item_count, elapsed_ms: 0 };
    let rows = assemble_scan_rules(
        vec![measured("a.rule", 10, 0, true), measured("b.rule", 0, 3, false)],
        vec![
            cleaner_scan_rule("c.tool", CleanupCategory::Development, preview(CleanerPreviewStatus::Limited, 5, 1)),
            cleaner_scan_rule("d.tool", CleanupCategory::Development, preview(CleanerPreviewStatus::Ready, 0, 0)),
            cleaner_scan_rule("e.tool", CleanupCategory::Development, preview(CleanerPreviewStatus::NotApplicable, 0, 0)),
        ],
    );
    assert!(rows.iter().all(row_is_consistent));
    let item_only = cleaner_scan_rule("f.tool", CleanupCategory::Development, preview(CleanerPreviewStatus::Ready, 0, 4));
    assert!(item_only.selectable && item_only.status == ScanItemStatus::Found && item_only.bytes == 0);
    assert!(!row_is_consistent(&item_only));
}
