use mangodisk::report::{after_confirmation, clean_decision, selection_notice, shown_paths, CleanDecision};
use mangodisk::models::{
    CleanupCategory, CleanupGroup, CleanupScanResult, DiskInfo, RiskLevel, ScanItemStatus, ScanRuleResult,
};
use mangodisk::report::{clean_exit_code, completion_message, is_confirmation, CliExitCode};
use mangodisk::report::{
    format_bytes, format_duration, group_label, humanize_rule_id, render_rule_line, render_scan,
    render_scan_summary, render_scan_warning, selected_rules, selection_label, style, CleanSelection,
};

fn scan_rule(rule_id: &str, recommended_selected: bool) -> ScanRuleResult {
    ScanRuleResult {
        rule_id: rule_id.to_string(),
        category: CleanupCategory::Development,
        group: CleanupGroup::Development,
        risk: RiskLevel::Safe,
        default_selected: recommended_selected,
        recommended_selected,
        bytes: 1_048_576,
        file_count: 1,
        available: true,
        selectable: true,
        status: ScanItemStatus::Found,
        running_processes: Vec::new(),
        requires_app_close: false,
        sources: Vec::new(),
        source_count: 1,
        sources_truncated: false,
        scan_elapsed_ms: 1,
    }
}

fn scan_result() -> CleanupScanResult {
    let mut limited_rule = scan_rule("container.docker-build-cache", false);
    limited_rule.bytes = 0;
    limited_rule.available = false;
    limited_rule.selectable = false;
    limited_rule.status = ScanItemStatus::Limited;

    CleanupScanResult {
        schema_version: "1.7".to_string(),
        custom_scan_id: None,
        missing_custom_root_count: 0,
        scanned_at_ms: 1,
        disk: DiskInfo {
            name: "fixture".to_string(),
            mount_point: "/fixture".to_string(),
            total_bytes: 4_194_304,
            available_bytes: 2_097_152,
            used_bytes: 2_097_152,
        },
        rules: vec![
            scan_rule("development.npm-cache", true),
            scan_rule("development.rust-toolchains", false),
            limited_rule,
        ],
        application_icons: Vec::new(),
        warning_counts_by_rule: vec![("container.docker-build-cache".to_string(), 1)],
        warning_count: 1,
        safe_bytes: 1_048_576,
        reclaimable_bytes: 2_097_152,
        applicability_elapsed_ms: 1,
        applicable_rule_count: 2,
        filtered_rule_count: 0,
        inventory_application_count: 0,
        inventory_process_count: 0,
        elapsed_ms: 1_500,
    }
}

#[test]
fn rule_identifier_is_readable_without_ui_localization() {
    assert_eq!(humanize_rule_id("project.rust-build-artifacts"), "Rust Build Artifacts");
    assert_eq!(humanize_rule_id("ai.xcode-model-cache"), "Xcode Model Cache");
}

#[test]
fn byte_format_uses_compact_binary_units() {
    assert_eq!(format_bytes(512), "512 B");
    assert_eq!(format_bytes(1_048_576), "1.00 MB");
    assert_eq!(format_bytes(12 * 1_073_741_824), "12.0 GB");
}

#[test]
fn human_scan_hides_review_markers_and_repeats_the_summary() {
    let output = render_scan(&scan_result(), false, false);
    let summary =
        "2 candidate(s), 2.00 MB estimated cleanable data, 1.00 MB recommended, completed in 1.5 s.";

    assert!(output.contains("npm Cache"));
    assert!(output.contains("recommended"));
    assert!(output.contains("Rust Toolchains"));
    assert!(!output.contains("review"));
    assert!(output.contains(
        "1 optional cleanup item could not be inspected. Set MANGODISK_LOG=warn for diagnostic details."
    ));
    assert_eq!(output.matches(summary).count(), 2);
    assert!(output.ends_with(summary));
}

#[test]
fn scan_warning_uses_a_plural_label() {
    assert!(render_scan_warning(2, false).starts_with("2 optional cleanup items could not be inspected."));
}

#[test]
fn recommended_selection_includes_recoverable_application_rules() {
    let mut scan = scan_result();
    let mut application_rule = scan_rule("app.adobe-media-cache", true);
    application_rule.category = CleanupCategory::Application;
    application_rule.group = CleanupGroup::Application;
    application_rule.risk = RiskLevel::Recoverable;
    application_rule.default_selected = false;
    scan.rules.push(application_rule);

    let selected_ids = selected_rules(&scan, CleanSelection::Recommended)
        .into_iter()
        .map(|index| scan.rules[index].rule_id.as_str())
        .collect::<Vec<_>>();

    assert!(selected_ids.contains(&"app.adobe-media-cache"));
    assert!(!selected_ids.contains(&"development.rust-toolchains"));
}

fn f64_bytes(bytes: u64) -> String {
    const UNITS: [&str; 5] = ["B", "KB", "MB", "GB", "TB"];
    let mut value = bytes as f64;
    let mut unit = 0;
    while value >= 1024.0 && unit < UNITS.len() - 1 {
        value /= 1024.0;
        unit += 1;
    }
    if unit == 0 {
        format!("{bytes} B")
    } else if value >= 10.0 {
        format!("{value:.1} {}", UNITS[unit])
    } else {
        format!("{value:.2} {}", UNITS[unit])
    }
}

#[test]
fn byte_format_matches_floating_point_rendering_on_boundaries() {
    let samples = [
        0u64,
        1,
        1023,
        1024,
        1025,
        10 * 1024 - 1,
        10 * 1024,
        10_239,
        10_240,
        1_048_575,
        1_048_576,
        1_572_864,
        10_485_760,
        123_456_789,
        1_073_741_823,
        1_073_741_824,
        1_099_511_627_775,
        1_099_511_627_776,
        1_125_899_906_842_624,
        9_007_199_254_740_993,
        u64::MAX - 1,
        u64::MAX,
    ];
    for bytes in samples {
        assert_eq!(format_bytes(bytes), f64_bytes(bytes), "{bytes}");
    }
    let mut x: u64 = 0x9E37_79B9_7F4A_7C15;
    for _ in 0..2000 {
        x ^= x << 13;
        x ^= x >> 7;
        x ^= x << 17;
        let bytes = x >> (x % 64);
        assert_eq!(format_bytes(bytes), f64_bytes(bytes), "{bytes}");
    }
}

#[test]
fn duration_format_matches_floating_point_rendering() {
    for ms in [0u64, 1, 999, 1_000, 1_049, 1_050, 1_051, 1_150, 1_250, 1_500, 59_999, 123_456_789, u64::MAX] {
        let expected = if ms < 1_000 {
            format!("{ms} ms")
        } else {
            format!("{:.1} s", ms as f64 / 1_000.0)
        };
        assert_eq!(format_duration(ms), expected, "{ms}");
    }
    assert_eq!(format_duration(999), "999 ms");
    assert_eq!(format_duration(1_500), "1.5 s");
}

#[test]
fn labels_and_styles_are_stable() {
    assert_eq!(selection_label(CleanSelection::Recommended), "recommended");
    assert_eq!(selection_label(CleanSelection::All), "all");
    assert_eq!(group_label(CleanupGroup::UserCache), "User caches");
    assert_eq!(group_label(CleanupGroup::Ai), "AI models and caches");
    assert_eq!(style("x", "1;32", false), "x");
    assert_eq!(style("x", "1;32", true), "\u{1b}[1;32mx\u{1b}[0m");
    assert_eq!(render_scan_warning(1, false), "1 optional cleanup item could not be inspected. Set MANGODISK_LOG=warn for diagnostic details.");
}

#[test]
fn rule_line_pads_name_and_size_and_marks_state() {
    let rule = scan_rule("development.npm-cache", true);
    let line = render_rule_line(&rule);
    assert_eq!(line, format!("  {:<44} {:>10}  recommended", "npm Cache", "1.00 MB"));
    let mut unavailable = scan_rule("development.pip-cache", false);
    unavailable.selectable = false;
    assert_eq!(render_rule_line(&unavailable), format!("  {:<44} {:>10}  unavailable", "pip Cache", "1.00 MB"));
    let plain = scan_rule("development.ios-simulators", false);
    assert_eq!(render_rule_line(&plain), format!("  {:<44} {:>10}", "iOS Simulators", "1.00 MB"));
}

#[test]
fn scan_summary_counts_candidates_and_recommended_bytes() {
    let summary = render_scan_summary(&scan_result(), false);
    assert_eq!(
        summary,
        "2 candidate(s), 2.00 MB estimated cleanable data, 1.00 MB recommended, completed in 1.5 s."
    );
}

#[test]
fn report_orders_rules_by_size_and_lists_sources_in_detail() {
    let mut scan = scan_result();
    scan.rules[1].bytes = 3 * 1_048_576;
    scan.rules[1].sources = vec![mangodisk::models::CleanupSourceDetail {
        path: "/fixture/toolchains".to_string(),
        bytes: 3 * 1_048_576,
        file_count: 7,
        modified_at_ms: None,
        block_reason: None,
    }];
    let output = render_scan(&scan, true, false);
    let lines: Vec<&str> = output.lines().collect();
    assert_eq!(lines[0], "Cleanup scan");
    assert_eq!(lines[2], "");
    assert_eq!(lines[3], "Developer tools (4.00 MB, 2 item(s))");
    assert!(lines[4].contains("Rust Toolchains"));
    assert_eq!(lines[5], "    1 file(s), 1 source(s)");
    assert_eq!(lines[6], "    - 3.00 MB  /fixture/toolchains");
    assert!(lines[7].contains("npm Cache"));
    let empty = CleanupScanResult { rules: Vec::new(), ..scan_result() };
    assert_eq!(render_scan(&empty, false, false).lines().count(), 2);
}

#[test]
fn completion_lines_report_the_run_totals() {
    assert_eq!(
        completion_message(true, 1_048_576, 0, 3, 1),
        "Dry run completed: 1.00 MB selected, 3 item(s) passed preflight, 1 item(s) skipped or failed."
    );
    assert_eq!(
        completion_message(false, 1_048_576, 512, 2, 0),
        "Cleanup completed: 512 B removed, 2 item(s) affected, 0 item(s) skipped or failed."
    );
    assert_eq!(clean_exit_code(true, 0), CliExitCode::Cancelled);
    assert_eq!(clean_exit_code(false, 4), CliExitCode::CompletedWithWarnings);
    assert_eq!(clean_exit_code(false, 0), CliExitCode::Success);
}

#[test]
fn only_yes_answers_confirm_a_cleanup() {
    for answer in ["y\n", "Y", "  yes  ", "YeS\r\n"] {
        assert!(is_confirmation(answer), "{answer:?}");
    }
    for answer in ["", "\n", "n", "no", "yess", "y e s", "ja"] {
        assert!(!is_confirmation(answer), "{answer:?}");
    }
}

#[test]
fn clean_decision_reports_without_apply_and_refuses_empty_selections() {
    match clean_decision("Scan", false, CleanSelection::Recommended, 3, 512, false, false, true) {
        CleanDecision::Report(text) => assert_eq!(text, "Scan\n\nNo files changed."),
        _ => panic!("expected a report"),
    }
    match clean_decision("Scan", true, CleanSelection::All, 0, 0, false, false, true) {
        CleanDecision::NothingSelected(text) => {
            assert_eq!(text, "Scan\n\nNo all cleanup items are currently available. No files changed.")
        }
        _ => panic!("expected nothing selected"),
    }
    match clean_decision("Scan", true, CleanSelection::Recommended, 0, 0, true, true, false) {
        CleanDecision::NothingSelected(text) => {
            assert_eq!(text, "Scan\n\nNo recommended cleanup items are currently available. No files changed.")
        }
        _ => panic!("expected nothing selected"),
    }
}

#[test]
fn clean_decision_confirms_real_runs_unless_pre_approved() {
    assert!(matches!(
        clean_decision("Scan", true, CleanSelection::Recommended, 2, 512, true, false, false),
        CleanDecision::Execute
    ));
    assert!(matches!(
        clean_decision("Scan", true, CleanSelection::Recommended, 2, 512, false, true, false),
        CleanDecision::Execute
    ));
    match clean_decision("Scan", true, CleanSelection::Recommended, 2, 512, false, false, true) {
        CleanDecision::Confirm(prompt) => assert_eq!(prompt, "Apply the recommended cleanup (2 item(s), 512 B)? [y/N] "),
        _ => panic!("expected a confirmation"),
    }
    match clean_decision("Scan", true, CleanSelection::All, 1, 1_048_576, false, false, true) {
        CleanDecision::Confirm(prompt) => assert_eq!(
            prompt,
            "Apply all selectable items, including items that require review (1 item(s), 1.00 MB)? [y/N] "
        ),
        _ => panic!("expected a confirmation"),
    }
    match clean_decision("Scan", true, CleanSelection::All, 1, 1, false, false, false) {
        CleanDecision::Refuse(error) => {
            assert_eq!(error, "non-interactive cleanup requires --yes; use --dry-run to verify without changes")
        }
        _ => panic!("expected a refusal"),
    }
}

#[test]
fn selection_notice_and_declined_confirmation_texts() {
    assert_eq!(
        selection_notice(CleanSelection::Recommended, 3, 512),
        "\nSelected 3 item(s), 512 B using the recommended selection."
    );
    assert_eq!(after_confirmation(" yes\n"), None);
    assert_eq!(after_confirmation("Y"), None);
    assert_eq!(after_confirmation("no"), Some("Cleanup cancelled. No files changed.".to_string()));
    assert_eq!(after_confirmation(""), Some("Cleanup cancelled. No files changed.".to_string()));
}

#[test]
fn report_shows_diagnostic_paths_unless_full_paths_are_asked_for() {
    let mut scan = scan_result();
    scan.rules[1].bytes = 3 * 1_048_576;
    scan.rules[1].sources = vec![mangodisk::models::CleanupSourceDetail {
        path: "/Users/fixture/toolchains".to_string(),
        bytes: 3 * 1_048_576,
        file_count: 7,
        modified_at_ms: None,
        block_reason: None,
    }];
    let diagnostic = vec![Vec::new(), vec!["~/toolchains".to_string()], Vec::new()];
    let redacted = render_scan(&shown_paths(scan.clone(), false, &diagnostic), true, false);
    assert_eq!(redacted.lines().nth(6), Some("    - 3.00 MB  ~/toolchains"));
    let full = render_scan(&shown_paths(scan, true, &Vec::new()), true, false);
    assert_eq!(full.lines().nth(6), Some("    - 3.00 MB  /Users/fixture/toolchains"));
}
