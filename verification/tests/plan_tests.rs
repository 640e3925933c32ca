use mangodisk::models::{
    CleanupAutomationProfile, CleanupCategory, CleanupGroup, CleanupScanResult, DiskInfo, RiskLevel, ScanItemStatus,
    ScanRuleResult,
};
use mangodisk::plan::CleanupPlanService;

fn scan_rule(id: &str, risk: RiskLevel, default_selected: bool, bytes: u64) -> ScanRuleResult {
    ScanRuleResult {
        rule_id: id.to_string(),
        category: CleanupCategory::System,
        group: CleanupGroup::System,
        risk,
        default_selected,
        recommended_selected: default_selected,
        bytes,
        file_count: 1,
        available: true,
        selectable: true,
        status: ScanItemStatus::Found,
        running_processes: Vec::new(),
        requires_app_close: false,
        sources: Vec::new(),
        source_count: 1,
        sources_truncated: false,
        scan_elapsed_ms: 1,
    }
}

fn scan_result() -> CleanupScanResult {
    CleanupScanResult {
        schema_version: "1.7".to_string(),
        custom_scan_id: None,
        missing_custom_root_count: 0,
        scanned_at_ms: 10,
        disk: DiskInfo {
            name: "fixture".to_string(),
            mount_point: "/fixture".to_string(),
            total_bytes: 100,
            available_bytes: 50,
            used_bytes: 50,
        },
        rules: vec![
            scan_rule("safe.large", RiskLevel::Safe, true, 40),
            scan_rule("safe.small", RiskLevel::Safe, true, 20),
            scan_rule("recoverable", RiskLevel::Recoverable, true, 80),
            scan_rule("manual", RiskLevel::Safe, false, 90),
        ],
        application_icons: Vec::new(),
        warning_counts_by_rule: Vec::new(),
        warning_count: 0,
        safe_bytes: 60,
        reclaimable_bytes: 230,
        applicability_elapsed_ms: 1,
        applicable_rule_count: 4,
        filtered_rule_count: 0,
        inventory_application_count: 0,
        inventory_process_count: 0,
        elapsed_ms: 1,
    }
}

#[test]
fn automation_plan_never_promotes_recoverable_or_manual_rules() {
    let plan = CleanupPlanService::create(&scan_result(), CleanupAutomationProfile::default())
        .expect("the fixture plan should be created");

    assert_eq!(plan.rule_ids, vec!["safe.large", "safe.small"]);
    assert_eq!(plan.expected_bytes, 60);
    CleanupPlanService::validate(&plan).expect("the generated plan should validate");
}

#[test]
fn automation_limits_only_reduce_the_safe_default_set() {
    let profile = CleanupAutomationProfile {
        max_rule_count: 10,
        max_reclaimable_bytes: Some(30),
        ..CleanupAutomationProfile::default()
    };
    let plan = CleanupPlanService::create(&scan_result(), profile).expect("the smaller safe rule should fit the limit");

    assert_eq!(plan.rule_ids, vec!["safe.small"]);
    assert_eq!(plan.expected_bytes, 20);
}

#[test]
fn modified_plan_is_rejected() {
    let mut plan = CleanupPlanService::create(&scan_result(), CleanupAutomationProfile::default())
        .expect("the fixture plan should be created");
    plan.expected_bytes += 1;

    let error = CleanupPlanService::validate(&plan).expect_err("an edited plan must fail integrity validation");
    assert_eq!(error, "cleanup plan integrity validation failed");
}

#[test]
fn live_scan_cannot_promote_a_planned_rule_after_policy_changes() {
    let mut scan = scan_result();
    let plan = CleanupPlanService::create(&scan, CleanupAutomationProfile::default())
        .expect("the fixture plan should be created");
    scan.rules
        .iter_mut()
        .find(|rule| rule.rule_id == "safe.large")
        .expect("the fixture rule must exist")
        .risk = RiskLevel::Recoverable;

    let error = CleanupPlanService::validate_against_scan(&plan, &scan)
        .expect_err("a policy change must invalidate unattended execution");

    assert!(error.contains("no longer eligible"));
}

#[test]
fn created_plan_passes_its_own_scan_and_yields_a_request() {
    let scan = scan_result();
    let plan = CleanupPlanService::create_at(&scan, CleanupAutomationProfile::default(), 1_700_000_000_000)
        .expect("the fixture plan should be created");
    assert_eq!(plan.created_at_ms, 1_700_000_000_000);
    assert_eq!(plan.source_scan_at_ms, 10);
    assert_eq!(plan.plan_hash.len(), 64);
    assert_eq!(plan.plan_id, format!("cleanup-plan-{}", &plan.plan_hash[..16]));
    CleanupPlanService::validate_against_scan(&plan, &scan).expect("a fresh plan matches its scan");
    let request = CleanupPlanService::execution_request(&plan, true).expect("a valid plan yields a request");
    assert_eq!(request.rule_ids, plan.rule_ids);
    assert!(request.dry_run);
    let again = CleanupPlanService::create_at(&scan, CleanupAutomationProfile::default(), 1_700_000_000_000)
        .expect("the fixture plan should be created");
    assert_eq!(again.plan_hash, plan.plan_hash);
    let later = CleanupPlanService::create_at(&scan, CleanupAutomationProfile::default(), 1_700_000_000_001)
        .expect("the fixture plan should be created");
    assert_ne!(later.plan_hash, plan.plan_hash);
}

#[test]
fn profile_errors_name_the_broken_limit() {
    let mut profile = CleanupAutomationProfile::default();
    profile.schema_version = 2;
    assert_eq!(
        CleanupPlanService::validate_profile(&profile).unwrap_err(),
        "unsupported cleanup automation profile schema version: 2"
    );
    let profile = CleanupAutomationProfile { max_rule_count: 0, ..CleanupAutomationProfile::default() };
    assert_eq!(
        CleanupPlanService::validate_profile(&profile).unwrap_err(),
        "cleanup automation profile maxRuleCount must be between 1 and 100"
    );
    let profile = CleanupAutomationProfile { max_reclaimable_bytes: Some(0), ..CleanupAutomationProfile::default() };
    assert_eq!(
        CleanupPlanService::validate_profile(&profile).unwrap_err(),
        "cleanup automation profile maxReclaimableBytes must be greater than zero"
    );
    let profile = CleanupAutomationProfile {
        excluded_rule_ids: vec!["a".to_string(), " ".to_string()],
        ..CleanupAutomationProfile::default()
    };
    assert_eq!(
        CleanupPlanService::validate_profile(&profile).unwrap_err(),
        "cleanup automation profile contains an empty rule ID"
    );
    let profile = CleanupAutomationProfile {
        excluded_rule_ids: vec!["a".to_string(), "a".to_string()],
        ..CleanupAutomationProfile::default()
    };
    assert_eq!(
        CleanupPlanService::validate_profile(&profile).unwrap_err(),
        "cleanup automation profile contains duplicate rule IDs"
    );
    assert!(CleanupPlanService::validate_profile(&CleanupAutomationProfile::default()).is_ok());
}

#[test]
fn excluded_and_capped_rules_shape_the_plan() {
    let profile = CleanupAutomationProfile {
        max_rule_count: 1,
        ..CleanupAutomationProfile::default()
    };
    let plan = CleanupPlanService::create(&scan_result(), profile).expect("one rule fits");
    assert_eq!(plan.rule_ids, vec!["safe.large"]);
    let profile = CleanupAutomationProfile {
        excluded_rule_ids: vec!["safe.large".to_string(), "safe.small".to_string()],
        ..CleanupAutomationProfile::default()
    };
    assert_eq!(
        CleanupPlanService::create(&scan_result(), profile).unwrap_err(),
        "no low-risk default cleanup items match the automation profile"
    );
}

#[test]
fn equal_sizes_rank_by_rule_id_and_the_hash_is_lowercase_hex() {
    let mut scan = scan_result();
    scan.rules = vec![
        scan_rule("safe.b", RiskLevel::Safe, true, 20),
        scan_rule("safe.a", RiskLevel::Safe, true, 20),
        scan_rule("safe.c", RiskLevel::Safe, true, 30),
    ];
    let profile = CleanupAutomationProfile { max_rule_count: 2, ..CleanupAutomationProfile::default() };
    let plan = CleanupPlanService::create(&scan, profile).expect("two rules fit");
    assert_eq!(plan.rule_ids, vec!["safe.c", "safe.a"]);
    assert_eq!(plan.plan_hash.len(), 64);
    assert!(plan.plan_hash.chars().all(|c| c.is_ascii_digit() || ('a'..='f').contains(&c)));
}

#[test]
fn every_single_field_edit_fails_validation() {
    let plan = CleanupPlanService::create(&scan_result(), CleanupAutomationProfile::default())
        .expect("the fixture plan should be created");
    assert!(CleanupPlanService::validate(&plan).is_ok());
    let edits: Vec<Box<dyn Fn(&mut mangodisk::models::CleanupPlan)>> = vec![
        Box::new(|p| p.created_at_ms += 1),
        Box::new(|p| p.source_scan_at_ms += 1),
        Box::new(|p| p.source_scan_schema_version.push('x')),
        Box::new(|p| p.rule_ids.push("safe.other".to_string())),
        Box::new(|p| p.expected_bytes += 1),
        Box::new(|p| p.profile.max_rule_count -= 1),
        Box::new(|p| p.profile.max_reclaimable_bytes = Some(1)),
        Box::new(|p| p.profile.excluded_rule_ids.push("manual".to_string())),
        Box::new(|p| p.plan_hash = "0".repeat(64)),
        Box::new(|p| p.plan_id.push('x')),
    ];
    for edit in edits {
        let mut edited = plan.clone();
        edit(&mut edited);
        assert!(CleanupPlanService::validate(&edited).is_err());
    }
}
