use mangodisk::application_icons::{
    application_icons, application_process_groups, cleanup_rule_application_identifiers, ApplicabilityProbe,
    IconLookup,
};
use mangodisk::models::{CleanupCategory, CleanupGroup, RiskLevel, ScanItemStatus, ScanRuleResult};

fn blocked_rule(rule_id: &str, running: &[&str]) -> ScanRuleResult {
    ScanRuleResult {
        rule_id: rule_id.to_string(),
        category: CleanupCategory::Browser,
        group: CleanupGroup::Browser,
        risk: RiskLevel::Safe,
        default_selected: true,
        recommended_selected: true,
        bytes: 10,
        file_count: 1,
        available: true,
        selectable: true,
        status: ScanItemStatus::RequiresClose,
        running_processes: running.iter().map(|name| name.to_string()).collect(),
        requires_app_close: true,
        sources: Vec::new(),
        source_count: 0,
        sources_truncated: false,
        scan_elapsed_ms: 0,
    }
}

fn strings(values: &[&str]) -> Vec<String> {
    values.iter().map(|value| value.to_string()).collect()
}

#[test]
fn icon_identifiers_include_only_positive_application_probes() {
    let probes = vec![ApplicabilityProbe::AnyOf(vec![
        ApplicabilityProbe::ApplicationInstalled(vec!["bot.zenai".to_string(), "ZenAion".to_string()]),
        ApplicabilityProbe::AllOf(vec![ApplicabilityProbe::ApplicationVersion {
            identifier: "com.openai.codex".to_string(),
            minimum: None,
            maximum_exclusive: None,
        }]),
        ApplicabilityProbe::Not(Box::new(ApplicabilityProbe::ApplicationInstalled(vec![
            "excluded.app".to_string(),
        ]))),
    ])];

    assert_eq!(
        cleanup_rule_application_identifiers(&probes),
        vec!["bot.zenai".to_string(), "com.openai.codex".to_string(), "ZenAion".to_string(),]
    );
}

#[test]
fn icon_identifiers_keep_the_first_spelling_of_each_identifier() {
    let probes = vec![
        ApplicabilityProbe::ApplicationInstalled(strings(&["com.Example.App", "org.other"])),
        ApplicabilityProbe::ProcessRunning(strings(&["ignored"])),
        ApplicabilityProbe::ApplicationVersion {
            identifier: "COM.example.app".to_string(),
            minimum: Some("1.0".to_string()),
            maximum_exclusive: None,
        },
    ];
    assert_eq!(cleanup_rule_application_identifiers(&probes), strings(&["com.Example.App", "org.other"]));
    assert!(cleanup_rule_application_identifiers(&Vec::new()).is_empty());
}

#[test]
fn processes_group_by_name_ignoring_case_and_collect_rule_identifiers() {
    let rules = vec![
        blocked_rule("browser.chrome", &["Google Chrome", "Slack"]),
        blocked_rule("browser.chrome-code-cache", &["google chrome"]),
        blocked_rule("app.unlisted", &["Slack"]),
    ];
    let identifiers = vec![
        ("browser.chrome".to_string(), strings(&["com.google.Chrome"])),
        ("browser.chrome-code-cache".to_string(), strings(&["COM.GOOGLE.CHROME", "com.google.Chrome.canary"])),
    ];
    let groups = application_process_groups(&rules, &identifiers);
    assert_eq!(groups.len(), 2);
    assert_eq!(groups[0].process_name, "Google Chrome");
    assert_eq!(groups[0].identifiers, strings(&["com.google.Chrome", "com.google.Chrome.canary"]));
    assert_eq!(groups[1].process_name, "Slack");
    assert_eq!(groups[1].identifiers, strings(&["com.google.Chrome"]));
}

#[test]
fn icons_use_the_first_lookup_that_found_one() {
    let rules = vec![blocked_rule("a", &["First", "Second", "Third"])];
    let groups = application_process_groups(&rules, &Vec::new());
    let lookups = vec![
        IconLookup {
            running_process: Some("/Applications/First.app".to_string()),
            process: Some("/Applications/Other.app".to_string()),
            identifiers: None,
        },
        IconLookup { running_process: None, process: None, identifiers: None },
        IconLookup { running_process: None, process: None, identifiers: Some("/Applications/Third.app".to_string()) },
    ];
    let icons = application_icons(groups, lookups);
    assert_eq!(icons.len(), 2);
    assert_eq!(icons[0].process_name, "First");
    assert_eq!(icons[0].icon_path, "/Applications/First.app");
    assert_eq!(icons[1].process_name, "Third");
    assert_eq!(icons[1].icon_path, "/Applications/Third.app");
}
