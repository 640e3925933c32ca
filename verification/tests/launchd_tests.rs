use mangodisk::launchd::{
    enclosing_app_bundle, owner_from_bundle, owner_outside_bundle, BundleInfo, SignatureEvidence,
    PlatformStartupSummarySource,
};
use mangodisk::launchd::{directory_issue, entry_issue, is_property_list, DirectoryListing, PropertyListEntry};
use mangodisk::launchd::{
    artifact_from_job, associated_bundle_identifier, check_change_preconditions, check_removal_boundary,
    configured_state, coverage_reason, external_volume_root, has_launchd_identity, launchctl_change,
    launchd_domain_target, launchd_sources_for_home, launchd_target_path, launchd_triggers, parse_disabled_overrides,
    select_change_source, source_result, target_kind, target_presence_from, unresolved_owner, AssociatedIdentifiers,
    LaunchdDomain, LaunchdJob, LaunchdSource, PlatformStartupConfiguredState, PlatformStartupControlCapability,
    PlatformStartupCoverageReason, PlatformStartupCoverageStatus, PlatformStartupDesiredState,
    PlatformStartupDiagnosticCode, PlatformStartupIdentityConfidence, PlatformStartupScope, PlatformStartupSourceKind,
    PlatformStartupTargetKind, PlatformStartupTrigger, PlatformStartupTrustState, ScanIssue, TargetPresence,
};
use mangodisk::platform::PlatformErrorCode;

fn source(kind: PlatformStartupSourceKind) -> LaunchdSource {
    LaunchdSource {
        source_id: "test.launchd",
        paths: Vec::new(),
        source_kind: kind,
        scope: PlatformStartupScope::CurrentUser,
        capability: PlatformStartupControlCapability::Toggleable,
        domain: LaunchdDomain::Gui,
        system_owned: false,
    }
}

fn job() -> LaunchdJob {
    LaunchdJob {
        label: None,
        program: None,
        program_arguments: Vec::new(),
        disabled: None,
        run_at_load: None,
        associated_bundle_identifiers: AssociatedIdentifiers::Absent,
        keys: Vec::new(),
    }
}

fn lookup(values: &[(String, bool)], label: &str) -> Option<bool> {
    values.iter().find(|(l, _)| l == label).map(|(_, v)| *v)
}

/// Builds the artifact the way a scan does: presence from the filesystem
/// checks given, the owner unresolved (no bundle index).
fn artifact(job: &LaunchdJob, plist: &str, source: &LaunchdSource, exists: Option<bool>) -> mangodisk::launchd::PlatformStartupArtifact {
    let target = launchd_target_path(job);
    let presence = match &target {
        Some(t) => target_presence_from(t, None, exists),
        None => TargetPresence::Missing,
    };
    let resolved = target.as_ref().map(|_| (unresolved_owner(), PlatformStartupTrustState::Unknown));
    let overrides: Vec<(String, bool)> = Vec::new();
    artifact_from_job(job, plist, None, source, Some(&overrides), presence, resolved)
}

#[test]
fn run_at_load_uses_scope_appropriate_trigger() {
    let mut j = job();
    j.run_at_load = Some(true);
    j.keys = vec!["RunAtLoad".to_string()];

    assert_eq!(launchd_triggers(&j, PlatformStartupSourceKind::LaunchAgent), vec![PlatformStartupTrigger::UserLogon]);
    assert_eq!(launchd_triggers(&j, PlatformStartupSourceKind::LaunchDaemon), vec![PlatformStartupTrigger::Boot]);
}

#[test]
fn event_only_item_is_not_reported_as_login_startup() {
    let mut j = job();
    j.keys = vec!["WatchPaths".to_string()];

    assert_eq!(launchd_triggers(&j, PlatformStartupSourceKind::LaunchAgent), vec![PlatformStartupTrigger::Event]);
    assert_eq!(launchd_triggers(&job(), PlatformStartupSourceKind::LaunchAgent), vec![PlatformStartupTrigger::Unknown]);
}

#[test]
fn disabled_override_takes_precedence_over_plist_default() {
    let overrides = vec![("com.example.agent".to_string(), true)];

    assert_eq!(
        configured_state(Some(false), Some("com.example.agent"), Some(&overrides)),
        PlatformStartupConfiguredState::Disabled
    );
    assert_eq!(configured_state(None, Some("other"), Some(&overrides)), PlatformStartupConfiguredState::Enabled);
    assert_eq!(configured_state(None, Some("other"), None), PlatformStartupConfiguredState::Unknown);
    assert_eq!(configured_state(Some(true), None, None), PlatformStartupConfiguredState::Disabled);
}

#[test]
fn disabled_overrides_accept_current_launchctl_words() {
    let values = parse_disabled_overrides(
        r#"
disabled services = {
    "homebrew.mxcl.mysql@8.4" => disabled,
    "com.example.enabled" => enabled
}
"#,
    );

    assert_eq!(lookup(&values, "homebrew.mxcl.mysql@8.4"), Some(true));
    assert_eq!(lookup(&values, "com.example.enabled"), Some(false));
}

#[test]
fn disabled_overrides_keep_legacy_boolean_compatibility() {
    let values = parse_disabled_overrides(
        r#"
disabled services = {
    "com.example.disabled" => true;
    "com.example.enabled" => false;
}
"#,
    );

    assert_eq!(lookup(&values, "com.example.disabled"), Some(true));
    assert_eq!(lookup(&values, "com.example.enabled"), Some(false));
}

#[test]
fn later_overrides_win_and_labels_come_out_ordered() {
    let values = parse_disabled_overrides("\"b\" => true\r\n\"a\" => enabled,\n\"b\" => false\nnoise => maybe\n \"\" => true\n");
    assert_eq!(values, vec![("a".to_string(), false), ("b".to_string(), false)]);
}

#[test]
fn missing_target_remains_visible_with_diagnostics() {
    let mut j = job();
    j.label = Some("com.example.missing".to_string());

    let a = artifact(&j, "/Library/LaunchAgents/com.example.missing.plist", &source(PlatformStartupSourceKind::LaunchAgent), None);

    assert_eq!(a.display_name, "com.example.missing");
    assert_eq!(a.configuration_path.as_deref(), Some("/Library/LaunchAgents/com.example.missing.plist"));
    assert!(a.diagnostics.contains(&PlatformStartupDiagnosticCode::MissingTarget));
    assert_eq!(a.target.kind, PlatformStartupTargetKind::Unknown);
    assert_eq!(a.provider_item_id, "com.example.missing:/Library/LaunchAgents/com.example.missing.plist");
}

#[test]
fn missing_launchd_label_is_visible_but_not_manageable() {
    let mut j = job();
    j.program = Some("/usr/bin/example".to_string());

    let a = artifact(&j, "/Library/LaunchAgents/example.plist", &source(PlatformStartupSourceKind::LaunchAgent), Some(true));

    assert!(a.diagnostics.contains(&PlatformStartupDiagnosticCode::MissingIdentity));
    assert_eq!(a.control_capability, PlatformStartupControlCapability::ViewOnly);
    assert_eq!(a.display_name, "example");
    assert_eq!(a.target.executable_name.as_deref(), Some("example"));
}

#[test]
fn explicit_bundle_association_groups_a_residual_launchd_item() {
    let mut j = job();
    j.label = Some("com.macpaw.CleanMyMac5.Updater".to_string());
    j.program = Some("/Applications/CleanMyMac_5.app/Contents/MacOS/CleanMyMac_5".to_string());
    j.associated_bundle_identifiers = AssociatedIdentifiers::Text("com.macpaw.CleanMyMac5".to_string());

    let a = artifact(
        &j,
        "/Library/LaunchAgents/com.macpaw.CleanMyMac5.Updater.plist",
        &source(PlatformStartupSourceKind::LaunchAgent),
        Some(false),
    );

    assert_eq!(a.owner.identity_key.as_deref(), Some("bundle:com.macpaw.CleanMyMac5"));
    assert!(a.diagnostics.contains(&PlatformStartupDiagnosticCode::MissingTarget));
    assert_eq!(a.owner.confidence, PlatformStartupIdentityConfidence::Exact);
    assert_eq!(a.target.kind, PlatformStartupTargetKind::Application);
}

#[test]
fn unresolved_bundle_association_keeps_an_existing_target_safe() {
    let mut j = job();
    j.label = Some("com.example.external.helper".to_string());
    j.program = Some("/bin/sh".to_string());
    j.associated_bundle_identifiers = AssociatedIdentifiers::Text("com.example.ExternalApplication".to_string());

    let a = artifact(
        &j,
        "/Library/LaunchAgents/com.example.external.helper.plist",
        &source(PlatformStartupSourceKind::LaunchAgent),
        Some(true),
    );

    assert!(!a.diagnostics.contains(&PlatformStartupDiagnosticCode::MissingTarget));
    assert_eq!(a.owner.identity_key.as_deref(), Some("bundle:com.example.ExternalApplication"));
}

#[test]
fn relative_program_target_is_not_claimed_as_missing() {
    let mut j = job();
    j.label = Some("com.example.relative.helper".to_string());
    j.program_arguments = vec!["sh".to_string(), "-c".to_string(), "true".to_string()];

    let a = artifact(
        &j,
        "/Library/LaunchAgents/com.example.relative.helper.plist",
        &source(PlatformStartupSourceKind::LaunchAgent),
        Some(false),
    );

    assert!(!a.diagnostics.contains(&PlatformStartupDiagnosticCode::MissingTarget));
    assert_eq!(a.target.arguments, vec!["-c".to_string(), "true".to_string()]);
    assert_eq!(a.target.kind, PlatformStartupTargetKind::Executable);
}

#[test]
fn unavailable_external_volume_is_not_claimed_as_a_missing_target() {
    let path = "/Volumes/MangoDiskUnavailableVolume42/agent";
    assert_eq!(external_volume_root(path).as_deref(), Some("/Volumes/MangoDiskUnavailableVolume42"));
    assert_eq!(target_presence_from(path, Some(false), Some(false)), TargetPresence::Unknown);
    assert_eq!(target_presence_from(path, Some(true), Some(false)), TargetPresence::Missing);
    assert_eq!(target_presence_from("/bin/sh", None, Some(true)), TargetPresence::Present);
}

#[test]
fn ambiguous_bundle_associations_do_not_merge_unrelated_items() {
    let mut j = job();
    j.associated_bundle_identifiers =
        AssociatedIdentifiers::List(vec!["com.example.First".to_string(), "com.example.Second".to_string()]);
    assert_eq!(associated_bundle_identifier(&j), None);
    j.associated_bundle_identifiers = AssociatedIdentifiers::List(vec!["  ".to_string(), " com.example.Only ".to_string()]);
    assert_eq!(associated_bundle_identifier(&j).as_deref(), Some("com.example.Only"));
}

#[test]
fn empty_launchd_property_lists_are_not_startup_items() {
    assert!(!has_launchd_identity(&job()));

    let mut labeled = job();
    labeled.label = Some("com.example.agent".to_string());
    assert!(has_launchd_identity(&labeled));

    let mut argument_only = job();
    argument_only.program_arguments = vec!["/usr/bin/example".to_string()];
    assert!(has_launchd_identity(&argument_only));

    let mut blank = job();
    blank.label = Some("   ".to_string());
    assert!(!has_launchd_identity(&blank));
}

#[test]
fn elevated_snapshot_uses_requesting_user_domain() {
    assert_eq!(launchd_domain_target(LaunchdDomain::Gui, Some(501), 0), "gui/501");
    assert_eq!(launchd_domain_target(LaunchdDomain::System, Some(501), 0), "system");
    assert_eq!(launchd_domain_target(LaunchdDomain::Gui, None, 502), "gui/502");
}

#[test]
fn target_kinds_follow_bundles_and_script_extensions() {
    assert_eq!(target_kind(None), PlatformStartupTargetKind::Unknown);
    assert_eq!(target_kind(Some("/Applications/X.APP/Contents/MacOS/x")), PlatformStartupTargetKind::Application);
    assert_eq!(target_kind(Some("/usr/local/bin/run.SH")), PlatformStartupTargetKind::Script);
    assert_eq!(target_kind(Some("/usr/local/bin/.sh")), PlatformStartupTargetKind::Executable);
    assert_eq!(target_kind(Some("/usr/bin/true")), PlatformStartupTargetKind::Executable);
}

#[test]
fn coverage_prefers_access_denial() {
    assert_eq!(coverage_reason(&vec![]), None);
    assert_eq!(
        coverage_reason(&vec![ScanIssue::StateUnavailable, ScanIssue::InvalidData]),
        Some(PlatformStartupCoverageReason::InvalidData)
    );
    assert_eq!(
        coverage_reason(&vec![ScanIssue::InvalidData, ScanIssue::AccessDenied]),
        Some(PlatformStartupCoverageReason::AccessDenied)
    );
    let r = source_result("macos.launchd.user_agents", &vec![ScanIssue::StateUnavailable], Vec::new(), 3);
    assert_eq!(r.status, PlatformStartupCoverageStatus::Partial);
    assert_eq!(r.reason, Some(PlatformStartupCoverageReason::StateUnavailable));
}

#[test]
fn sources_and_change_checks_guard_privilege_and_boundaries() {
    let sources = launchd_sources_for_home(Some("/Users/example"));
    assert_eq!(sources.len(), 5);
    assert_eq!(sources[0].paths, vec!["/Users/example/Library/LaunchAgents".to_string()]);
    assert!(launchd_sources_for_home(None)[0].paths.is_empty());
    let denied = select_change_source(launchd_sources_for_home(None), "macos.launchd.local_agents", false);
    assert_eq!(denied.err().map(|e| e.code), Some(PlatformErrorCode::AccessDenied));
    let allowed = select_change_source(launchd_sources_for_home(None), "macos.launchd.local_agents", true);
    assert!(allowed.is_ok());
    let missing = select_change_source(launchd_sources_for_home(None), "macos.launchd.other", true);
    assert_eq!(missing.err().map(|e| e.code), Some(PlatformErrorCode::Unsupported));

    let mut j = job();
    j.label = Some("com.example.removed".to_string());
    j.program = Some("/usr/bin/true".to_string());
    let mut user_source = source(PlatformStartupSourceKind::LaunchAgent);
    user_source.paths = vec!["/tmp/fixture-agents".to_string()];
    let a = artifact(&j, "/tmp/fixture-agents/com.example.removed.plist", &user_source, Some(true));
    assert!(check_change_preconditions(&a, true, false).is_ok());
    assert_eq!(check_change_preconditions(&a, false, false).err().map(|e| e.code), Some(PlatformErrorCode::ItemChanged));
    assert_eq!(check_change_preconditions(&a, true, true).err().map(|e| e.code), Some(PlatformErrorCode::Unsupported));
    assert!(check_removal_boundary(&user_source, "/tmp/fixture-agents/com.example.removed.plist", true, false).is_ok());
    assert!(check_removal_boundary(&user_source, "/tmp/fixture-agents/nested/x.plist", true, false).is_err());
    assert!(check_removal_boundary(&user_source, "/tmp/fixture-agents/x.txt", true, false).is_err());
    assert!(check_removal_boundary(&user_source, "/tmp/fixture-agents/x.PLIST", true, true).is_err());
    let change = launchctl_change(
        LaunchdDomain::Gui,
        None,
        501,
        "com.example.removed",
        PlatformStartupConfiguredState::Enabled,
        PlatformStartupDesiredState::Disabled,
    );
    assert_eq!(change, Some(("disable".to_string(), "gui/501/com.example.removed".to_string())));
    assert_eq!(
        launchctl_change(
            LaunchdDomain::System,
            None,
            0,
            "x",
            PlatformStartupConfiguredState::Enabled,
            PlatformStartupDesiredState::Enabled
        ),
        None
    );
}

#[test]
fn the_innermost_application_bundle_owns_a_target() {
    assert_eq!(
        enclosing_app_bundle("/Applications/CleanMyMac_5.app/Contents/MacOS/CleanMyMac_5"),
        Some("/Applications/CleanMyMac_5.app".to_string())
    );
    assert_eq!(
        enclosing_app_bundle("/Applications/Outer.app/Contents/Helpers/Inner.APP/Contents/MacOS/inner"),
        Some("/Applications/Outer.app/Contents/Helpers/Inner.APP".to_string())
    );
    assert_eq!(enclosing_app_bundle("/Applications/Tool.app"), Some("/Applications/Tool.app".to_string()));
    assert_eq!(enclosing_app_bundle("Local.app/run"), Some("Local.app".to_string()));
    assert_eq!(enclosing_app_bundle("/usr/bin/example"), None);
    assert_eq!(enclosing_app_bundle("/opt/.app"), None);
}

#[test]
fn bundle_metadata_names_the_owner() {
    let unsigned = || SignatureEvidence { team_id: None, publisher: None, trust: PlatformStartupTrustState::Unknown };
    let info = BundleInfo {
        identifier: Some("com.macpaw.CleanMyMac5".to_string()),
        display_name: Some("  ".to_string()),
        bundle_name: Some("CleanMyMac".to_string()),
        short_version: Some("5.0".to_string()),
    };
    let (owner, trust) = owner_from_bundle("/Applications/CleanMyMac_5.app", Some(info), unsigned());
    assert_eq!(owner.identity_key.as_deref(), Some("bundle:com.macpaw.CleanMyMac5"));
    assert_eq!(owner.name.as_deref(), Some("CleanMyMac"));
    assert_eq!(owner.version.as_deref(), Some("5.0"));
    assert_eq!(owner.icon_path.as_deref(), Some("/Applications/CleanMyMac_5.app"));
    assert_eq!(owner.confidence, PlatformStartupIdentityConfidence::Exact);
    assert_eq!(owner.summary_source, PlatformStartupSummarySource::BundleMetadata);
    assert_eq!(trust, PlatformStartupTrustState::Unknown);

    let bare = BundleInfo { identifier: None, display_name: None, bundle_name: None, short_version: None };
    let (owner, _) = owner_from_bundle("/Applications/Tool.app", Some(bare), unsigned());
    assert_eq!(owner.name.as_deref(), Some("Tool"));
    assert_eq!(owner.identity_key, None);
    assert_eq!(owner.confidence, PlatformStartupIdentityConfidence::Strong);

    let (owner, trust) = owner_from_bundle("/Applications/Broken.app", None, unsigned());
    assert_eq!(owner, unresolved_owner());
    assert_eq!(trust, PlatformStartupTrustState::Unknown);
}

#[test]
fn targets_outside_bundles_are_known_by_their_signing_team() {
    let signed = SignatureEvidence {
        team_id: Some("ABCDE12345".to_string()),
        publisher: Some("Example Ltd".to_string()),
        trust: PlatformStartupTrustState::Trusted,
    };
    let (owner, trust) = owner_outside_bundle("/usr/local/bin/agent", true, signed);
    assert_eq!(owner.identity_key.as_deref(), Some("team:ABCDE12345"));
    assert_eq!(owner.name.as_deref(), Some("agent"));
    assert_eq!(owner.publisher.as_deref(), Some("Example Ltd"));
    assert_eq!(owner.icon_path.as_deref(), Some("/usr/local/bin/agent"));
    assert_eq!(owner.confidence, PlatformStartupIdentityConfidence::Strong);
    assert_eq!(trust, PlatformStartupTrustState::Trusted);

    let unsigned = SignatureEvidence { team_id: None, publisher: None, trust: PlatformStartupTrustState::Unknown };
    let (owner, _) = owner_outside_bundle("/usr/local/bin/missing", false, unsigned);
    assert_eq!(owner.identity_key, None);
    assert_eq!(owner.icon_path, None);
    assert_eq!(owner.confidence, PlatformStartupIdentityConfidence::Unresolved);
}

#[test]
fn unreadable_launchd_entries_limit_coverage() {
    assert_eq!(directory_issue(DirectoryListing::Listed), None);
    assert_eq!(directory_issue(DirectoryListing::NotFound), None);
    assert_eq!(directory_issue(DirectoryListing::PermissionDenied), Some(ScanIssue::AccessDenied));
    assert_eq!(directory_issue(DirectoryListing::Failed), Some(ScanIssue::InvalidData));
    for silent in [PropertyListEntry::NotPropertyList, PropertyListEntry::NotRegularFile, PropertyListEntry::Job] {
        assert_eq!(entry_issue(silent), None);
    }
    for invalid in [
        PropertyListEntry::Unreadable,
        PropertyListEntry::MetadataUnreadable,
        PropertyListEntry::Unparsable,
        PropertyListEntry::NotDictionary,
        PropertyListEntry::NoIdentity,
    ] {
        assert_eq!(entry_issue(invalid), Some(ScanIssue::InvalidData));
    }
    assert!(is_property_list("/Library/LaunchAgents/com.example.agent.plist"));
    assert!(is_property_list("/Library/LaunchAgents/com.example.agent.PLIST"));
    assert!(!is_property_list("/Library/LaunchAgents/com.example.agent.plist.bak"));
    assert!(!is_property_list("/Library/LaunchAgents/.plist"));
}
