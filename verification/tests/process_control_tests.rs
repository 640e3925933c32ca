use mangodisk::process_control::{
    all_invalid, any_remaining, can_signal_process, close_results, matching_processes_in_snapshot, normalize_name,
    parse_process_line, parse_process_snapshot, process_matches_path, processes_to_request, snapshot_error_results,
    unique_display_names, validate_target, ApplicationProcessTarget, ProcessInstance,
};
use mangodisk::platform::{PlatformError, PlatformErrorCode};

const OWN_PID: i32 = 7;

fn process(pid: i32, path: &str, name: &str) -> ProcessInstance {
    ProcessInstance { pid, executable_path: path.to_string(), display_name: name.to_string() }
}

#[test]
fn parses_process_paths_with_spaces() {
    let process = parse_process_line("  42 /Applications/WPS Office.app/Contents/MacOS/wpsoffice")
        .expect("the process line should parse");
    assert_eq!(process.pid, 42);
    assert_eq!(process.display_name, "wpsoffice");
}

#[test]
fn bundle_target_matches_its_executable() {
    let process = process(42, "/Applications/WPS Office.app/Contents/MacOS/wpsoffice", "wpsoffice");
    let target: Vec<char> = "/Applications/WPS Office.app".chars().collect();
    assert!(process_matches_path(&process, &target));
}

#[test]
fn exact_paths_disable_same_name_fallback() {
    let snapshot = vec![process(42, "/Applications/Other.app/Contents/MacOS/SharedHelper", "SharedHelper")];
    let target = ApplicationProcessTarget {
        executable_names: vec!["SharedHelper".to_string()],
        executable_paths: vec!["/Applications/Expected.app/Contents/MacOS/SharedHelper".to_string()],
    };

    assert!(matching_processes_in_snapshot(&target, &snapshot, OWN_PID).is_empty());
}

#[test]
fn name_target_matches_bundle_contained_helpers() {
    let snapshot = vec![process(
        42,
        "/System/Applications/Podcasts.app/Contents/XPCServices/PodcastSync.xpc/Contents/MacOS/PodcastSync",
        "PodcastSync",
    )];
    let target = ApplicationProcessTarget { executable_names: vec!["Podcasts".to_string()], executable_paths: Vec::new() };

    assert_eq!(
        matching_processes_in_snapshot(&target, &snapshot, OWN_PID).len(),
        1,
        "a helper inside the named bundle must match the close target exactly as the cleanup guard counts it as running"
    );
}

#[test]
fn name_target_ignores_unrelated_bundle_suffixes() {
    let snapshot = vec![process(42, "/Applications/Podcasts Utility.app/Contents/MacOS/Podcasts Utility", "Podcasts Utility")];
    let target = ApplicationProcessTarget { executable_names: vec!["Podcasts".to_string()], executable_paths: Vec::new() };

    assert!(
        matching_processes_in_snapshot(&target, &snapshot, OWN_PID).is_empty(),
        "only an exact bundle-name match may attribute a helper to the target application"
    );
}

#[test]
fn refuses_self_and_stale_executable_identity() {
    let p = process(OWN_PID, "/usr/bin/self", "self");
    assert!(!can_signal_process(&p, OWN_PID, Some("/usr/bin/self")));
    let other = process(43, "/usr/bin/tool", "tool");
    assert!(!can_signal_process(&other, OWN_PID, Some("/nonexistent/changed-executable")));
    assert!(!can_signal_process(&other, OWN_PID, None));
    assert!(can_signal_process(&other, OWN_PID, Some("/usr/bin/tool/")));
    assert!(!can_signal_process(&process(0, "/usr/bin/tool", "tool"), OWN_PID, Some("/usr/bin/tool")));
}

#[test]
fn process_lines_reject_malformed_input() {
    assert!(parse_process_line("").is_none());
    assert!(parse_process_line("42").is_none());
    assert!(parse_process_line("x42 /bin/sh").is_none());
    assert!(parse_process_line("99999999999 /bin/sh").is_none());
    let negative = parse_process_line("-5 /bin/sh").expect("a signed pid parses");
    assert_eq!(negative.pid, -5);
    let root = parse_process_line("1 /").expect("a root path parses");
    assert_eq!(root.display_name, "/");
    let listing = parse_process_snapshot("  1 /sbin/launchd\r\nbad line\n 88 /usr/libexec/logd\n");
    let pids: Vec<i32> = listing.iter().map(|p| p.pid).collect();
    assert_eq!(pids, vec![1, 88]);
    assert_eq!(listing[0].executable_path, "/sbin/launchd");
}

#[test]
fn names_are_compared_by_lowercase_file_name() {
    assert_eq!(normalize_name("  /Applications/Safari.app/Contents/MacOS/Safari "), "safari");
    assert_eq!(normalize_name("ÉCLAIR"), "éclair");
    assert_eq!(normalize_name(".."), "");
    let own = ApplicationProcessTarget { executable_names: vec!["safari".to_string()], executable_paths: Vec::new() };
    let snapshot = vec![process(OWN_PID, "/Applications/Safari.app/Contents/MacOS/Safari", "Safari")];
    assert!(matching_processes_in_snapshot(&own, &snapshot, OWN_PID).is_empty());
}

#[test]
fn remaining_names_are_sorted_and_deduplicated_ignoring_case() {
    let processes = vec![
        process(1, "/a/zed", "zed"),
        process(2, "/a/Alpha", "Alpha"),
        process(3, "/b/alpha", "alpha"),
        process(4, "/a/beta", "beta"),
    ];
    assert_eq!(unique_display_names(&processes), vec!["Alpha".to_string(), "beta".to_string(), "zed".to_string()]);
}

#[test]
fn close_bookkeeping_matches_targets_requests_and_final_snapshot() {
    let targets = vec![
        ApplicationProcessTarget { executable_names: vec!["tool".to_string()], executable_paths: Vec::new() },
        ApplicationProcessTarget { executable_names: Vec::new(), executable_paths: Vec::new() },
    ];
    let validation: Vec<Option<PlatformError>> = targets.iter().map(|t| validate_target(t).err()).collect();
    assert!(validation[0].is_none());
    assert_eq!(validation[1].as_ref().map(|e| e.code), Some(PlatformErrorCode::OperationFailed));
    assert!(!all_invalid(&validation));
    let snapshot = vec![process(10, "/bin/tool", "tool"), process(11, "/usr/bin/tool", "Tool")];
    let matched: Vec<Vec<ProcessInstance>> = targets
        .iter()
        .zip(&validation)
        .map(|(t, e)| if e.is_none() { matching_processes_in_snapshot(t, &snapshot, OWN_PID) } else { Vec::new() })
        .collect();
    let to_request = processes_to_request(&matched);
    assert_eq!(to_request.len(), 2);
    let requests = vec![(10, true), (11, false)];
    let remaining_snapshot = vec![process(11, "/usr/bin/tool", "Tool")];
    assert!(any_remaining(&targets, &validation, &remaining_snapshot, OWN_PID));
    let results = close_results(&targets, &validation, &matched, &requests, &remaining_snapshot, OWN_PID);
    let first = results[0].as_ref().ok().expect("the valid target has a result");
    assert_eq!(first.matched_process_count, 2);
    assert_eq!(first.requested_process_count, 1);
    assert_eq!(first.remaining_processes, vec!["Tool".to_string()]);
    assert!(results[1].is_err());
    let failure = PlatformError::operation_failed("snapshot failed");
    let errors = snapshot_error_results(&validation, &failure);
    assert_eq!(errors[0].as_ref().err().map(|e| e.message.as_str()), Some("snapshot failed"));
    assert_eq!(
        errors[1].as_ref().err().map(|e| e.message.as_str()),
        Some("application process target contains no identity")
    );
}
