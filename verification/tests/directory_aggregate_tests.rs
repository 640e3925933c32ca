use mangodisk::directory_aggregate::{
    direct_enumeration_strategy, join_windows_path, observe_direct_entry, record_enumeration_failure, root_check,
    windows_aggregate_result, windows_root_check, DirectPhysicalDirectories, DirectStep, DirectoryTreeSourceAggregate,
    EnumerationFailure,
};
use mangodisk::directory_aggregate::{
    aggregate_policy_code, collect_entry, collect_find_entry, empty_read_result, empty_source, file_size,
    large_fetch_is_unsupported, modified_at_ms, start_aggregate, AggregatePolicy, BulkEntry, DirectoryTask,
    DirectoryTaskQueueState, EntryKind, EntryObservation, FindEntry, PendingDirectory, QueuePop, WindowsAggregate,
};

fn entry(name: &str, kind: EntryKind, bytes: u64) -> BulkEntry {
    BulkEntry {
        name: name.to_string(),
        attribute_error: 0,
        device: 1,
        is_mount_point: false,
        kind,
        dataless: false,
        logical_bytes: bytes,
        modified_at_ms: Some(5),
    }
}

fn task(path: &str) -> DirectoryTask {
    DirectoryTask { path: path.to_string(), source_index: 0, is_root: true }
}

#[test]
fn win32_aggregate_skips_remote_only_entries() {
    let root = r"C:\fixture".to_string();
    let directory = PendingDirectory { path: root.clone(), source_index: None };
    let data = FindEntry {
        name: "x".to_string(),
        attributes: 0x0000_1000,
        remote_placeholder: true,
        size_high: 0,
        size_low: 1024,
        write_high: 0,
        write_low: 0,
    };
    let mut collection = WindowsAggregate {
        root_source: empty_source(&root),
        child_sources: Vec::new(),
        pending: Vec::new(),
        skipped_count: 0,
        remote_placeholder_count: 0,
        count_link_metadata: true,
        first_flagged_entry: None,
    };

    let obs = collect_find_entry(&directory, true, false, &data, &mut collection);

    assert!(matches!(obs, EntryObservation::NonFile));
    assert_eq!(collection.skipped_count, 1);
    assert_eq!(collection.remote_placeholder_count, 1);
    assert_eq!(collection.root_source.bytes, 0);
    assert_eq!(collection.root_source.file_count, 0);
}

#[test]
fn win32_entries_open_child_sources_at_the_root() {
    let directory = PendingDirectory { path: r"C:\fixture".to_string(), source_index: None };
    let mut collection = WindowsAggregate {
        root_source: empty_source(r"C:\fixture"),
        child_sources: Vec::new(),
        pending: Vec::new(),
        skipped_count: 0,
        remote_placeholder_count: 0,
        count_link_metadata: false,
        first_flagged_entry: None,
    };
    let dir = FindEntry { name: "cache".to_string(), attributes: 0x10, remote_placeholder: false, size_high: 0, size_low: 0, write_high: 0, write_low: 0 };
    collect_find_entry(&directory, true, false, &dir, &mut collection);
    assert_eq!(collection.child_sources.len(), 1);
    assert_eq!(collection.pending[0].source_index, Some(0));
    assert_eq!(collection.pending[0].path, r"C:\fixture\cache");
    let file = FindEntry { name: "a.bin".to_string(), attributes: 0x20, remote_placeholder: false, size_high: 1, size_low: 2, write_high: 0, write_low: 0 };
    let obs = collect_find_entry(&collection.pending[0].clone_for_test(), false, true, &file, &mut collection);
    assert!(matches!(obs, EntryObservation::File(4_294_967_298)));
    assert_eq!(collection.child_sources[0].bytes, 4_294_967_298);
    assert_eq!(collection.first_flagged_entry.as_deref(), Some("a.bin"));
    let link = FindEntry { name: "l".to_string(), attributes: 0x400, remote_placeholder: false, size_high: 0, size_low: 9, write_high: 0, write_low: 0 };
    collect_find_entry(&directory, true, false, &link, &mut collection);
    assert_eq!(collection.skipped_count, 1);
    let dot = FindEntry { name: "..".to_string(), attributes: 0x10, remote_placeholder: false, size_high: 0, size_low: 0, write_high: 0, write_low: 0 };
    assert!(matches!(collect_find_entry(&directory, true, false, &dot, &mut collection), EntryObservation::Ignored));
}

trait CloneForTest {
    fn clone_for_test(&self) -> PendingDirectory;
}

impl CloneForTest for PendingDirectory {
    fn clone_for_test(&self) -> PendingDirectory {
        PendingDirectory { path: self.path.clone(), source_index: self.source_index }
    }
}

#[test]
fn filetime_and_sizes_convert_exactly() {
    assert_eq!(file_size(1, 5), 4_294_967_301);
    assert_eq!(modified_at_ms(0, 0), None);
    let ticks: u64 = 116_444_736_000_000_000 + 12_345_678;
    assert_eq!(modified_at_ms((ticks >> 32) as u32, ticks as u32), Some(1_234));
    assert!(large_fetch_is_unsupported(1));
    assert!(large_fetch_is_unsupported(50));
    assert!(large_fetch_is_unsupported(87));
    assert!(!large_fetch_is_unsupported(5));
}

#[test]
fn bulk_entries_follow_the_policy() {
    let mut r = empty_read_result(task("/root"));
    collect_entry(1, AggregatePolicy::Cleanup, false, entry("a", EntryKind::RegularFile, 10), &mut r);
    collect_entry(1, AggregatePolicy::Cleanup, false, entry("l", EntryKind::SymbolicLink, 3), &mut r);
    collect_entry(1, AggregatePolicy::Cleanup, true, entry("d", EntryKind::Directory, 0), &mut r);
    let mut other_device = entry("m", EntryKind::Directory, 0);
    other_device.device = 2;
    collect_entry(1, AggregatePolicy::Cleanup, false, other_device, &mut r);
    assert_eq!((r.bytes, r.file_count, r.skipped_count, r.unsupported_entry_count), (10, 1, 2, 1));
    assert_eq!(r.child_directories, vec!["/root/d".to_string()]);
    assert_eq!(r.first_flagged_entry.as_deref(), Some("d"));
    let mut p = empty_read_result(task("/root"));
    collect_entry(1, AggregatePolicy::ProjectArtifact, false, entry("l", EntryKind::SymbolicLink, 3), &mut p);
    assert_eq!((p.bytes, p.file_count), (3, 1));
    let mut a = empty_read_result(task("/root"));
    collect_entry(1, AggregatePolicy::ApplicationComponent, false, entry("l", EntryKind::SymbolicLink, 3), &mut a);
    collect_entry(1, AggregatePolicy::ApplicationComponent, false, entry("f", EntryKind::Other(7), 0), &mut a);
    assert_eq!((a.bytes, a.skipped_count), (0, 1));
    assert_eq!(a.first_unsupported_entry, Some(("/root/f".to_string(), 7)));
    let mut remote = entry("r", EntryKind::RegularFile, 8);
    remote.dataless = true;
    collect_entry(1, AggregatePolicy::Cleanup, false, remote, &mut a);
    assert_eq!(a.remote_file_count, 1);
    assert_eq!(aggregate_policy_code(AggregatePolicy::ProjectArtifact), "project_artifact");
}

#[test]
fn coordinator_assigns_direct_children_their_own_sources() {
    let (mut c, root_task) = start_aggregate("/root");
    let mut first = empty_read_result(root_task);
    collect_entry(1, AggregatePolicy::Cleanup, false, entry("top.bin", EntryKind::RegularFile, 4), &mut first);
    collect_entry(1, AggregatePolicy::Cleanup, false, entry("a", EntryKind::Directory, 0), &mut first);
    collect_entry(1, AggregatePolicy::Cleanup, false, entry("b", EntryKind::Directory, 0), &mut first);
    let tasks = c.absorb(first);
    assert_eq!(tasks.len(), 2);
    assert_eq!(tasks[1].source_index, 2);
    assert_eq!(c.outstanding_tasks, 2);
    let mut queue = DirectoryTaskQueueState::new();
    queue.push_many(tasks);
    let next = match queue.pop() {
        QueuePop::Task(t) => t,
        _ => panic!("a task is waiting"),
    };
    assert_eq!(next.path, "/root/b");
    let mut deeper = empty_read_result(next);
    deeper.is_root_check();
    collect_entry(1, AggregatePolicy::Cleanup, false, entry("x", EntryKind::Directory, 0), &mut deeper);
    collect_entry(1, AggregatePolicy::Cleanup, false, entry("y.bin", EntryKind::RegularFile, 6), &mut deeper);
    let grandchildren = c.absorb(deeper);
    assert_eq!(grandchildren[0].source_index, 2);
    assert_eq!(c.sources.len(), 3);
    queue.stop();
    assert!(matches!(queue.pop(), QueuePop::Stopped));
    let mut other = DirectoryTaskQueueState::new();
    assert!(matches!(other.pop(), QueuePop::Wait));
    let done = c.finish("fixture");
    assert_eq!(done.bytes, 10);
    assert_eq!(done.file_count, 2);
    let paths: Vec<&str> = done.sources.iter().map(|s| s.path.as_str()).collect();
    assert_eq!(paths, vec!["/root", "/root/b"]);
}

trait RootCheck {
    fn is_root_check(&self);
}

impl RootCheck for mangodisk::directory_aggregate::DirectoryReadResult {
    fn is_root_check(&self) {
        assert!(!self.task.is_root);
    }
}

fn find(name: &str, attributes: u32, remote_placeholder: bool) -> FindEntry {
    FindEntry {
        name: name.to_string(),
        attributes,
        remote_placeholder,
        size_high: 0,
        size_low: 0,
        write_high: 0,
        write_low: 0,
    }
}

#[test]
fn direct_directory_enumeration_keeps_only_physical_directories() {
    let mut found = DirectPhysicalDirectories { directories: Vec::new(), observed_count: 0 };
    let root = r"C:\Users\Developer\AppData\Local";
    for entry in [
        find(".", 0x10, false),
        find("..", 0x10, false),
        find("physical", 0x10, false),
        find("file.txt", 0x20, false),
        find("junction", 0x10 | 0x400, false),
        find("cloud", 0x10, true),
    ] {
        assert!(matches!(observe_direct_entry(&mut found, root, &entry, 16), DirectStep::Continue));
    }
    assert_eq!(found.directories, vec![r"C:\Users\Developer\AppData\Local\physical".to_string()]);
    assert_eq!(found.observed_count, 4);
}

#[test]
fn direct_directory_enumeration_stops_at_the_entry_limit() {
    let mut found = DirectPhysicalDirectories { directories: Vec::new(), observed_count: 0 };
    assert!(matches!(observe_direct_entry(&mut found, "C:\\root", &find("a", 0x10, false), 2), DirectStep::Continue));
    assert!(matches!(observe_direct_entry(&mut found, "C:\\root", &find("b", 0x10, false), 2), DirectStep::Continue));
    assert!(matches!(observe_direct_entry(&mut found, "C:\\root", &find("c", 0x10, false), 2), DirectStep::Full));
    assert_eq!(found.observed_count, 2);
    assert_eq!(found.directories.len(), 2);
    assert_eq!(direct_enumeration_strategy(true), "win32-direct-physical-directory-large-fetch-v2");
    assert_eq!(direct_enumeration_strategy(false), "win32-direct-physical-directory-enumeration-v2");
}

#[test]
fn windows_paths_join_with_a_backslash() {
    assert_eq!(join_windows_path(r"C:\fixture", "cache"), r"C:\fixture\cache");
    assert_eq!(join_windows_path(r"C:\", "cache"), r"C:\cache");
    assert_eq!(join_windows_path("C:", "cache"), "C:cache");
    assert_eq!(join_windows_path("C:/fixture/", "cache"), "C:/fixture/cache");
}

fn measured_source(path: &str, bytes: u64, file_count: u64) -> DirectoryTreeSourceAggregate {
    DirectoryTreeSourceAggregate { path: path.to_string(), bytes, file_count, modified_at_ms: None }
}

#[test]
fn win32_results_keep_sources_with_files() {
    let collection = WindowsAggregate {
        root_source: measured_source(r"C:\fixture", 5, 1),
        child_sources: vec![
            measured_source(r"C:\fixture\empty", 0, 0),
            measured_source(r"C:\fixture\links", 7, 0),
            measured_source(r"C:\fixture\data", u64::MAX, 2),
        ],
        pending: Vec::new(),
        skipped_count: 3,
        remote_placeholder_count: 1,
        count_link_metadata: false,
        first_flagged_entry: Some("program-keypair.json".to_string()),
    };
    let aggregate = windows_aggregate_result(collection, false);
    let paths = aggregate.sources.iter().map(|s| s.path.as_str()).collect::<Vec<_>>();
    assert_eq!(paths, vec![r"C:\fixture", r"C:\fixture\data"]);
    assert_eq!(aggregate.bytes, u64::MAX);
    assert_eq!(aggregate.file_count, 3);
    assert_eq!(aggregate.skipped_count, 3);
    assert_eq!(aggregate.strategy, "win32-find-resident-files-v2");
    assert_eq!(aggregate.flagged_entry.as_deref(), Some("program-keypair.json"));

    let empty_root = WindowsAggregate {
        root_source: measured_source(r"C:\fixture", 0, 0),
        child_sources: Vec::new(),
        pending: Vec::new(),
        skipped_count: 0,
        remote_placeholder_count: 0,
        count_link_metadata: false,
        first_flagged_entry: None,
    };
    let aggregate = windows_aggregate_result(empty_root, true);
    assert!(aggregate.sources.is_empty());
    assert_eq!(aggregate.strategy, "win32-find-large-fetch-resident-files-v2");
}

#[test]
fn aggregate_roots_must_be_resident_physical_directories() {
    assert!(windows_root_check(true, 0x10, false).is_ok());
    assert_eq!(
        windows_root_check(true, 0x10, true).err(),
        Some("directory aggregate root is a remote placeholder".to_string())
    );
    assert_eq!(
        windows_root_check(true, 0x10 | 0x400, false).err(),
        Some("directory aggregate root is not a physical directory".to_string())
    );
    assert_eq!(
        windows_root_check(false, 0x20, false).err(),
        Some("directory aggregate root is not a physical directory".to_string())
    );
    assert!(root_check(true, false, false).is_ok());
    assert_eq!(
        root_check(true, true, false).err(),
        Some("directory aggregate root is not a physical directory".to_string())
    );
    assert_eq!(
        root_check(true, false, true).err(),
        Some("directory aggregate root is a remote placeholder".to_string())
    );
}

#[test]
fn failed_descendant_enumerations_count_as_skipped() {
    let mut collection = WindowsAggregate {
        root_source: measured_source(r"C:\fixture", 0, 0),
        child_sources: Vec::new(),
        pending: Vec::new(),
        skipped_count: 0,
        remote_placeholder_count: 0,
        count_link_metadata: false,
        first_flagged_entry: None,
    };
    assert!(matches!(record_enumeration_failure(&mut collection, false, false), EnumerationFailure::Skip));
    assert_eq!(collection.skipped_count, 1);
    assert!(matches!(record_enumeration_failure(&mut collection, true, false), EnumerationFailure::Fail));
    assert!(matches!(record_enumeration_failure(&mut collection, false, true), EnumerationFailure::Cancelled));
    assert_eq!(collection.skipped_count, 1);
}
