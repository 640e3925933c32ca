//! Directory-tree aggregation: how each directory entry is counted, how a
//! coordinator merges directory reads into per-source totals, the shared task
//! queue, and the Windows find-data conversions.
use vstd::prelude::*;

use crate::launchd::{path_join, join_path, text_of};
use crate::scan::{latest_timestamp, later_timestamp};

verus! {

/// How links and mounted directories are treated.
#[derive(Debug, Clone, Copy, PartialEq, Eq, Structural)]
pub enum AggregatePolicy {
    /// Complete-root cleanup: stays on the root's volume, skips links.
    Cleanup,
    /// Generated project trees: counts link metadata, never follows links.
    ProjectArtifact,
    /// Application summaries: ignores links.
    ApplicationComponent,
}

pub open spec fn policy_code_text(policy: AggregatePolicy) -> Seq<char> {
    match policy {
        AggregatePolicy::Cleanup => "cleanup"@,
        AggregatePolicy::ProjectArtifact => "project_artifact"@,
        AggregatePolicy::ApplicationComponent => "application_component"@,
    }
}

pub fn aggregate_policy_code(policy: AggregatePolicy) -> (s: &'static str)
    ensures
        s@ == policy_code_text(policy),
{
    match policy {
        AggregatePolicy::Cleanup => "cleanup",
        AggregatePolicy::ProjectArtifact => "project_artifact",
        AggregatePolicy::ApplicationComponent => "application_component",
    }
}

/// The kind of a directory entry.
#[derive(Debug, Clone, Copy, PartialEq, Eq, Structural)]
pub enum EntryKind {
    Directory,
    RegularFile,
    SymbolicLink,
    /// Any other object type, with its vnode type code.
    Other(u32),
}

/// One entry of a bulk directory read, as plain values.
pub struct BulkEntry {
    pub name: String,
    pub attribute_error: u32,
    pub device: u64,
    pub is_mount_point: bool,
    pub kind: EntryKind,
    /// The entry is a dataless (remote-only) placeholder.
    pub dataless: bool,
    pub logical_bytes: u64,
    pub modified_at_ms: Option<u64>,
}

/// A directory waiting to be read; `source_index` is the source its
/// content counts towards (0 for files directly in the root).
pub struct DirectoryTask {
    pub path: String,
    pub source_index: usize,
    pub is_root: bool,
}

/// What reading one directory found.
pub struct DirectoryReadResult {
    pub task: DirectoryTask,
    pub bytes: u64,
    pub file_count: u64,
    pub skipped_count: u64,
    pub unsupported_entry_count: u64,
    pub first_unsupported_entry: Option<(String, u32)>,
    pub modified_at_ms: Option<u64>,
    pub child_directories: Vec<String>,
    pub remote_file_count: u64,
    pub remote_directory_count: u64,
    pub first_flagged_entry: Option<String>,
}

/// A read result with nothing counted yet.
pub fn empty_read_result(task: DirectoryTask) -> (r: DirectoryReadResult)
    ensures
        r.task == task,
        r.bytes == 0 && r.file_count == 0 && r.skipped_count == 0 && r.unsupported_entry_count == 0,
        r.first_unsupported_entry is None && r.modified_at_ms is None && r.child_directories@.len() == 0,
        r.remote_file_count == 0 && r.remote_directory_count == 0 && r.first_flagged_entry is None,
{
    DirectoryReadResult {
        task,
        bytes: 0,
        file_count: 0,
        skipped_count: 0,
        unsupported_entry_count: 0,
        first_unsupported_entry: None,
        modified_at_ms: None,
        child_directories: Vec::new(),
        remote_file_count: 0,
        remote_directory_count: 0,
        first_flagged_entry: None,
    }
}

/// A non-root directory that could not be opened counts as one skipped entry.
pub fn unreadable_directory_result(task: DirectoryTask) -> (r: DirectoryReadResult)
    ensures
        r.task == task,
        r.skipped_count == 1,
        r.bytes == 0 && r.file_count == 0 && r.unsupported_entry_count == 0,
        r.first_unsupported_entry is None && r.modified_at_ms is None && r.child_directories@.len() == 0,
        r.remote_file_count == 0 && r.remote_directory_count == 0 && r.first_flagged_entry is None,
{
    let mut r = empty_read_result(task);
    r.skipped_count = 1;
    r
}

/// How one entry changes the read result of its directory. `flagged` tells
/// whether the entry's name marks authored content.
pub open spec fn entry_collected(
    old: DirectoryReadResult,
    new: DirectoryReadResult,
    root_device: u64,
    policy: AggregatePolicy,
    flagged: bool,
    e: BulkEntry,
) -> bool {
    let skip = old.skipped_count.saturating_add(1);
    let flag = if e.name@.len() > 0 && flagged && old.first_flagged_entry is None {
        text_of(Some(e.name)) 
    } else {
        text_of(old.first_flagged_entry)
    };
    &&& new.task == old.task
    &&& text_of(new.first_flagged_entry) == flag
    &&& if e.name@.len() == 0 || e.attribute_error != 0 || (policy == AggregatePolicy::Cleanup && (e.device
        != root_device || e.is_mount_point)) {
        &&& new.skipped_count == skip
        &&& unchanged_except_skip_and_flag(old, new)
    } else {
        match e.kind {
            EntryKind::Directory => if e.dataless {
                &&& new.skipped_count == skip
                &&& new.remote_directory_count == old.remote_directory_count.saturating_add(1)
                &&& new.bytes == old.bytes && new.file_count == old.file_count
                &&& new.modified_at_ms == old.modified_at_ms
                &&& new.unsupported_entry_count == old.unsupported_entry_count
                &&& new.first_unsupported_entry == old.first_unsupported_entry
                &&& new.child_directories@ == old.child_directories@
                &&& new.remote_file_count == old.remote_file_count
            } else {
                &&& crate::plan::texts(new.child_directories@) == crate::plan::texts(old.child_directories@).push(
                    path_join(old.task.path@, e.name@),
                )
                &&& new.skipped_count == old.skipped_count
                &&& new.bytes == old.bytes && new.file_count == old.file_count
                &&& new.modified_at_ms == old.modified_at_ms
                &&& new.unsupported_entry_count == old.unsupported_entry_count
                &&& new.first_unsupported_entry == old.first_unsupported_entry
                &&& new.remote_file_count == old.remote_file_count
                &&& new.remote_directory_count == old.remote_directory_count
            },
            EntryKind::RegularFile => if e.dataless {
                &&& new.skipped_count == skip
                &&& new.remote_file_count == old.remote_file_count.saturating_add(1)
                &&& new.bytes == old.bytes && new.file_count == old.file_count
                &&& new.modified_at_ms == old.modified_at_ms
                &&& new.unsupported_entry_count == old.unsupported_entry_count
                &&& new.first_unsupported_entry == old.first_unsupported_entry
                &&& new.child_directories@ == old.child_directories@
                &&& new.remote_directory_count == old.remote_directory_count
            } else {
                counted_file(old, new, e)
            },
            EntryKind::SymbolicLink => if policy == AggregatePolicy::ProjectArtifact {
                counted_file(old, new, e)
            } else if policy == AggregatePolicy::ApplicationComponent {
                &&& new.skipped_count == old.skipped_count
                &&& unchanged_except_skip_and_flag(old, new)
            } else {
                unsupported_entry(old, new, None)
            },
            EntryKind::Other(code) => unsupported_entry(
                old,
                new,
                if policy == AggregatePolicy::ApplicationComponent {
                    Some((path_join(old.task.path@, e.name@), code))
                } else {
                    None
                },
            ),
        }
    }
}

pub open spec fn unchanged_except_skip_and_flag(old: DirectoryReadResult, new: DirectoryReadResult) -> bool {
    &&& new.bytes == old.bytes && new.file_count == old.file_count
    &&& new.modified_at_ms == old.modified_at_ms
    &&& new.unsupported_entry_count == old.unsupported_entry_count
    &&& new.first_unsupported_entry == old.first_unsupported_entry
    &&& new.child_directories@ == old.child_directories@
    &&& new.remote_file_count == old.remote_file_count
    &&& new.remote_directory_count == old.remote_directory_count
}

/// A resident file (or counted link): its bytes, one file, its time.
pub open spec fn counted_file(old: DirectoryReadResult, new: DirectoryReadResult, e: BulkEntry) -> bool {
    &&& new.bytes == old.bytes.saturating_add(e.logical_bytes)
    &&& new.file_count == old.file_count.saturating_add(1)
    &&& new.modified_at_ms == later_timestamp(old.modified_at_ms, e.modified_at_ms)
    &&& new.skipped_count == old.skipped_count
    &&& new.unsupported_entry_count == old.unsupported_entry_count
    &&& new.first_unsupported_entry == old.first_unsupported_entry
    &&& new.child_directories@ == old.child_directories@
    &&& new.remote_file_count == old.remote_file_count
    &&& new.remote_directory_count == old.remote_directory_count
}

/// An unsupported entry: skipped, counted, and recorded as the first sample
/// when `sample` is given and none was recorded.
pub open spec fn unsupported_entry(
    old: DirectoryReadResult,
    new: DirectoryReadResult,
    sample: Option<(Seq<char>, u32)>,
) -> bool {
    &&& new.skipped_count == old.skipped_count.saturating_add(1)
    &&& new.unsupported_entry_count == old.unsupported_entry_count.saturating_add(1)
    &&& match (old.first_unsupported_entry, sample) {
        (None, Some((p, code))) => new.first_unsupported_entry matches Some((q, c)) && q@ == p && c == code,
        _ => new.first_unsupported_entry == old.first_unsupported_entry,
    }
    &&& new.bytes == old.bytes && new.file_count == old.file_count
    &&& new.modified_at_ms == old.modified_at_ms
    &&& new.child_directories@ == old.child_directories@
    &&& new.remote_file_count == old.remote_file_count
    &&& new.remote_directory_count == old.remote_directory_count
}

/// Counts one entry of a bulk read into its directory's result.
pub fn collect_entry(
    root_device: u64,
    policy: AggregatePolicy,
    flagged: bool,
    entry: BulkEntry,
    result: &mut DirectoryReadResult,
)
    ensures
        entry_collected(*old(result), *final(result), root_device, policy, flagged, entry),
{
    let ghost e = entry;
    let name_chars = crate::text::chars_of(entry.name.as_str());
    if name_chars.len() == 0 {
        result.skipped_count = result.skipped_count.saturating_add(1);
        return;
    }
    assert(entry.name@.len() > 0);
    if flagged && result.first_flagged_entry.is_none() {
        result.first_flagged_entry = Some(entry.name.clone());
    }
    if entry.attribute_error != 0 {
        result.skipped_count = result.skipped_count.saturating_add(1);
        return;
    }
    if policy == AggregatePolicy::Cleanup && (entry.device != root_device || entry.is_mount_point) {
        result.skipped_count = result.skipped_count.saturating_add(1);
        return;
    }
    match entry.kind {
        EntryKind::Directory => {
            if entry.dataless {
                result.skipped_count = result.skipped_count.saturating_add(1);
                result.remote_directory_count = result.remote_directory_count.saturating_add(1);
                return;
            }
            let path = join_path(result.task.path.as_str(), entry.name.as_str());
            let ghost before = result.child_directories@;
            result.child_directories.push(path);
            assert(crate::plan::texts(result.child_directories@) =~= crate::plan::texts(before).push(path@));
        },
        EntryKind::RegularFile => {
            if entry.dataless {
                result.skipped_count = result.skipped_count.saturating_add(1);
                result.remote_file_count = result.remote_file_count.saturating_add(1);
                return;
            }
            result.bytes = result.bytes.saturating_add(entry.logical_bytes);
            result.file_count = result.file_count.saturating_add(1);
            result.modified_at_ms = latest_timestamp(result.modified_at_ms, entry.modified_at_ms);
        },
        EntryKind::SymbolicLink => {
            if policy == AggregatePolicy::ProjectArtifact {
                result.bytes = result.bytes.saturating_add(entry.logical_bytes);
                result.file_count = result.file_count.saturating_add(1);
                result.modified_at_ms = latest_timestamp(result.modified_at_ms, entry.modified_at_ms);
            } else if policy == AggregatePolicy::ApplicationComponent {
            } else {
                result.skipped_count = result.skipped_count.saturating_add(1);
                result.unsupported_entry_count = result.unsupported_entry_count.saturating_add(1);
            }
        },
        EntryKind::Other(code) => {
            result.skipped_count = result.skipped_count.saturating_add(1);
            result.unsupported_entry_count = result.unsupported_entry_count.saturating_add(1);
            if policy == AggregatePolicy::ApplicationComponent && result.first_unsupported_entry.is_none() {
                let path = join_path(result.task.path.as_str(), entry.name.as_str());
                result.first_unsupported_entry = Some((path, code));
            }
        },
    }
}

} // verus!

verus! {

/// Totals of one source (the root's own files, or one direct child).
pub struct DirectoryTreeSourceAggregate {
    pub path: String,
    pub bytes: u64,
    pub file_count: u64,
    pub modified_at_ms: Option<u64>,
}

/// The aggregate of a whole tree.
pub struct DirectoryTreeAggregate {
    pub bytes: u64,
    pub file_count: u64,
    pub skipped_count: u64,
    pub sources: Vec<DirectoryTreeSourceAggregate>,
    pub strategy: &'static str,
    pub flagged_entry: Option<String>,
}

pub open spec fn is_empty_source(s: DirectoryTreeSourceAggregate, path: Seq<char>) -> bool {
    s.path@ == path && s.bytes == 0 && s.file_count == 0 && s.modified_at_ms is None
}

pub fn empty_source(path: &str) -> (s: DirectoryTreeSourceAggregate)
    ensures
        is_empty_source(s, path@),
{
    DirectoryTreeSourceAggregate { path: path.to_string(), bytes: 0, file_count: 0, modified_at_ms: None }
}

/// The coordinator's merged state while directory reads complete.
pub struct AggregateCoordinator {
    pub sources: Vec<DirectoryTreeSourceAggregate>,
    pub skipped_count: u64,
    pub unsupported_entry_count: u64,
    pub first_unsupported_entry: Option<(String, u32)>,
    pub remote_file_count: u64,
    pub remote_directory_count: u64,
    pub flagged_entry: Option<String>,
    pub outstanding_tasks: usize,
}

/// Starts a traversal of `root`: one source for its direct files and one
/// outstanding task, the root itself.
pub fn start_aggregate(root: &str) -> (r: (AggregateCoordinator, DirectoryTask))
    ensures
        r.0.sources@.len() == 1,
        is_empty_source(r.0.sources@[0], root@),
        r.0.skipped_count == 0 && r.0.unsupported_entry_count == 0 && r.0.remote_file_count == 0
            && r.0.remote_directory_count == 0,
        r.0.first_unsupported_entry is None && r.0.flagged_entry is None,
        r.0.outstanding_tasks == 1,
        r.1.path@ == root@ && r.1.source_index == 0 && r.1.is_root,
{
    let mut sources: Vec<DirectoryTreeSourceAggregate> = Vec::new();
    sources.push(empty_source(root));
    (
        AggregateCoordinator {
            sources,
            skipped_count: 0,
            unsupported_entry_count: 0,
            first_unsupported_entry: None,
            remote_file_count: 0,
            remote_directory_count: 0,
            flagged_entry: None,
            outstanding_tasks: 1,
        },
        DirectoryTask { path: root.to_string(), source_index: 0, is_root: true },
    )
}

/// How one completed read changes the coordinator: its totals go to its
/// source, each child directory of the root opens a new source, and the
/// child tasks become outstanding.
pub open spec fn absorbed(
    old: AggregateCoordinator,
    new: AggregateCoordinator,
    result: DirectoryReadResult,
    tasks: Seq<DirectoryTask>,
) -> bool {
    let i = result.task.source_index as int;
    let n = old.sources@.len();
    let children = crate::plan::texts(result.child_directories@);
    let k = children.len();
    &&& new.outstanding_tasks == (old.outstanding_tasks - 1) as usize + k || (new.outstanding_tasks == usize::MAX
        && old.outstanding_tasks - 1 + k > usize::MAX)
    &&& new.sources@.len() == if result.task.is_root { n + k } else { n }
    &&& new.sources@[i].path == old.sources@[i].path
    &&& new.sources@[i].bytes == old.sources@[i].bytes.saturating_add(result.bytes)
    &&& new.sources@[i].file_count == old.sources@[i].file_count.saturating_add(result.file_count)
    &&& new.sources@[i].modified_at_ms == later_timestamp(old.sources@[i].modified_at_ms, result.modified_at_ms)
    &&& forall|j: int| 0 <= j < n && j != i ==> #[trigger] new.sources@[j] == old.sources@[j]
    &&& result.task.is_root ==> forall|j: int| 0 <= j < k ==> is_empty_source(#[trigger] new.sources@[n + j], children[j])
    &&& new.skipped_count == old.skipped_count.saturating_add(result.skipped_count)
    &&& new.unsupported_entry_count == old.unsupported_entry_count.saturating_add(result.unsupported_entry_count)
    &&& new.first_unsupported_entry == if old.first_unsupported_entry is Some {
        old.first_unsupported_entry
    } else {
        result.first_unsupported_entry
    }
    &&& new.remote_file_count == old.remote_file_count.saturating_add(result.remote_file_count)
    &&& new.remote_directory_count == old.remote_directory_count.saturating_add(result.remote_directory_count)
    &&& new.flagged_entry == if old.flagged_entry is Some {
        old.flagged_entry
    } else {
        result.first_flagged_entry
    }
    &&& tasks.len() == k
    &&& forall|j: int|
        0 <= j < k ==> (#[trigger] tasks[j]).path@ == children[j] && !tasks[j].is_root && tasks[j].source_index == if result.task.is_root {
            n + j
        } else {
            i
        }
}

impl AggregateCoordinator {
    /// Merges a completed directory read and returns the tasks for its
    /// child directories.
    pub fn absorb(&mut self, result: DirectoryReadResult) -> (tasks: Vec<DirectoryTask>)
        requires
            old(self).outstanding_tasks > 0,
            result.task.source_index < old(self).sources@.len(),
        ensures
            absorbed(*old(self), *final(self), result, tasks@),
    {
        let ghost start = *self;
        let ghost res = result;
        let i = result.task.source_index;
        let n = self.sources.len();
        self.outstanding_tasks = self.outstanding_tasks - 1;
        let mut source = self.sources.remove(i);
        source.bytes = source.bytes.saturating_add(result.bytes);
        source.file_count = source.file_count.saturating_add(result.file_count);
        source.modified_at_ms = latest_timestamp(source.modified_at_ms, result.modified_at_ms);
        self.sources.insert(i, source);
        assert forall|j: int| 0 <= j < n && j != i implies #[trigger] self.sources@[j] == start.sources@[j] by {}
        self.skipped_count = self.skipped_count.saturating_add(result.skipped_count);
        self.unsupported_entry_count = self.unsupported_entry_count.saturating_add(result.unsupported_entry_count);
        if self.first_unsupported_entry.is_none() {
            self.first_unsupported_entry = match &result.first_unsupported_entry {
                Some((p, c)) => Some((p.clone(), *c)),
                None => None,
            };
        }
        self.remote_file_count = self.remote_file_count.saturating_add(result.remote_file_count);
        self.remote_directory_count = self.remote_directory_count.saturating_add(result.remote_directory_count);
        if self.flagged_entry.is_none() {
            self.flagged_entry = match &result.first_flagged_entry {
                Some(p) => Some(p.clone()),
                None => None,
            };
        }
        let is_root = result.task.is_root;
        let ghost children = crate::plan::texts(res.child_directories@);
        let ghost mid = *self;
        let k = result.child_directories.len();
        let mut tasks: Vec<DirectoryTask> = Vec::new();
        let mut t: usize = 0;
        while t < k
            invariant
                t <= k,
                k == children.len(),
                children == crate::plan::texts(res.child_directories@),
                result.child_directories@ == res.child_directories@,
                is_root == res.task.is_root,
                tasks@.len() == t,
                n == start.sources@.len(),
                i == res.task.source_index,
                i < n,
                self.sources@.len() == (if is_root { n + t } else { n as int }),
                forall|j: int| 0 <= j < n ==> #[trigger] self.sources@[j] == mid.sources@[j],
                is_root ==> forall|j: int| 0 <= j < t ==> is_empty_source(#[trigger] self.sources@[n + j], children[j]),
                forall|j: int|
                    0 <= j < t ==> (#[trigger] tasks@[j]).path@ == children[j] && !tasks@[j].is_root
                        && tasks@[j].source_index == if is_root {
                        n + j
                    } else {
                        i as int
                    },
                self.skipped_count == mid.skipped_count,
                self.unsupported_entry_count == mid.unsupported_entry_count,
                self.first_unsupported_entry == mid.first_unsupported_entry,
                self.remote_file_count == mid.remote_file_count,
                self.remote_directory_count == mid.remote_directory_count,
                self.flagged_entry == mid.flagged_entry,
                self.outstanding_tasks == mid.outstanding_tasks,
            decreases k - t,
        {
            let path = result.child_directories[t].clone();
            assert(path@ == children[t as int]);
            let source_index = if is_root {
                self.sources.push(empty_source(path.as_str()));
                self.sources.len() - 1
            } else {
                i
            };
            tasks.push(DirectoryTask { path, source_index, is_root: false });
            t = t + 1;
        }
        self.outstanding_tasks = self.outstanding_tasks.saturating_add(k);
        tasks
    }

    /// The finished aggregate: sources without content are dropped and the
    /// totals are the saturating sums over the sources kept.
    pub fn finish(self, strategy: &'static str) -> (r: DirectoryTreeAggregate)
        ensures
            r.sources@ == kept_sources(self.sources@),
            r.bytes == source_bytes_total(kept_sources(self.sources@)),
            r.file_count == source_files_total(kept_sources(self.sources@)),
            r.skipped_count == self.skipped_count,
            r.strategy@ == strategy@,
            r.flagged_entry == self.flagged_entry,
    {
        let ghost all = self.sources@;
        let mut rest = self.sources;
        let mut kept: Vec<DirectoryTreeSourceAggregate> = Vec::new();
        let mut bytes: u64 = 0;
        let mut files: u64 = 0;
        let n = rest.len();
        let mut t: usize = 0;
        while t < n
            invariant
                t <= n,
                n == all.len(),
                rest@ == all.skip(t as int),
                kept@ == kept_sources(all.take(t as int)),
                bytes == source_bytes_total(kept@),
                files == source_files_total(kept@),
            decreases n - t,
        {
            let s = rest.remove(0);
            assert(s == all[t as int]);
            assert(all.skip(t + 1) =~= all.skip(t as int).drop_first());
            assert(all.take(t + 1).drop_last() =~= all.take(t as int));
            assert(all.take(t + 1).last() == s);
            if s.bytes > 0 || s.file_count > 0 {
                bytes = bytes.saturating_add(s.bytes);
                files = files.saturating_add(s.file_count);
                let ghost before = kept@;
                kept.push(s);
                assert(kept@.drop_last() =~= before);
            }
            t = t + 1;
        }
        assert(all.take(n as int) =~= all);
        DirectoryTreeAggregate {
            bytes,
            file_count: files,
            skipped_count: self.skipped_count,
            sources: kept,
            strategy,
            flagged_entry: self.flagged_entry,
        }
    }
}

/// The sources with some bytes or files, in order.
pub open spec fn kept_sources(s: Seq<DirectoryTreeSourceAggregate>) -> Seq<DirectoryTreeSourceAggregate>
    decreases s.len(),
{
    if s.len() == 0 {
        seq![]
    } else {
        let r = kept_sources(s.drop_last());
        if s.last().bytes > 0 || s.last().file_count > 0 {
            r.push(s.last())
        } else {
            r
        }
    }
}

pub open spec fn source_bytes_total(s: Seq<DirectoryTreeSourceAggregate>) -> u64
    decreases s.len(),
{
    if s.len() == 0 {
        0
    } else {
        source_bytes_total(s.drop_last()).saturating_add(s.last().bytes)
    }
}

pub open spec fn source_files_total(s: Seq<DirectoryTreeSourceAggregate>) -> u64
    decreases s.len(),
{
    if s.len() == 0 {
        0
    } else {
        source_files_total(s.drop_last()).saturating_add(s.last().file_count)
    }
}

} // verus!

verus! {

/// The root of a bulk traversal must be a physical directory (not a link),
/// and not a dataless placeholder, which opening would fetch.
pub open spec fn root_refusal(is_directory: bool, is_symlink: bool, dataless: bool) -> Option<Seq<char>> {
    if !is_directory || is_symlink {
        Some("directory aggregate root is not a physical directory"@)
    } else if dataless {
        Some("directory aggregate root is a remote placeholder"@)
    } else {
        None
    }
}

pub fn root_check(is_directory: bool, is_symlink: bool, dataless: bool) -> (r: Result<(), String>)
    ensures
        match root_refusal(is_directory, is_symlink, dataless) {
            Some(m) => r matches Err(e) && e@ == m,
            None => r is Ok,
        },
{
    if !is_directory || is_symlink {
        return Err("directory aggregate root is not a physical directory".to_string());
    }
    if dataless {
        return Err("directory aggregate root is a remote placeholder".to_string());
    }
    Ok(())
}

/// The shared work list of the directory readers.
pub struct DirectoryTaskQueueState {
    pub tasks: Vec<DirectoryTask>,
    pub stopped: bool,
}

/// What a reader gets from the queue.
pub enum QueuePop {
    Task(DirectoryTask),
    /// The queue was stopped: the reader ends.
    Stopped,
    /// Nothing to do yet: the reader waits for more tasks.
    Wait,
}

impl DirectoryTaskQueueState {
    pub fn new() -> (q: DirectoryTaskQueueState)
        ensures
            q.tasks@.len() == 0,
            !q.stopped,
    {
        DirectoryTaskQueueState { tasks: Vec::new(), stopped: false }
    }

    /// Adds tasks at the end of the list.
    pub fn push_many(&mut self, tasks: Vec<DirectoryTask>)
        ensures
            final(self).tasks@ == old(self).tasks@ + tasks@,
            final(self).stopped == old(self).stopped,
    {
        let mut rest = tasks;
        let ghost added = rest@;
        let ghost start = self.tasks@;
        let n = rest.len();
        let mut t: usize = 0;
        while t < n
            invariant
                t <= n,
                n == added.len(),
                rest@ == added.skip(t as int),
                self.tasks@ == start + added.take(t as int),
                self.stopped == old(self).stopped,
            decreases n - t,
        {
            let task = rest.remove(0);
            assert(task == added[t as int]);
            assert(added.skip(t + 1) =~= added.skip(t as int).drop_first());
            self.tasks.push(task);
            assert(added.take(t + 1) =~= added.take(t as int).push(added[t as int]));
            t = t + 1;
        }
        assert(added.take(n as int) =~= added);
    }

    /// The most recently added task; when there is none, `Stopped` once the
    /// queue was stopped and `Wait` before.
    pub fn pop(&mut self) -> (r: QueuePop)
        ensures
            old(self).tasks@.len() > 0 ==> (r matches QueuePop::Task(t) && t == old(self).tasks@.last()
                && final(self).tasks@ == old(self).tasks@.drop_last()),
            old(self).tasks@.len() == 0 ==> final(self).tasks@ == old(self).tasks@ && if old(self).stopped {
                r is Stopped
            } else {
                r is Wait
            },
            final(self).stopped == old(self).stopped,
    {
        match self.tasks.pop() {
            Some(task) => QueuePop::Task(task),
            None => if self.stopped {
                QueuePop::Stopped
            } else {
                QueuePop::Wait
            },
        }
    }

    /// Stops the queue and drops the waiting tasks.
    pub fn stop(&mut self)
        ensures
            final(self).stopped,
            final(self).tasks@.len() == 0,
    {
        self.stopped = true;
        self.tasks = Vec::new();
    }
}

/// 100-nanosecond ticks between 1601-01-01 and 1970-01-01.
pub const WINDOWS_EPOCH_OFFSET_100NS: u64 = 116_444_736_000_000_000;

/// The value of a high/low pair of 32-bit halves.
pub open spec fn wide_value(high: u32, low: u32) -> nat {
    high as nat * 0x1_0000_0000 + low as nat
}

fn wide(high: u32, low: u32) -> (v: u64)
    ensures
        v == wide_value(high, low),
{
    assert(high as nat * 0x1_0000_0000 + low as nat <= u64::MAX) by (nonlinear_arith)
        requires
            high <= 0xffff_ffff,
            low <= 0xffff_ffff,
    ;
    (high as u64) * 0x1_0000_0000 + (low as u64)
}

/// The size of a find-data entry.
pub fn file_size(high: u32, low: u32) -> (v: u64)
    ensures
        v == wide_value(high, low),
{
    wide(high, low)
}

/// A `FILETIME` as Unix milliseconds; `None` before 1970.
pub open spec fn filetime_ms(high: u32, low: u32) -> Option<u64> {
    let ticks = wide_value(high, low);
    if ticks >= WINDOWS_EPOCH_OFFSET_100NS {
        Some(((ticks - WINDOWS_EPOCH_OFFSET_100NS) / 10_000) as u64)
    } else {
        None
    }
}

pub fn modified_at_ms(high: u32, low: u32) -> (r: Option<u64>)
    ensures
        r == filetime_ms(high, low),
{
    let ticks = wide(high, low);
    match ticks.checked_sub(WINDOWS_EPOCH_OFFSET_100NS) {
        Some(unix_ticks) => Some(unix_ticks / 10_000),
        None => None,
    }
}

/// Win32 errors that mean the large-fetch enumeration flag is unsupported:
/// invalid function, not supported, invalid parameter.
pub fn large_fetch_is_unsupported(error: u32) -> (r: bool)
    ensures
        r == (error == 1 || error == 50 || error == 87),
{
    error == 1 || error == 50 || error == 87
}

} // verus!

verus! {

/// `Path::join` of a plain entry name on Windows: no separator is added
/// after a trailing backslash or slash or after a bare drive such as `C:`;
/// otherwise a backslash separates the two.
pub open spec fn windows_path_join(base: Seq<char>, name: Seq<char>) -> Seq<char> {
    if base.len() == 0 {
        name
    } else if base.last() == '\\' || base.last() == '/' || (base.len() == 2 && base[1] == ':') {
        base + name
    } else {
        base + seq!['\\'] + name
    }
}

pub fn join_windows_path(base: &str, name: &str) -> (r: String)
    ensures
        r@ == windows_path_join(base@, name@),
{
    let b = crate::text::chars_of(base);
    let mut s = String::new();
    crate::text::push_str(&mut s, base);
    if b.len() > 0 && b[b.len() - 1] != '\\' && b[b.len() - 1] != '/' && !(b.len() == 2 && b[1] == ':') {
        crate::text::push_char(&mut s, '\\');
    }
    crate::text::push_str(&mut s, name);
    s
}

pub const FILE_ATTRIBUTE_DIRECTORY: u32 = 0x10;

pub const FILE_ATTRIBUTE_REPARSE_POINT: u32 = 0x400;

/// One Win32 find-data record, as plain values.
pub struct FindEntry {
    pub name: String,
    pub attributes: u32,
    /// The attributes mark a remote-only placeholder.
    pub remote_placeholder: bool,
    pub size_high: u32,
    pub size_low: u32,
    pub write_high: u32,
    pub write_low: u32,
}

/// A directory still to enumerate; `None` counts towards the root source.
pub struct PendingDirectory {
    pub path: String,
    pub source_index: Option<usize>,
}

/// The state of a Win32 tree enumeration.
pub struct WindowsAggregate {
    pub root_source: DirectoryTreeSourceAggregate,
    pub child_sources: Vec<DirectoryTreeSourceAggregate>,
    pub pending: Vec<PendingDirectory>,
    pub skipped_count: u64,
    pub remote_placeholder_count: u64,
    pub count_link_metadata: bool,
    pub first_flagged_entry: Option<String>,
}

/// What an entry contributes to progress reporting.
pub enum EntryObservation {
    Ignored,
    NonFile,
    File(u64),
}

/// The source a file in `directory` counts towards: its child source when
/// that exists, else the root source.
pub open spec fn file_target(c: WindowsAggregate, source_index: Option<usize>) -> Option<int> {
    match source_index {
        Some(i) => if i < c.child_sources@.len() {
            Some(i as int)
        } else {
            None
        },
        None => None,
    }
}

/// `new` is `old` with one file of `bytes` and time `modified` counted in
/// the source `file_target` picks.
pub open spec fn file_observed(
    old: WindowsAggregate,
    new: WindowsAggregate,
    source_index: Option<usize>,
    bytes: u64,
    modified: Option<u64>,
) -> bool {
    let grown = |s: DirectoryTreeSourceAggregate, t: DirectoryTreeSourceAggregate|
        t.path == s.path && t.bytes == s.bytes.saturating_add(bytes) && t.file_count
            == s.file_count.saturating_add(1) && t.modified_at_ms == later_timestamp(s.modified_at_ms, modified);
    &&& new.child_sources@.len() == old.child_sources@.len()
    &&& match file_target(old, source_index) {
        Some(i) => grown(old.child_sources@[i], new.child_sources@[i]) && new.root_source == old.root_source
            && forall|j: int| 0 <= j < old.child_sources@.len() && j != i ==> #[trigger] new.child_sources@[j]
                == old.child_sources@[j],
        None => grown(old.root_source, new.root_source) && new.child_sources@ == old.child_sources@,
    }
    &&& new.pending@ == old.pending@
    &&& new.skipped_count == old.skipped_count
    &&& new.remote_placeholder_count == old.remote_placeholder_count
}

fn observe_file(c: &mut WindowsAggregate, source_index: Option<usize>, bytes: u64, modified: Option<u64>)
    ensures
        file_observed(*old(c), *final(c), source_index, bytes, modified),
        final(c).count_link_metadata == old(c).count_link_metadata,
        final(c).first_flagged_entry == old(c).first_flagged_entry,
{
    let ghost start = *c;
    let use_child = match source_index {
        Some(i) => i < c.child_sources.len(),
        None => false,
    };
    if use_child {
        let i = source_index.unwrap();
        let mut s = c.child_sources.remove(i);
        s.bytes = s.bytes.saturating_add(bytes);
        s.file_count = s.file_count.saturating_add(1);
        s.modified_at_ms = latest_timestamp(s.modified_at_ms, modified);
        c.child_sources.insert(i, s);
        assert forall|j: int| 0 <= j < start.child_sources@.len() && j != i implies #[trigger] c.child_sources@[j]
            == start.child_sources@[j] by {}
    } else {
        c.root_source.bytes = c.root_source.bytes.saturating_add(bytes);
        c.root_source.file_count = c.root_source.file_count.saturating_add(1);
        c.root_source.modified_at_ms = latest_timestamp(c.root_source.modified_at_ms, modified);
    }
}

pub open spec fn is_dot_name(name: Seq<char>) -> bool {
    name == seq!['.'] || name == seq!['.', '.']
}

/// How one find-data entry in `directory` changes the enumeration.
/// `at_root` tells whether `directory` is the traversal root; `flagged`
/// whether the name marks authored content.
pub open spec fn find_entry_collected(
    old: WindowsAggregate,
    new: WindowsAggregate,
    directory: PendingDirectory,
    at_root: bool,
    flagged: bool,
    e: FindEntry,
    obs: EntryObservation,
) -> bool {
    if is_dot_name(e.name@) {
        new == old && obs is Ignored
    } else {
        let flag = if flagged && old.first_flagged_entry is None {
            text_of(Some(e.name))
        } else {
            text_of(old.first_flagged_entry)
        };
        let counted = (e.attributes & FILE_ATTRIBUTE_REPARSE_POINT != 0 && old.count_link_metadata) || (e.attributes
            & FILE_ATTRIBUTE_REPARSE_POINT == 0 && e.attributes & FILE_ATTRIBUTE_DIRECTORY == 0);
        &&& text_of(new.first_flagged_entry) == flag
        &&& new.count_link_metadata == old.count_link_metadata
        &&& if e.remote_placeholder || (e.attributes & FILE_ATTRIBUTE_REPARSE_POINT != 0
            && !old.count_link_metadata) {
            &&& obs is NonFile
            &&& new.skipped_count == old.skipped_count.saturating_add(1)
            &&& new.remote_placeholder_count == if e.remote_placeholder {
                old.remote_placeholder_count.saturating_add(1)
            } else {
                old.remote_placeholder_count
            }
            &&& new.root_source == old.root_source
            &&& new.child_sources@ == old.child_sources@
            &&& new.pending@ == old.pending@
        } else if counted {
            &&& obs == EntryObservation::File(wide_value(e.size_high, e.size_low) as u64)
            &&& file_observed(
                old,
                new,
                directory.source_index,
                wide_value(e.size_high, e.size_low) as u64,
                filetime_ms(e.write_high, e.write_low),
            )
        } else {
            let path = windows_path_join(directory.path@, e.name@);
            &&& obs is NonFile
            &&& new.skipped_count == old.skipped_count
            &&& new.remote_placeholder_count == old.remote_placeholder_count
            &&& new.root_source == old.root_source
            &&& new.pending@.len() == old.pending@.len() + 1
            &&& forall|j: int| 0 <= j < old.pending@.len() ==> #[trigger] new.pending@[j] == old.pending@[j]
            &&& new.pending@.last().path@ == path
            &&& if at_root {
                &&& new.child_sources@.len() == old.child_sources@.len() + 1
                &&& forall|j: int| 0 <= j < old.child_sources@.len() ==> #[trigger] new.child_sources@[j] == old.child_sources@[j]
                &&& is_empty_source(new.child_sources@.last(), path)
                &&& new.pending@.last().source_index == Some(old.child_sources@.len() as usize)
            } else {
                &&& new.child_sources@ == old.child_sources@
                &&& new.pending@.last().source_index == directory.source_index
            }
        }
    }
}

/// Counts one Win32 entry of `directory`.
pub fn collect_find_entry(
    directory: &PendingDirectory,
    at_root: bool,
    flagged: bool,
    entry: &FindEntry,
    collection: &mut WindowsAggregate,
) -> (obs: EntryObservation)
    ensures
        find_entry_collected(*old(collection), *final(collection), *directory, at_root, flagged, *entry, obs),
{
    let name = crate::text::chars_of(entry.name.as_str());
    let dot = (name.len() == 1 && name[0] == '.') || (name.len() == 2 && name[0] == '.' && name[1] == '.');
    proof {
        if name@ == seq!['.'] {
            assert(name@[0] == '.');
        }
        if name@ == seq!['.', '.'] {
            assert(name@[0] == '.' && name@[1] == '.');
        }
        if name@.len() == 1 && name@[0] == '.' {
            assert(name@ =~= seq!['.']);
        }
        if name@.len() == 2 && name@[0] == '.' && name@[1] == '.' {
            assert(name@ =~= seq!['.', '.']);
        }
    }
    if dot {
        return EntryObservation::Ignored;
    }
    if flagged && collection.first_flagged_entry.is_none() {
        collection.first_flagged_entry = Some(entry.name.clone());
    }
    if entry.remote_placeholder {
        collection.skipped_count = collection.skipped_count.saturating_add(1);
        collection.remote_placeholder_count = collection.remote_placeholder_count.saturating_add(1);
        return EntryObservation::NonFile;
    }
    if entry.attributes & FILE_ATTRIBUTE_REPARSE_POINT != 0 {
        if collection.count_link_metadata {
            let bytes = file_size(entry.size_high, entry.size_low);
            let modified = modified_at_ms(entry.write_high, entry.write_low);
            observe_file(collection, directory.source_index, bytes, modified);
            return EntryObservation::File(bytes);
        }
        collection.skipped_count = collection.skipped_count.saturating_add(1);
        return EntryObservation::NonFile;
    }
    if entry.attributes & FILE_ATTRIBUTE_DIRECTORY != 0 {
        let path = join_windows_path(directory.path.as_str(), entry.name.as_str());
        let source_index = if at_root {
            collection.child_sources.push(empty_source(path.as_str()));
            Some(collection.child_sources.len() - 1)
        } else {
            directory.source_index
        };
        collection.pending.push(PendingDirectory { path, source_index });
        return EntryObservation::NonFile;
    }
    let bytes = file_size(entry.size_high, entry.size_low);
    let modified = modified_at_ms(entry.write_high, entry.write_low);
    observe_file(collection, directory.source_index, bytes, modified);
    EntryObservation::File(bytes)
}

/// An entry that is a directory of its own: not a reparse point and not a
/// remote-only placeholder.
pub open spec fn is_physical_directory(e: FindEntry) -> bool {
    e.attributes & FILE_ATTRIBUTE_DIRECTORY != 0 && e.attributes & FILE_ATTRIBUTE_REPARSE_POINT == 0
        && !e.remote_placeholder
}

/// The physical directories directly under a root, found so far, and the
/// number of entries looked at.
pub struct DirectPhysicalDirectories {
    pub directories: Vec<String>,
    pub observed_count: usize,
}

/// Whether enumeration goes on after an entry.
pub enum DirectStep {
    Continue,
    /// The entry limit is reached: enumeration stops before this entry.
    Full,
}

/// How one entry under `root` changes the direct enumeration: `.` and `..`
/// are not entries; past `maximum_entries` nothing more is looked at;
/// otherwise the entry is counted, and kept when it is a physical directory.
pub open spec fn direct_entry_observed(
    old: DirectPhysicalDirectories,
    new: DirectPhysicalDirectories,
    root: Seq<char>,
    e: FindEntry,
    maximum_entries: usize,
    step: DirectStep,
) -> bool {
    if is_dot_name(e.name@) {
        new.directories@ == old.directories@ && new.observed_count == old.observed_count && step is Continue
    } else if old.observed_count >= maximum_entries {
        new.directories@ == old.directories@ && new.observed_count == old.observed_count && step is Full
    } else {
        &&& new.observed_count == old.observed_count + 1
        &&& step is Continue
        &&& crate::plan::texts(new.directories@) == if is_physical_directory(e) {
            crate::plan::texts(old.directories@).push(windows_path_join(root, e.name@))
        } else {
            crate::plan::texts(old.directories@)
        }
    }
}

/// Observes one find-data entry directly under `root`.
pub fn observe_direct_entry(
    found: &mut DirectPhysicalDirectories,
    root: &str,
    entry: &FindEntry,
    maximum_entries: usize,
) -> (step: DirectStep)
    ensures
        direct_entry_observed(*old(found), *final(found), root@, *entry, maximum_entries, step),
{
    let name = crate::text::chars_of(entry.name.as_str());
    let dot = (name.len() == 1 && name[0] == '.') || (name.len() == 2 && name[0] == '.' && name[1] == '.');
    proof {
        if name@ == seq!['.'] {
            assert(name@[0] == '.');
        }
        if name@ == seq!['.', '.'] {
            assert(name@[0] == '.' && name@[1] == '.');
        }
        if dot {
            assert(name@ =~= seq!['.'] || name@ =~= seq!['.', '.']);
        }
    }
    if dot {
        return DirectStep::Continue;
    }
    if found.observed_count >= maximum_entries {
        return DirectStep::Full;
    }
    found.observed_count = found.observed_count + 1;
    if entry.attributes & FILE_ATTRIBUTE_DIRECTORY != 0 && entry.attributes & FILE_ATTRIBUTE_REPARSE_POINT == 0
        && !entry.remote_placeholder {
        let ghost before = crate::plan::texts(found.directories@);
        let path = join_windows_path(root, entry.name.as_str());
        found.directories.push(path);
        assert(crate::plan::texts(found.directories@) =~= before.push(windows_path_join(root@, entry.name@)));
    }
    DirectStep::Continue
}

/// The enumeration strategy reported with the direct directories.
pub fn direct_enumeration_strategy(large_fetch_enabled: bool) -> (s: &'static str)
    ensures
        s@ == if large_fetch_enabled {
            "win32-direct-physical-directory-large-fetch-v2"@
        } else {
            "win32-direct-physical-directory-enumeration-v2"@
        },
{
    if large_fetch_enabled {
        "win32-direct-physical-directory-large-fetch-v2"
    } else {
        "win32-direct-physical-directory-enumeration-v2"
    }
}

/// The sources with files, in order.
pub open spec fn sources_with_files(s: Seq<DirectoryTreeSourceAggregate>) -> Seq<DirectoryTreeSourceAggregate>
    decreases s.len(),
{
    if s.len() == 0 {
        seq![]
    } else {
        let r = sources_with_files(s.drop_last());
        if s.last().file_count > 0 {
            r.push(s.last())
        } else {
            r
        }
    }
}

/// The sources a Win32 enumeration reports: the root's own files, then the
/// direct children, each only when it holds files.
pub open spec fn win32_sources(c: WindowsAggregate) -> Seq<DirectoryTreeSourceAggregate> {
    sources_with_files(seq![c.root_source] + c.child_sources@)
}

pub open spec fn win32_strategy(large_fetch_enabled: bool) -> Seq<char> {
    if large_fetch_enabled {
        "win32-find-large-fetch-resident-files-v2"@
    } else {
        "win32-find-resident-files-v2"@
    }
}

/// The aggregate of a finished Win32 enumeration: the sources with files,
/// the saturating sums of their bytes and files, and the strategy by
/// whether large fetches stayed enabled.
pub fn windows_aggregate_result(collection: WindowsAggregate, large_fetch_enabled: bool) -> (r: DirectoryTreeAggregate)
    ensures
        r.sources@ == win32_sources(collection),
        r.bytes == source_bytes_total(win32_sources(collection)),
        r.file_count == source_files_total(win32_sources(collection)),
        r.skipped_count == collection.skipped_count,
        r.strategy@ == win32_strategy(large_fetch_enabled),
        r.flagged_entry == collection.first_flagged_entry,
{
    let WindowsAggregate {
        root_source,
        child_sources,
        pending: _,
        skipped_count,
        remote_placeholder_count: _,
        count_link_metadata: _,
        first_flagged_entry,
    } = collection;
    let ghost all = seq![root_source] + child_sources@;
    let mut kept: Vec<DirectoryTreeSourceAggregate> = Vec::new();
    let mut bytes: u64 = 0;
    let mut files: u64 = 0;
    assert(all.take(1).drop_last() =~= all.take(0));
    assert(all.take(0) =~= Seq::<DirectoryTreeSourceAggregate>::empty());
    assert(all.take(1).last() == root_source);
    assert(all[0] == root_source);
    let ghost none = Seq::<DirectoryTreeSourceAggregate>::empty();
    assert(sources_with_files(none) == none);
    assert(all.take(1).drop_last() =~= none);
    assert(sources_with_files(all.take(1)) == if root_source.file_count > 0 {
        none.push(root_source)
    } else {
        none
    });
    if root_source.file_count > 0 {
        bytes = root_source.bytes;
        files = root_source.file_count;
        kept.push(root_source);
        assert(kept@.drop_last() =~= Seq::<DirectoryTreeSourceAggregate>::empty());
        assert(source_bytes_total(kept@) == source_bytes_total(kept@.drop_last()).saturating_add(root_source.bytes));
        assert(source_files_total(kept@) == source_files_total(kept@.drop_last()).saturating_add(
            root_source.file_count,
        ));
    }
    assert(kept@ =~= sources_with_files(all.take(1)));
    let n = child_sources.len();
    for s in it: child_sources.into_iter()
        invariant
            n == it.seq().len(),
            all == seq![all[0]] + it.seq(),
            kept@ == sources_with_files(all.take(it.index() + 1)),
            bytes == source_bytes_total(kept@),
            files == source_files_total(kept@),
    {
        let ghost idx = it.index();
        assert(all.take(idx + 2).drop_last() =~= all.take(idx + 1));
        assert(all.take(idx + 2).last() == s);
        if s.file_count > 0 {
            bytes = bytes.saturating_add(s.bytes);
            files = files.saturating_add(s.file_count);
            let ghost before = kept@;
            kept.push(s);
            assert(kept@.drop_last() =~= before);
        }
    }
    assert(all.take(n + 1) =~= all);
    let strategy = if large_fetch_enabled {
        "win32-find-large-fetch-resident-files-v2"
    } else {
        "win32-find-resident-files-v2"
    };
    DirectoryTreeAggregate { bytes, file_count: files, skipped_count, sources: kept, strategy, flagged_entry: first_flagged_entry }
}

/// The root of a Win32 enumeration must be a physical directory that is
/// resident: a remote-only placeholder is refused before its listing could
/// be recalled, and a file or reparse point is refused.
pub open spec fn windows_root_refusal(is_directory: bool, attributes: u32, remote_placeholder: bool) -> Option<Seq<char>> {
    if remote_placeholder {
        Some("directory aggregate root is a remote placeholder"@)
    } else if !is_directory || attributes & FILE_ATTRIBUTE_REPARSE_POINT != 0 {
        Some("directory aggregate root is not a physical directory"@)
    } else {
        None
    }
}

pub fn windows_root_check(is_directory: bool, attributes: u32, remote_placeholder: bool) -> (r: Result<(), String>)
    ensures
        match windows_root_refusal(is_directory, attributes, remote_placeholder) {
            Some(m) => r matches Err(e) && e@ == m,
            None => r is Ok,
        },
{
    if remote_placeholder {
        return Err("directory aggregate root is a remote placeholder".to_string());
    }
    if !is_directory || attributes & FILE_ATTRIBUTE_REPARSE_POINT != 0 {
        return Err("directory aggregate root is not a physical directory".to_string());
    }
    Ok(())
}

/// What a failed directory enumeration does to the measurement.
pub enum EnumerationFailure {
    /// The scan was cancelled meanwhile: the measurement stops as cancelled.
    Cancelled,
    /// The root itself failed: the measurement fails.
    Fail,
    /// A descendant failed: it counts as one skipped entry.
    Skip,
}

/// Accounts for a directory whose enumeration failed.
pub fn record_enumeration_failure(collection: &mut WindowsAggregate, at_root: bool, cancelled: bool) -> (r:
    EnumerationFailure)
    ensures
        cancelled ==> r is Cancelled,
        !cancelled && at_root ==> r is Fail,
        !cancelled && !at_root ==> r is Skip,
        final(collection).skipped_count == if !cancelled && !at_root {
            old(collection).skipped_count.saturating_add(1)
        } else {
            old(collection).skipped_count
        },
        final(collection).root_source == old(collection).root_source,
        final(collection).child_sources@ == old(collection).child_sources@,
        final(collection).pending@ == old(collection).pending@,
        final(collection).remote_placeholder_count == old(collection).remote_placeholder_count,
        final(collection).first_flagged_entry == old(collection).first_flagged_entry,
{
    if cancelled {
        return EnumerationFailure::Cancelled;
    }
    if at_root {
        return EnumerationFailure::Fail;
    }
    collection.skipped_count = collection.skipped_count.saturating_add(1);
    EnumerationFailure::Skip
}

} // verus!
