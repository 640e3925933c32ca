//! Merging the measurements of a compiled scan plan: every root task reports
//! per-rule totals, per-source totals and the empty directories it found;
//! the merge keeps one entry per source path, a bounded set of authorized
//! empty directories per rule, and the number of tasks each rule still waits
//! for.
use vstd::prelude::*;

use crate::directory_aggregate::{DirectoryTreeAggregate, DirectoryTreeSourceAggregate};
use crate::scan::{later_timestamp, merge_measure_result, merge_source_measurement, MeasureResult, SourceMeasurement};
use crate::text::{decimal, push_decimal, push_str, str_equal};

verus! {

/// Upper bound on the empty directories retained per rule; a directory past
/// the bound is not authorized and counts as skipped instead.
pub const MAX_EMPTY_DIRECTORY_AUTHORIZATIONS_PER_RULE: usize = 4096;

/// The saturating sum of two rule measurements.
pub open spec fn measure_sum(a: MeasureResult, b: MeasureResult) -> MeasureResult {
    MeasureResult {
        bytes: a.bytes.saturating_add(b.bytes),
        file_count: a.file_count.saturating_add(b.file_count),
        skipped_count: a.skipped_count.saturating_add(b.skipped_count),
    }
}

/// The saturating sum of two source measurements, keeping the later time.
pub open spec fn source_sum(a: SourceMeasurement, b: SourceMeasurement) -> SourceMeasurement {
    SourceMeasurement {
        bytes: a.bytes.saturating_add(b.bytes),
        file_count: a.file_count.saturating_add(b.file_count),
        modified_at_ms: later_timestamp(a.modified_at_ms, b.modified_at_ms),
    }
}

/// Index of the first entry keyed by `path`, or -1.
pub open spec fn path_index<V>(s: Seq<(String, V)>, path: Seq<char>) -> int
    decreases s.len(),
{
    if s.len() == 0 {
        -1
    } else if s[0].0@ == path {
        0
    } else {
        let r = path_index(s.drop_first(), path);
        if r < 0 {
            -1
        } else {
            r + 1
        }
    }
}

/// No two entries share a path.
pub open spec fn unique_paths<V>(s: Seq<(String, V)>) -> bool {
    forall|i: int, j: int| 0 <= i < j < s.len() ==> s[i].0@ != s[j].0@
}

/// A source entry merged into the entries of a rule: added into the entry
/// with the same path, appended when there is none.
pub open spec fn with_source(s: Seq<(String, SourceMeasurement)>, e: (String, SourceMeasurement)) -> Seq<
    (String, SourceMeasurement),
> {
    let i = path_index(s, e.0@);
    if i >= 0 {
        s.update(i, (s[i].0, source_sum(s[i].1, e.1)))
    } else {
        s.push(e)
    }
}

/// Source entries merged one after the other.
pub open spec fn with_sources(s: Seq<(String, SourceMeasurement)>, incoming: Seq<(String, SourceMeasurement)>) -> Seq<
    (String, SourceMeasurement),
>
    decreases incoming.len(),
{
    if incoming.len() == 0 {
        s
    } else {
        with_source(with_sources(s, incoming.drop_last()), incoming.last())
    }
}

proof fn lemma_path_index<V>(s: Seq<(String, V)>, path: Seq<char>)
    ensures
        -1 <= path_index(s, path) < s.len(),
        path_index(s, path) >= 0 ==> s[path_index(s, path)].0@ == path,
        path_index(s, path) >= 0 ==> forall|j: int| 0 <= j < path_index(s, path) ==> s[j].0@ != path,
        path_index(s, path) < 0 ==> forall|j: int| 0 <= j < s.len() ==> s[j].0@ != path,
    decreases s.len(),
{
    if s.len() > 0 && s[0].0@ != path {
        lemma_path_index(s.drop_first(), path);
        assert forall|j: int| 1 <= j < s.len() implies s[j] == s.drop_first()[j - 1] by {}
    }
}

/// Finds the entry keyed by `path`.
fn find_path<V>(s: &Vec<(String, V)>, path: &str) -> (r: Option<usize>)
    ensures
        match r {
            Some(i) => i as int == path_index(s@, path@),
            None => path_index(s@, path@) < 0,
        },
{
    proof {
        lemma_path_index(s@, path@);
    }
    let mut j: usize = 0;
    while j < s.len()
        invariant
            j <= s@.len(),
            forall|k: int| 0 <= k < j ==> s@[k].0@ != path@,
            -1 <= path_index(s@, path@) < s@.len(),
            path_index(s@, path@) >= 0 ==> s@[path_index(s@, path@)].0@ == path@,
            path_index(s@, path@) >= 0 ==> forall|k: int| 0 <= k < path_index(s@, path@) ==> s@[k].0@ != path@,
            path_index(s@, path@) < 0 ==> forall|k: int| 0 <= k < s@.len() ==> s@[k].0@ != path@,
        decreases s.len() - j,
    {
        if str_equal(s[j].0.as_str(), path) {
            return Some(j);
        }
        j = j + 1;
    }
    None
}

/// Merges one source entry into the entries of a rule.
pub fn merge_source(target: &mut Vec<(String, SourceMeasurement)>, e: (String, SourceMeasurement))
    ensures
        final(target)@ == with_source(old(target)@, e),
{
    proof {
        lemma_path_index(target@, e.0@);
    }
    match find_path(target, e.0.as_str()) {
        Some(i) => {
            let mut m = target[i].1;
            merge_source_measurement(&mut m, e.1);
            target[i].1 = m;
            assert(final(target)@ =~= old(target)@.update(i as int, (old(target)@[i as int].0, source_sum(old(target)@[i as int].1, e.1))));
        },
        None => {
            target.push(e);
        },
    }
}

/// Merges source entries into the entries of a rule, in order.
pub fn merge_sources(target: &mut Vec<(String, SourceMeasurement)>, incoming: Vec<(String, SourceMeasurement)>)
    ensures
        final(target)@ == with_sources(old(target)@, incoming@),
{
    let ghost start = target@;
    let ghost all = incoming@;
    for e in it: incoming.into_iter()
        invariant
            it.seq() == all,
            target@ == with_sources(start, all.take(it.index() as int)),
    {
        assert(all.take(it.index() + 1).drop_last() =~= all.take(it.index() as int));
        merge_source(target, e);
    }
    assert(all.take(all.len() as int) =~= all);
}

/// One empty directory offered for authorization: ignored when already
/// authorized, counted as skipped once the rule holds the maximum, retained
/// otherwise. The pair is the rule's directories and its skipped count.
pub open spec fn with_directory<I>(dirs: Seq<(String, I)>, skipped: u64, e: (String, I)) -> (Seq<(String, I)>, u64) {
    if path_index(dirs, e.0@) >= 0 {
        (dirs, skipped)
    } else if dirs.len() >= MAX_EMPTY_DIRECTORY_AUTHORIZATIONS_PER_RULE {
        (dirs, skipped.saturating_add(1))
    } else {
        (dirs.push(e), skipped)
    }
}

/// Empty directories offered one after the other.
pub open spec fn with_directories<I>(dirs: Seq<(String, I)>, skipped: u64, incoming: Seq<(String, I)>) -> (Seq<
    (String, I),
>, u64)
    decreases incoming.len(),
{
    if incoming.len() == 0 {
        (dirs, skipped)
    } else {
        let p = with_directories(dirs, skipped, incoming.drop_last());
        with_directory(p.0, p.1, incoming.last())
    }
}

/// What happens to an empty directory offered to a rule.
#[derive(Debug, Clone, Copy, PartialEq, Eq, Structural)]
pub enum DirectoryAdmission {
    /// The directory is already authorized: nothing changes.
    AlreadyAuthorized,
    /// The rule holds the maximum: the directory counts as skipped.
    OverLimit,
    /// The directory may be retained once its identity is known.
    Admit,
}

pub open spec fn admission_of<I>(dirs: Seq<(String, I)>, path: Seq<char>) -> DirectoryAdmission {
    if path_index(dirs, path) >= 0 {
        DirectoryAdmission::AlreadyAuthorized
    } else if dirs.len() >= MAX_EMPTY_DIRECTORY_AUTHORIZATIONS_PER_RULE {
        DirectoryAdmission::OverLimit
    } else {
        DirectoryAdmission::Admit
    }
}

/// Decides whether an empty directory found while measuring may be
/// authorized for its rule.
pub fn empty_directory_admission<I>(dirs: &Vec<(String, I)>, path: &str) -> (r: DirectoryAdmission)
    ensures
        r == admission_of(dirs@, path@),
{
    match find_path(dirs, path) {
        Some(_) => DirectoryAdmission::AlreadyAuthorized,
        None => if dirs.len() >= MAX_EMPTY_DIRECTORY_AUTHORIZATIONS_PER_RULE {
            DirectoryAdmission::OverLimit
        } else {
            DirectoryAdmission::Admit
        },
    }
}

/// Offers one empty directory to a rule (see `with_directory`).
pub fn authorize_directory<I>(dirs: &mut Vec<(String, I)>, skipped: &mut u64, e: (String, I))
    ensures
        (final(dirs)@, *final(skipped)) == with_directory(old(dirs)@, *old(skipped), e),
{
    match empty_directory_admission(dirs, e.0.as_str()) {
        DirectoryAdmission::AlreadyAuthorized => {},
        DirectoryAdmission::OverLimit => {
            *skipped = skipped.saturating_add(1);
        },
        DirectoryAdmission::Admit => {
            dirs.push(e);
        },
    }
}

/// Offers empty directories to a rule, in order.
pub fn authorize_directories<I>(dirs: &mut Vec<(String, I)>, skipped: &mut u64, incoming: Vec<(String, I)>)
    ensures
        (final(dirs)@, *final(skipped)) == with_directories(old(dirs)@, *old(skipped), incoming@),
{
    let ghost start = (dirs@, *skipped);
    let ghost all = incoming@;
    for e in it: incoming.into_iter()
        invariant
            it.seq() == all,
            (dirs@, *skipped) == with_directories(start.0, start.1, all.take(it.index() as int)),
    {
        assert(all.take(it.index() + 1).drop_last() =~= all.take(it.index() as int));
        authorize_directory(dirs, skipped, e);
    }
    assert(all.take(all.len() as int) =~= all);
}

/// The authorized directories of a rule never exceed the maximum and never
/// repeat a path, whatever is offered.
pub proof fn law_authorizations_stay_bounded_and_unique<I>(
    dirs: Seq<(String, I)>,
    skipped: u64,
    incoming: Seq<(String, I)>,
)
    requires
        dirs.len() <= MAX_EMPTY_DIRECTORY_AUTHORIZATIONS_PER_RULE,
        unique_paths(dirs),
    ensures
        with_directories(dirs, skipped, incoming).0.len() <= MAX_EMPTY_DIRECTORY_AUTHORIZATIONS_PER_RULE,
        unique_paths(with_directories(dirs, skipped, incoming).0),
        with_directories(dirs, skipped, incoming).1 >= skipped,
    decreases incoming.len(),
{
    if incoming.len() > 0 {
        law_authorizations_stay_bounded_and_unique(dirs, skipped, incoming.drop_last());
        let p = with_directories(dirs, skipped, incoming.drop_last());
        lemma_path_index(p.0, incoming.last().0@);
    }
}

/// Merging source entries never gives two entries of one path.
pub proof fn law_sources_keep_one_entry_per_path(
    s: Seq<(String, SourceMeasurement)>,
    incoming: Seq<(String, SourceMeasurement)>,
)
    requires
        unique_paths(s),
    ensures
        unique_paths(with_sources(s, incoming)),
    decreases incoming.len(),
{
    if incoming.len() > 0 {
        law_sources_keep_one_entry_per_path(s, incoming.drop_last());
        let p = with_sources(s, incoming.drop_last());
        lemma_path_index(p, incoming.last().0@);
    }
}

/// Rule measurements merged one after the other, each into the rule it
/// names.
pub open spec fn with_measures(m: Seq<MeasureResult>, updates: Seq<(usize, MeasureResult)>) -> Seq<MeasureResult>
    decreases updates.len(),
{
    if updates.len() == 0 {
        m
    } else {
        let p = with_measures(m, updates.drop_last());
        let u = updates.last();
        p.update(u.0 as int, measure_sum(p[u.0 as int], u.1))
    }
}

/// Per-rule source lists merged one after the other.
pub open spec fn with_rule_sources(
    by_rule: Seq<Seq<(String, SourceMeasurement)>>,
    incoming: Seq<(usize, Vec<(String, SourceMeasurement)>)>,
) -> Seq<Seq<(String, SourceMeasurement)>>
    decreases incoming.len(),
{
    if incoming.len() == 0 {
        by_rule
    } else {
        let p = with_rule_sources(by_rule, incoming.drop_last());
        let u = incoming.last();
        p.update(u.0 as int, with_sources(p[u.0 as int], u.1@))
    }
}

/// Per-rule empty directories offered one after the other; a directory past
/// the maximum adds to the skipped count of its rule.
pub open spec fn with_rule_directories<I>(
    dirs: Seq<Seq<(String, I)>>,
    rules: Seq<MeasureResult>,
    incoming: Seq<(usize, Vec<(String, I)>)>,
) -> (Seq<Seq<(String, I)>>, Seq<MeasureResult>)
    decreases incoming.len(),
{
    if incoming.len() == 0 {
        (dirs, rules)
    } else {
        let p = with_rule_directories(dirs, rules, incoming.drop_last());
        let u = incoming.last();
        let r = u.0 as int;
        let q = with_directories(p.0[r], p.1[r].skipped_count, u.1@);
        (p.0.update(r, q.0), p.1.update(r, MeasureResult { skipped_count: q.1, ..p.1[r] }))
    }
}

/// The rules that take part in a finished task: each gets the task's wall
/// time added and waits for one task less.
pub open spec fn with_task_time(elapsed: Seq<u64>, task_rules: Seq<usize>, elapsed_ms: u64) -> Seq<u64>
    decreases task_rules.len(),
{
    if task_rules.len() == 0 {
        elapsed
    } else {
        let p = with_task_time(elapsed, task_rules.drop_last(), elapsed_ms);
        let r = task_rules.last() as int;
        p.update(r, p[r].saturating_add(elapsed_ms))
    }
}

pub open spec fn with_task_done(remaining: Seq<usize>, task_rules: Seq<usize>) -> Seq<usize>
    decreases task_rules.len(),
{
    if task_rules.len() == 0 {
        remaining
    } else {
        let p = with_task_done(remaining, task_rules.drop_last());
        let r = task_rules.last() as int;
        p.update(r, if p[r] > 0 { (p[r] - 1) as usize } else { 0 })
    }
}

/// The rules whose last task this was, in the order the task lists them (a
/// rule listed twice is reported twice); none once the scan is cancelled.
pub open spec fn rules_completed(remaining: Seq<usize>, task_rules: Seq<usize>, cancelled: bool) -> Seq<usize>
    decreases task_rules.len(),
{
    if task_rules.len() == 0 || cancelled {
        seq![]
    } else {
        let before = rules_completed(remaining, task_rules.drop_last(), cancelled);
        let r = task_rules.last();
        if with_task_done(remaining, task_rules)[r as int] == 0 {
            before.push(r)
        } else {
            before
        }
    }
}

/// The views of a list of vectors.
pub open spec fn nested_view<T>(v: Seq<Vec<T>>) -> Seq<Seq<T>> {
    Seq::new(v.len(), |i: int| v[i]@)
}

/// Merges per-rule measurements into the totals of their rules.
pub fn merge_measures(rules: &mut Vec<MeasureResult>, updates: Vec<(usize, MeasureResult)>)
    requires
        forall|k: int| 0 <= k < updates@.len() ==> updates@[k].0 < old(rules)@.len(),
    ensures
        final(rules)@.len() == old(rules)@.len(),
        final(rules)@ == with_measures(old(rules)@, updates@),
{
    let ghost start = rules@;
    let ghost all = updates@;
    for u in it: updates.into_iter()
        invariant
            it.seq() == all,
            forall|k: int| 0 <= k < all.len() ==> all[k].0 < start.len(),
            rules@.len() == start.len(),
            rules@ == with_measures(start, all.take(it.index() as int)),
    {
        assert(all.take(it.index() + 1).drop_last() =~= all.take(it.index() as int));
        let mut m = rules[u.0];
        merge_measure_result(&mut m, u.1);
        rules.set(u.0, m);
    }
    assert(all.take(all.len() as int) =~= all);
}

/// Merges per-rule source lists into the sources of their rules.
pub fn merge_rule_sources(
    by_rule: &mut Vec<Vec<(String, SourceMeasurement)>>,
    incoming: Vec<(usize, Vec<(String, SourceMeasurement)>)>,
)
    requires
        forall|k: int| 0 <= k < incoming@.len() ==> incoming@[k].0 < old(by_rule)@.len(),
    ensures
        final(by_rule)@.len() == old(by_rule)@.len(),
        nested_view(final(by_rule)@) == with_rule_sources(nested_view(old(by_rule)@), incoming@),
{
    let ghost start = nested_view(by_rule@);
    let ghost n = by_rule@.len();
    let ghost all = incoming@;
    for u in it: incoming.into_iter()
        invariant
            it.seq() == all,
            forall|k: int| 0 <= k < all.len() ==> all[k].0 < n,
            by_rule@.len() == n,
            start.len() == n,
            nested_view(by_rule@) == with_rule_sources(start, all.take(it.index() as int)),
    {
        assert(all.take(it.index() + 1).drop_last() =~= all.take(it.index() as int));
        let ghost before = nested_view(by_rule@);
        let (r, list) = u;
        merge_sources(&mut by_rule[r], list);
        assert(nested_view(by_rule@) =~= before.update(r as int, with_sources(before[r as int], list@)));
    }
    assert(all.take(all.len() as int) =~= all);
}

/// Offers per-rule empty directories to their rules; a directory past the
/// maximum adds to its rule's skipped count.
pub fn authorize_rule_directories<I>(
    dirs: &mut Vec<Vec<(String, I)>>,
    rules: &mut Vec<MeasureResult>,
    incoming: Vec<(usize, Vec<(String, I)>)>,
)
    requires
        old(dirs)@.len() == old(rules)@.len(),
        forall|k: int| 0 <= k < incoming@.len() ==> incoming@[k].0 < old(rules)@.len(),
    ensures
        final(dirs)@.len() == old(dirs)@.len(),
        final(rules)@.len() == old(rules)@.len(),
        (nested_view(final(dirs)@), final(rules)@) == with_rule_directories(
            nested_view(old(dirs)@),
            old(rules)@,
            incoming@,
        ),
{
    let ghost start = (nested_view(dirs@), rules@);
    let ghost n = rules@.len();
    let ghost all = incoming@;
    for u in it: incoming.into_iter()
        invariant
            it.seq() == all,
            forall|k: int| 0 <= k < all.len() ==> all[k].0 < n,
            dirs@.len() == n,
            rules@.len() == n,
            start.0.len() == n,
            (nested_view(dirs@), rules@) == with_rule_directories(start.0, start.1, all.take(it.index() as int)),
    {
        assert(all.take(it.index() + 1).drop_last() =~= all.take(it.index() as int));
        let ghost before = nested_view(dirs@);
        let (r, list) = u;
        let mut m = rules[r];
        let mut skipped = m.skipped_count;
        authorize_directories(&mut dirs[r], &mut skipped, list);
        m.skipped_count = skipped;
        rules.set(r, m);
        assert(nested_view(dirs@) =~= before.update(r as int, dirs@[r as int]@));
    }
    assert(all.take(all.len() as int) =~= all);
}

/// Books a finished task against the rules it served: adds its wall time,
/// counts one task less, and returns the rules whose last task it was.
pub fn finish_task(
    elapsed: &mut Vec<u64>,
    remaining: &mut Vec<usize>,
    task_rules: &Vec<usize>,
    elapsed_ms: u64,
    cancelled: bool,
) -> (completed: Vec<usize>)
    requires
        old(elapsed)@.len() == old(remaining)@.len(),
        forall|k: int| 0 <= k < task_rules@.len() ==> task_rules@[k] < old(remaining)@.len(),
    ensures
        final(elapsed)@.len() == old(elapsed)@.len(),
        final(remaining)@.len() == old(remaining)@.len(),
        final(elapsed)@ == with_task_time(old(elapsed)@, task_rules@, elapsed_ms),
        final(remaining)@ == with_task_done(old(remaining)@, task_rules@),
        completed@ == rules_completed(old(remaining)@, task_rules@, cancelled),
{
    let ghost e0 = elapsed@;
    let ghost r0 = remaining@;
    let mut completed: Vec<usize> = Vec::new();
    let mut k: usize = 0;
    while k < task_rules.len()
        invariant
            k <= task_rules@.len(),
            forall|j: int| 0 <= j < task_rules@.len() ==> task_rules@[j] < r0.len(),
            elapsed@.len() == r0.len(),
            remaining@.len() == r0.len(),
            e0.len() == r0.len(),
            elapsed@ == with_task_time(e0, task_rules@.take(k as int), elapsed_ms),
            remaining@ == with_task_done(r0, task_rules@.take(k as int)),
            completed@ == rules_completed(r0, task_rules@.take(k as int), cancelled),
        decreases task_rules.len() - k,
    {
        let r = task_rules[k];
        let ghost next = task_rules@.take(k + 1);
        assert(next.drop_last() =~= task_rules@.take(k as int));
        elapsed.set(r, elapsed[r].saturating_add(elapsed_ms));
        let left = if remaining[r] > 0 {
            remaining[r] - 1
        } else {
            0
        };
        remaining.set(r, left);
        if !cancelled && left == 0 {
            completed.push(r);
        }
        k = k + 1;
    }
    assert(task_rules@.take(task_rules@.len() as int) =~= task_rules@);
    completed
}

/// A rule's count of outstanding tasks goes down by one for each time a
/// finished task lists it, and stops at zero.
pub proof fn law_outstanding_tasks_count_down(remaining: Seq<usize>, task_rules: Seq<usize>, r: int)
    requires
        0 <= r < remaining.len(),
        forall|k: int| 0 <= k < task_rules.len() ==> task_rules[k] < remaining.len(),
    ensures
        with_task_done(remaining, task_rules).len() == remaining.len(),
        with_task_done(remaining, task_rules)[r] == if remaining[r] >= count_in(task_rules, r) {
            remaining[r] - count_in(task_rules, r)
        } else {
            0
        },
    decreases task_rules.len(),
{
    if task_rules.len() > 0 {
        law_outstanding_tasks_count_down(remaining, task_rules.drop_last(), r);
        let last = task_rules.last() as int;
        law_outstanding_tasks_count_down(remaining, task_rules.drop_last(), last);
    }
}

/// The outstanding task counts after the tasks are merged in order.
pub open spec fn after_tasks(remaining: Seq<usize>, tasks: Seq<Vec<usize>>) -> Seq<usize>
    decreases tasks.len(),
{
    if tasks.len() == 0 {
        remaining
    } else {
        with_task_done(after_tasks(remaining, tasks.drop_last()), tasks.last()@)
    }
}

/// Merging tasks counts each rule down by the number of times they list it;
/// so once every root task of a plan is merged, starting from the counts
/// the plan began with, no rule waits for another task.
pub proof fn law_every_rule_completes_with_its_tasks(remaining: Seq<usize>, tasks: Seq<Vec<usize>>, r: int)
    requires
        0 <= r < remaining.len(),
        forall|t: int, j: int| 0 <= t < tasks.len() && 0 <= j < tasks[t]@.len() ==> tasks[t]@[j] < remaining.len(),
        remaining[r] >= task_occurrences(tasks, r),
    ensures
        after_tasks(remaining, tasks).len() == remaining.len(),
        after_tasks(remaining, tasks)[r] == remaining[r] - task_occurrences(tasks, r),
        remaining[r] == task_occurrences(tasks, r) ==> after_tasks(remaining, tasks)[r] == 0,
    decreases tasks.len(),
{
    if tasks.len() > 0 {
        let prev = tasks.drop_last();
        assert forall|t: int, j: int| 0 <= t < prev.len() && 0 <= j < prev[t]@.len() implies prev[t]@[j] < remaining.len() by {
            assert(prev[t] == tasks[t]);
        }
        law_every_rule_completes_with_its_tasks(remaining, prev, r);
        let before = after_tasks(remaining, prev);
        let last = tasks.last()@;
        assert(tasks.last() == tasks[tasks.len() - 1]);
        law_outstanding_tasks_count_down(before, last, r);
    }
}

/// How often rule `r` occurs in a list of rule indices.
pub open spec fn count_in(s: Seq<usize>, r: int) -> nat
    decreases s.len(),
{
    if s.len() == 0 {
        0
    } else {
        count_in(s.drop_last(), r) + if s.last() as int == r {
            1nat
        } else {
            0nat
        }
    }
}

/// How many tasks list rule `r` (a task listing it twice counts twice).
pub open spec fn task_occurrences(tasks: Seq<Vec<usize>>, r: int) -> nat
    decreases tasks.len(),
{
    if tasks.len() == 0 {
        0
    } else {
        task_occurrences(tasks.drop_last(), r) + count_in(tasks.last()@, r)
    }
}

proof fn lemma_count_prefix(s: Seq<usize>, j: int, r: int)
    requires
        0 <= j <= s.len(),
    ensures
        count_in(s.take(j), r) <= count_in(s, r),
    decreases s.len() - j,
{
    if j < s.len() {
        lemma_count_prefix(s, j + 1, r);
        assert(s.take(j + 1).drop_last() =~= s.take(j));
    } else {
        assert(s.take(j) =~= s);
    }
}

proof fn lemma_occurrences_prefix(tasks: Seq<Vec<usize>>, t: int, r: int)
    requires
        0 <= t <= tasks.len(),
    ensures
        task_occurrences(tasks.take(t), r) <= task_occurrences(tasks, r),
    decreases tasks.len() - t,
{
    if t < tasks.len() {
        lemma_occurrences_prefix(tasks, t + 1, r);
        assert(tasks.take(t + 1).drop_last() =~= tasks.take(t));
    } else {
        assert(tasks.take(t) =~= tasks);
    }
}

/// The number of tasks each rule waits for before its measurement is whole.
pub fn task_counts(rule_count: usize, tasks: &Vec<Vec<usize>>) -> (counts: Vec<usize>)
    requires
        forall|t: int, j: int| 0 <= t < tasks@.len() && 0 <= j < tasks@[t]@.len() ==> tasks@[t]@[j] < rule_count,
        forall|r: int| 0 <= r < rule_count ==> task_occurrences(tasks@, r) <= usize::MAX,
    ensures
        counts@.len() == rule_count,
        forall|r: int| 0 <= r < rule_count ==> counts@[r] == task_occurrences(tasks@, r),
{
    let mut counts: Vec<usize> = Vec::new();
    let mut i: usize = 0;
    while i < rule_count
        invariant
            i <= rule_count,
            counts@.len() == i,
            forall|r: int| 0 <= r < i ==> counts@[r] == 0,
        decreases rule_count - i,
    {
        counts.push(0);
        i = i + 1;
    }
    assert(tasks@.take(0) =~= Seq::<Vec<usize>>::empty());
    let mut t: usize = 0;
    while t < tasks.len()
        invariant
            t <= tasks@.len(),
            counts@.len() == rule_count,
            forall|a: int, j: int| 0 <= a < tasks@.len() && 0 <= j < tasks@[a]@.len() ==> tasks@[a]@[j] < rule_count,
            forall|r: int| 0 <= r < rule_count ==> task_occurrences(tasks@, r) <= usize::MAX,
            forall|r: int| 0 <= r < rule_count ==> counts@[r] == task_occurrences(tasks@.take(t as int), r),
        decreases tasks.len() - t,
    {
        let task = &tasks[t];
        let ghost base = counts@;
        assert(tasks@.take(t + 1).drop_last() =~= tasks@.take(t as int));
        let mut j: usize = 0;
        while j < task.len()
            invariant
                t < tasks@.len(),
                *task == tasks@[t as int],
                j <= task@.len(),
                counts@.len() == rule_count,
                base.len() == rule_count,
                forall|b: int| 0 <= b < task@.len() ==> task@[b] < rule_count,
                forall|r: int| 0 <= r < rule_count ==> task_occurrences(tasks@, r) <= usize::MAX,
                forall|r: int| 0 <= r < rule_count ==> base[r] == task_occurrences(tasks@.take(t as int), r),
                forall|r: int| 0 <= r < rule_count ==> counts@[r] == base[r] + count_in(task@.take(j as int), r),
            decreases task.len() - j,
        {
            let r = task[j];
            assert(task@.take(j + 1).drop_last() =~= task@.take(j as int));
            proof {
                lemma_count_prefix(task@, j + 1, r as int);
                lemma_occurrences_prefix(tasks@, t + 1, r as int);
                assert(tasks@.take(t + 1).last() == tasks@[t as int]);
                assert(tasks@.take(t + 1).drop_last() =~= tasks@.take(t as int));
                assert(task_occurrences(tasks@.take(t + 1), r as int) == task_occurrences(tasks@.take(t as int), r as int)
                    + count_in(task@, r as int));
                assert(count_in(task@.take(j + 1), r as int) == count_in(task@.take(j as int), r as int) + 1);
            }
            counts.set(r, counts[r] + 1);
            j = j + 1;
        }
        assert(task@.take(task@.len() as int) =~= task@);
        t = t + 1;
    }
    assert(tasks@.take(tasks@.len() as int) =~= tasks@);
    counts
}

/// What one root task measured, per rule index.
pub struct RootTaskMeasurement<I> {
    pub task_index: usize,
    pub measured: Vec<(usize, MeasureResult)>,
    pub sources: Vec<(usize, Vec<(String, SourceMeasurement)>)>,
    pub empty_directories: Vec<(usize, Vec<(String, I)>)>,
    pub elapsed_ms: u64,
}

/// The merged measurements of a scan plan, one slot per rule; `I` is the
/// identity recorded for an authorized empty directory.
pub struct PlanMeasurement<I> {
    pub rules: Vec<MeasureResult>,
    pub elapsed_by_rule: Vec<u64>,
    pub sources_by_rule: Vec<Vec<(String, SourceMeasurement)>>,
    pub empty_directories_by_rule: Vec<Vec<(String, I)>>,
    pub remaining_tasks: Vec<usize>,
    pub completed_task_count: usize,
}

/// Every index a task result names is a rule of the plan.
pub open spec fn result_in_range<I>(result: RootTaskMeasurement<I>, rule_count: nat) -> bool {
    &&& forall|k: int| 0 <= k < result.measured@.len() ==> result.measured@[k].0 < rule_count
    &&& forall|k: int| 0 <= k < result.sources@.len() ==> result.sources@[k].0 < rule_count
    &&& forall|k: int| 0 <= k < result.empty_directories@.len() ==> result.empty_directories@[k].0 < rule_count
}

impl<I> PlanMeasurement<I> {
    /// One slot per rule in every list.
    pub open spec fn well_formed(&self) -> bool {
        &&& self.elapsed_by_rule@.len() == self.rules@.len()
        &&& self.sources_by_rule@.len() == self.rules@.len()
        &&& self.empty_directories_by_rule@.len() == self.rules@.len()
        &&& self.remaining_tasks@.len() == self.rules@.len()
    }

    /// How a task result changes the merged measurements: rule totals are
    /// added, sources merged by path, empty directories offered (overflow
    /// counting as skipped), and the rules the task served get its wall
    /// time and wait for one task less.
    pub open spec fn absorbed(
        old: PlanMeasurement<I>,
        new: PlanMeasurement<I>,
        result: RootTaskMeasurement<I>,
        task_rules: Seq<usize>,
        cancelled: bool,
        completed: Seq<usize>,
    ) -> bool {
        let rules = with_measures(old.rules@, result.measured@);
        let dirs = with_rule_directories(nested_view(old.empty_directories_by_rule@), rules, result.empty_directories@);
        &&& new.rules@ == dirs.1
        &&& nested_view(new.sources_by_rule@) == with_rule_sources(nested_view(old.sources_by_rule@), result.sources@)
        &&& nested_view(new.empty_directories_by_rule@) == dirs.0
        &&& new.elapsed_by_rule@ == with_task_time(old.elapsed_by_rule@, task_rules, result.elapsed_ms)
        &&& new.remaining_tasks@ == with_task_done(old.remaining_tasks@, task_rules)
        &&& completed == rules_completed(old.remaining_tasks@, task_rules, cancelled)
        &&& new.completed_task_count == old.completed_task_count + 1
    }

    /// Empty measurements for a plan of `rule_count` rules whose root tasks
    /// list the rules in `tasks`.
    pub fn new(rule_count: usize, tasks: &Vec<Vec<usize>>) -> (m: PlanMeasurement<I>)
        requires
            forall|t: int, j: int| 0 <= t < tasks@.len() && 0 <= j < tasks@[t]@.len() ==> tasks@[t]@[j] < rule_count,
            forall|r: int| 0 <= r < rule_count ==> task_occurrences(tasks@, r) <= usize::MAX,
        ensures
            m.well_formed(),
            m.rules@.len() == rule_count,
            forall|r: int| 0 <= r < rule_count ==> m.rules@[r] == (MeasureResult { bytes: 0, file_count: 0, skipped_count: 0 }),
            forall|r: int| 0 <= r < rule_count ==> m.elapsed_by_rule@[r] == 0,
            forall|r: int| 0 <= r < rule_count ==> m.sources_by_rule@[r]@.len() == 0,
            forall|r: int| 0 <= r < rule_count ==> m.empty_directories_by_rule@[r]@.len() == 0,
            forall|r: int| 0 <= r < rule_count ==> m.remaining_tasks@[r] == task_occurrences(tasks@, r),
            m.completed_task_count == 0,
    {
        let mut rules: Vec<MeasureResult> = Vec::new();
        let mut elapsed: Vec<u64> = Vec::new();
        let mut sources: Vec<Vec<(String, SourceMeasurement)>> = Vec::new();
        let mut dirs: Vec<Vec<(String, I)>> = Vec::new();
        let mut i: usize = 0;
        while i < rule_count
            invariant
                i <= rule_count,
                rules@.len() == i && elapsed@.len() == i && sources@.len() == i && dirs@.len() == i,
                forall|r: int| 0 <= r < i ==> rules@[r] == (MeasureResult { bytes: 0, file_count: 0, skipped_count: 0 }),
                forall|r: int| 0 <= r < i ==> elapsed@[r] == 0,
                forall|r: int| 0 <= r < i ==> sources@[r]@.len() == 0,
                forall|r: int| 0 <= r < i ==> dirs@[r]@.len() == 0,
            decreases rule_count - i,
        {
            rules.push(MeasureResult { bytes: 0, file_count: 0, skipped_count: 0 });
            elapsed.push(0);
            sources.push(Vec::new());
            dirs.push(Vec::new());
            i = i + 1;
        }
        PlanMeasurement {
            rules,
            elapsed_by_rule: elapsed,
            sources_by_rule: sources,
            empty_directories_by_rule: dirs,
            remaining_tasks: task_counts(rule_count, tasks),
            completed_task_count: 0,
        }
    }

    /// Merges the result of one finished root task that served `task_rules`
    /// and returns the rules whose measurement is now whole.
    pub fn absorb(&mut self, result: RootTaskMeasurement<I>, task_rules: &Vec<usize>, cancelled: bool) -> (completed:
        Vec<usize>)
        requires
            old(self).well_formed(),
            result_in_range(result, old(self).rules@.len()),
            forall|k: int| 0 <= k < task_rules@.len() ==> task_rules@[k] < old(self).rules@.len(),
            old(self).completed_task_count < usize::MAX,
        ensures
            final(self).well_formed(),
            final(self).rules@.len() == old(self).rules@.len(),
            Self::absorbed(*old(self), *final(self), result, task_rules@, cancelled, completed@),
    {
        let RootTaskMeasurement { task_index: _, measured, sources, empty_directories, elapsed_ms } = result;
        merge_measures(&mut self.rules, measured);
        merge_rule_sources(&mut self.sources_by_rule, sources);
        authorize_rule_directories(&mut self.empty_directories_by_rule, &mut self.rules, empty_directories);
        let completed = finish_task(
            &mut self.elapsed_by_rule,
            &mut self.remaining_tasks,
            task_rules,
            elapsed_ms,
            cancelled,
        );
        self.completed_task_count = self.completed_task_count + 1;
        completed
    }

    /// The merged measurements once every worker has stopped, or why they
    /// cannot be published (see `measurement_error`).
    pub fn finish(self, task_count: usize, workers_ok: bool, cancelled: bool) -> (r: Result<PlanMeasurement<I>, String>)
        ensures
            match measurement_error(task_count, workers_ok, cancelled, self.completed_task_count) {
                Some(message) => r matches Err(e) && e@ == message,
                None => r matches Ok(m) && m == self,
            },
    {
        if task_count == 0 {
            return Ok(self);
        }
        if !workers_ok {
            return Err("cleanup scan worker terminated unexpectedly".to_string());
        }
        if cancelled {
            return Err("scan cancelled".to_string());
        }
        if self.completed_task_count != task_count {
            let mut message = "cleanup scan incomplete: expected ".to_string();
            push_decimal(&mut message, task_count as u64);
            push_str(&mut message, ", completed ");
            push_decimal(&mut message, self.completed_task_count as u64);
            return Err(message);
        }
        Ok(self)
    }
}

/// Why merged measurements cannot be published: a plan without tasks is
/// always whole; otherwise a failed worker, a cancellation, or a task count
/// that does not match the plan withholds them.
pub open spec fn measurement_error(task_count: usize, workers_ok: bool, cancelled: bool, completed: usize) -> Option<
    Seq<char>,
> {
    if task_count == 0 {
        None
    } else if !workers_ok {
        Some("cleanup scan worker terminated unexpectedly"@)
    } else if cancelled {
        Some("scan cancelled"@)
    } else if completed != task_count {
        Some(
            "cleanup scan incomplete: expected "@ + decimal(task_count as nat) + ", completed "@ + decimal(
                completed as nat,
            ),
        )
    } else {
        None
    }
}

/// Measurements of a plan with tasks are published only when every worker
/// finished, the scan was not cancelled, and every task was merged; a
/// cancelled scan never publishes partial totals.
pub proof fn law_only_whole_measurements_are_published(
    task_count: usize,
    workers_ok: bool,
    cancelled: bool,
    completed: usize,
)
    requires
        task_count > 0,
    ensures
        (measurement_error(task_count, workers_ok, cancelled, completed) is None) <==> (workers_ok && !cancelled
            && completed == task_count),
{
}

/// What the native whole-tree aggregate of a root reported.
pub enum AggregateOutcome {
    /// The tree was measured.
    Measured(DirectoryTreeAggregate),
    /// No native aggregate exists for this root.
    Unsupported,
    /// The scan was cancelled while measuring.
    Cancelled,
    /// The native aggregate failed; the error's text.
    Failed(String),
}

/// How a root task proceeds after trying the native aggregate.
pub enum RootTaskStep<I> {
    /// The aggregate is the task's whole measurement.
    Measured(RootTaskMeasurement<I>),
    /// The task stops without measurement (cancelled).
    Stop,
    /// The task walks the tree entry by entry instead.
    Walk,
}

pub open spec fn source_entry(s: DirectoryTreeSourceAggregate) -> (Seq<char>, SourceMeasurement) {
    (s.path@, SourceMeasurement { bytes: s.bytes, file_count: s.file_count, modified_at_ms: s.modified_at_ms })
}

/// The measurement of a root task that the native aggregate measured for
/// the rule owning the whole root: the tree's totals and its sources, all
/// for that rule.
pub open spec fn aggregate_measurement<I>(
    m: RootTaskMeasurement<I>,
    task_index: usize,
    rule_index: usize,
    aggregate: DirectoryTreeAggregate,
    elapsed_ms: u64,
) -> bool {
    &&& m.task_index == task_index
    &&& m.measured@ == seq![
        (
            rule_index,
            MeasureResult {
                bytes: aggregate.bytes,
                file_count: aggregate.file_count,
                skipped_count: aggregate.skipped_count,
            },
        ),
    ]
    &&& m.sources@.len() == 1
    &&& m.sources@[0].0 == rule_index
    &&& m.sources@[0].1@.map_values(|e: (String, SourceMeasurement)| (e.0@, e.1)) == aggregate.sources@.map_values(
        |s: DirectoryTreeSourceAggregate| source_entry(s),
    )
    &&& m.empty_directories@.len() == 0
    &&& m.elapsed_ms == elapsed_ms
}

/// Decides a root task from the native aggregate's outcome: a measured tree
/// is the task's measurement, a cancellation stops the task, and an
/// unsupported or failed aggregate falls back to walking the tree.
pub fn root_task_step<I>(task_index: usize, rule_index: usize, outcome: AggregateOutcome, elapsed_ms: u64) -> (step:
    RootTaskStep<I>)
    ensures
        match outcome {
            AggregateOutcome::Measured(a) => step matches RootTaskStep::Measured(m) && aggregate_measurement(
                m,
                task_index,
                rule_index,
                a,
                elapsed_ms,
            ),
            AggregateOutcome::Cancelled => step is Stop,
            _ => step is Walk,
        },
{
    match outcome {
        AggregateOutcome::Measured(aggregate) => {
            let ghost all = aggregate.sources@;
            let totals = MeasureResult {
                bytes: aggregate.bytes,
                file_count: aggregate.file_count,
                skipped_count: aggregate.skipped_count,
            };
            let mut entries: Vec<(String, SourceMeasurement)> = Vec::new();
            for source in it: aggregate.sources.into_iter()
                invariant
                    it.seq() == all,
                    entries@.map_values(|e: (String, SourceMeasurement)| (e.0@, e.1)) == all.take(
                        it.index() as int,
                    ).map_values(|s: DirectoryTreeSourceAggregate| source_entry(s)),
            {
                let ghost before = entries@.map_values(|e: (String, SourceMeasurement)| (e.0@, e.1));
                let ghost idx = it.index();
                entries.push(
                    (
                        source.path,
                        SourceMeasurement {
                            bytes: source.bytes,
                            file_count: source.file_count,
                            modified_at_ms: source.modified_at_ms,
                        },
                    ),
                );
                assert(all.take(idx + 1) =~= all.take(idx as int).push(all[idx as int]));
                assert(entries@.map_values(|e: (String, SourceMeasurement)| (e.0@, e.1)) =~= before.push(
                    source_entry(all[idx as int]),
                ));
            }
            assert(all.take(all.len() as int) =~= all);
            let mut measured: Vec<(usize, MeasureResult)> = Vec::new();
            measured.push((rule_index, totals));
            let mut sources: Vec<(usize, Vec<(String, SourceMeasurement)>)> = Vec::new();
            sources.push((rule_index, entries));
            RootTaskStep::Measured(
                RootTaskMeasurement { task_index, measured, sources, empty_directories: Vec::new(), elapsed_ms },
            )
        },
        AggregateOutcome::Cancelled => RootTaskStep::Stop,
        _ => RootTaskStep::Walk,
    }
}

} // verus!

verus! {

/// `x` capped at `u64::MAX`, as repeated saturating additions give it.
pub open spec fn capped(x: int) -> u64 {
    if x > u64::MAX {
        u64::MAX
    } else {
        x as u64
    }
}

/// The bytes, files and skipped entries that measurement updates list for
/// rule `r`, summed without bound.
pub open spec fn listed_totals(u: Seq<(usize, MeasureResult)>, r: int) -> (nat, nat, nat)
    decreases u.len(),
{
    if u.len() == 0 {
        (0, 0, 0)
    } else {
        let p = listed_totals(u.drop_last(), r);
        if u.last().0 as int == r {
            (p.0 + u.last().1.bytes as nat, p.1 + u.last().1.file_count as nat, p.2 + u.last().1.skipped_count as nat)
        } else {
            p
        }
    }
}

/// Merged rule totals are the capped sums of everything listed for the
/// rule, whatever the order of the updates.
pub proof fn law_rule_totals_are_capped_sums(m: Seq<MeasureResult>, u: Seq<(usize, MeasureResult)>, r: int)
    requires
        0 <= r < m.len(),
        forall|k: int| 0 <= k < u.len() ==> u[k].0 < m.len(),
    ensures
        with_measures(m, u).len() == m.len(),
        with_measures(m, u)[r] == (MeasureResult {
            bytes: capped(m[r].bytes + listed_totals(u, r).0),
            file_count: capped(m[r].file_count + listed_totals(u, r).1),
            skipped_count: capped(m[r].skipped_count + listed_totals(u, r).2),
        }),
    decreases u.len(),
{
    if u.len() > 0 {
        let prev = u.drop_last();
        law_rule_totals_are_capped_sums(m, prev, r);
        let i = u.last().0 as int;
        law_rule_totals_are_capped_sums(m, prev, i);
    }
}

/// Wall time a rule gets from finished tasks: the task's time once for each
/// time the task lists the rule, saturating.
proof fn lemma_task_time(elapsed: Seq<u64>, task_rules: Seq<usize>, ms: u64, r: int)
    requires
        0 <= r < elapsed.len(),
        forall|k: int| 0 <= k < task_rules.len() ==> task_rules[k] < elapsed.len(),
    ensures
        with_task_time(elapsed, task_rules, ms).len() == elapsed.len(),
        with_task_time(elapsed, task_rules, ms)[r] == capped(elapsed[r] + count_in(task_rules, r) * ms),
    decreases task_rules.len(),
{
    if task_rules.len() > 0 {
        let prev = task_rules.drop_last();
        lemma_task_time(elapsed, prev, ms, r);
        lemma_task_time(elapsed, prev, ms, task_rules.last() as int);
        let c = count_in(prev, r);
        let p = with_task_time(elapsed, prev, ms);
        assert(c * ms >= 0) by (nonlinear_arith);
        if task_rules.last() as int == r {
            let k = count_in(task_rules, r);
            assert(k == c + 1);
            assert(k * ms == c * ms + ms) by (nonlinear_arith)
                requires
                    k == c + 1,
            ;
            lemma_capped_add(elapsed[r] + c * ms, ms);
            assert(with_task_time(elapsed, task_rules, ms)[r] == p[r].saturating_add(ms));
        } else {
            assert(count_in(task_rules, r) == c);
            assert(with_task_time(elapsed, task_rules, ms)[r] == p[r]);
        }
    } else {
        let k = count_in(task_rules, r);
        assert(k == 0);
        assert(k * ms == 0) by (nonlinear_arith)
            requires
                k == 0,
        ;
    }
}

proof fn lemma_capped_add(x: int, y: u64)
    requires
        x >= 0,
    ensures
        capped(x).saturating_add(y) == capped(x + y),
{
}

/// Offering empty directories changes only the skipped counts of the rules.
proof fn lemma_directories_keep_totals<I>(
    dirs: Seq<Seq<(String, I)>>,
    rules: Seq<MeasureResult>,
    incoming: Seq<(usize, Vec<(String, I)>)>,
)
    requires
        dirs.len() == rules.len(),
        forall|k: int| 0 <= k < incoming.len() ==> incoming[k].0 < rules.len(),
    ensures
        with_rule_directories(dirs, rules, incoming).0.len() == rules.len(),
        with_rule_directories(dirs, rules, incoming).1.len() == rules.len(),
        forall|r: int|
            #![trigger with_rule_directories(dirs, rules, incoming).1[r]]
            0 <= r < rules.len() ==> with_rule_directories(dirs, rules, incoming).1[r].bytes == rules[r].bytes
                && with_rule_directories(dirs, rules, incoming).1[r].file_count == rules[r].file_count,
        incoming.len() == 0 ==> with_rule_directories(dirs, rules, incoming).1 == rules,
    decreases incoming.len(),
{
    if incoming.len() > 0 {
        lemma_directories_keep_totals(dirs, rules, incoming.drop_last());
        let p = with_rule_directories(dirs, rules, incoming.drop_last());
        let w = with_rule_directories(dirs, rules, incoming);
        assert forall|r: int| 0 <= r < rules.len() implies #[trigger] w.1[r].bytes == rules[r].bytes
            && w.1[r].file_count == rules[r].file_count by {
            assert(p.1[r].file_count == rules[r].file_count);
            assert(p.1[r].bytes == rules[r].bytes);
        }
    } else {
        assert(with_rule_directories(dirs, rules, incoming).1 == rules);
    }
}

/// Two task results absorbed in either order give the same byte and file
/// totals for every rule, the same wall time and outstanding tasks per rule,
/// and the same count of merged tasks. The skipped counts agree too for
/// every rule with room under its limit for all the empty directories
/// offered to it (and for all rules when neither result offers any): once a
/// rule is full, its limit admits directories first come, first served. So a
/// plan's measurement does not depend on the order in which its workers
/// finish, nor on how many workers there are.
pub proof fn law_absorb_order_does_not_change_totals<I>(
    m: PlanMeasurement<I>,
    a: RootTaskMeasurement<I>,
    a_rules: Seq<usize>,
    b: RootTaskMeasurement<I>,
    b_rules: Seq<usize>,
    cancelled: bool,
    a_first: PlanMeasurement<I>,
    a_then_b: PlanMeasurement<I>,
    b_first: PlanMeasurement<I>,
    b_then_a: PlanMeasurement<I>,
    completed: Seq<Seq<usize>>,
)
    requires
        m.well_formed(),
        result_in_range(a, m.rules@.len()),
        result_in_range(b, m.rules@.len()),
        forall|k: int| 0 <= k < a_rules.len() ==> a_rules[k] < m.rules@.len(),
        forall|k: int| 0 <= k < b_rules.len() ==> b_rules[k] < m.rules@.len(),
        completed.len() == 4,
        PlanMeasurement::absorbed(m, a_first, a, a_rules, cancelled, completed[0]),
        PlanMeasurement::absorbed(a_first, a_then_b, b, b_rules, cancelled, completed[1]),
        PlanMeasurement::absorbed(m, b_first, b, b_rules, cancelled, completed[2]),
        PlanMeasurement::absorbed(b_first, b_then_a, a, a_rules, cancelled, completed[3]),
    ensures
        a_then_b.rules@.len() == m.rules@.len(),
        b_then_a.rules@.len() == m.rules@.len(),
        forall|r: int|
            0 <= r < m.rules@.len() ==> #[trigger] a_then_b.rules@[r].bytes == b_then_a.rules@[r].bytes
                && a_then_b.rules@[r].file_count == b_then_a.rules@[r].file_count,
        a.empty_directories@.len() == 0 && b.empty_directories@.len() == 0 ==> a_then_b.rules@ == b_then_a.rules@,
        forall|r: int|
            0 <= r < m.rules@.len() && m.empty_directories_by_rule@[r]@.len() + offered_count(a.empty_directories@, r)
                + offered_count(b.empty_directories@, r) <= MAX_EMPTY_DIRECTORY_AUTHORIZATIONS_PER_RULE
                ==> #[trigger] a_then_b.rules@[r] == b_then_a.rules@[r],
        a_then_b.elapsed_by_rule@ == b_then_a.elapsed_by_rule@,
        a_then_b.remaining_tasks@ == b_then_a.remaining_tasks@,
        a_then_b.completed_task_count == b_then_a.completed_task_count,
{
    let n = m.rules@.len();
    let m_a = with_measures(m.rules@, a.measured@);
    let m_b = with_measures(m.rules@, b.measured@);
    lemma_lengths_kept(m.rules@, a.measured@, m.remaining_tasks@, m.elapsed_by_rule@, a_rules, a.elapsed_ms);
    lemma_lengths_kept(m.rules@, b.measured@, m.remaining_tasks@, m.elapsed_by_rule@, b_rules, b.elapsed_ms);
    lemma_directories_keep_totals(nested_view(m.empty_directories_by_rule@), m_a, a.empty_directories@);
    lemma_directories_keep_totals(nested_view(m.empty_directories_by_rule@), m_b, b.empty_directories@);
    let m_ab = with_measures(a_first.rules@, b.measured@);
    let m_ba = with_measures(b_first.rules@, a.measured@);
    lemma_lengths_kept(a_first.rules@, b.measured@, a_first.remaining_tasks@, a_first.elapsed_by_rule@, b_rules, b.elapsed_ms);
    lemma_lengths_kept(b_first.rules@, a.measured@, b_first.remaining_tasks@, b_first.elapsed_by_rule@, a_rules, a.elapsed_ms);
    lemma_directories_keep_totals(nested_view(a_first.empty_directories_by_rule@), m_ab, b.empty_directories@);
    lemma_directories_keep_totals(nested_view(b_first.empty_directories_by_rule@), m_ba, a.empty_directories@);
    assert forall|r: int| 0 <= r < n implies #[trigger] a_then_b.rules@[r].bytes == b_then_a.rules@[r].bytes
        && a_then_b.rules@[r].file_count == b_then_a.rules@[r].file_count by {
        lemma_rule_totals_commute(m, a, b, a_first, a_then_b, b_first, b_then_a, r);
    }
    assert forall|r: int|
        0 <= r < n && m.empty_directories_by_rule@[r]@.len() + offered_count(a.empty_directories@, r) + offered_count(
            b.empty_directories@,
            r,
        ) <= MAX_EMPTY_DIRECTORY_AUTHORIZATIONS_PER_RULE implies #[trigger] a_then_b.rules@[r] == b_then_a.rules@[r] by {
        lemma_rule_totals_commute(m, a, b, a_first, a_then_b, b_first, b_then_a, r);
    }
    if a.empty_directories@.len() == 0 && b.empty_directories@.len() == 0 {
        assert forall|r: int| 0 <= r < n implies #[trigger] a_then_b.rules@[r] == b_then_a.rules@[r] by {
            lemma_rule_totals_commute(m, a, b, a_first, a_then_b, b_first, b_then_a, r);
        }
        assert(a_then_b.rules@ =~= b_then_a.rules@);
    }
    assert forall|r: int| 0 <= r < n implies #[trigger] a_then_b.elapsed_by_rule@[r] == b_then_a.elapsed_by_rule@[r] by {
        lemma_task_time(m.elapsed_by_rule@, a_rules, a.elapsed_ms, r);
        lemma_task_time(m.elapsed_by_rule@, b_rules, b.elapsed_ms, r);
        lemma_task_time(a_first.elapsed_by_rule@, b_rules, b.elapsed_ms, r);
        lemma_task_time(b_first.elapsed_by_rule@, a_rules, a.elapsed_ms, r);
    }
    assert forall|r: int| 0 <= r < n implies #[trigger] a_then_b.remaining_tasks@[r] == b_then_a.remaining_tasks@[r] by {
        law_outstanding_tasks_count_down(m.remaining_tasks@, a_rules, r);
        law_outstanding_tasks_count_down(m.remaining_tasks@, b_rules, r);
        law_outstanding_tasks_count_down(a_first.remaining_tasks@, b_rules, r);
        law_outstanding_tasks_count_down(b_first.remaining_tasks@, a_rules, r);
    }
    assert(a_then_b.elapsed_by_rule@ =~= b_then_a.elapsed_by_rule@);
    assert(a_then_b.remaining_tasks@ =~= b_then_a.remaining_tasks@);
}

/// One rule's totals after two task results, in either order.
proof fn lemma_rule_totals_commute<I>(
    m: PlanMeasurement<I>,
    a: RootTaskMeasurement<I>,
    b: RootTaskMeasurement<I>,
    a_first: PlanMeasurement<I>,
    a_then_b: PlanMeasurement<I>,
    b_first: PlanMeasurement<I>,
    b_then_a: PlanMeasurement<I>,
    r: int,
)
    requires
        m.well_formed(),
        0 <= r < m.rules@.len(),
        result_in_range(a, m.rules@.len()),
        result_in_range(b, m.rules@.len()),
        a_first.rules@ == with_rule_directories(nested_view(m.empty_directories_by_rule@), with_measures(m.rules@, a.measured@), a.empty_directories@).1,
        b_first.rules@ == with_rule_directories(nested_view(m.empty_directories_by_rule@), with_measures(m.rules@, b.measured@), b.empty_directories@).1,
        nested_view(a_first.empty_directories_by_rule@).len() == m.rules@.len(),
        nested_view(b_first.empty_directories_by_rule@).len() == m.rules@.len(),
        a_then_b.rules@ == with_rule_directories(nested_view(a_first.empty_directories_by_rule@), with_measures(a_first.rules@, b.measured@), b.empty_directories@).1,
        b_then_a.rules@ == with_rule_directories(nested_view(b_first.empty_directories_by_rule@), with_measures(b_first.rules@, a.measured@), a.empty_directories@).1,
        nested_view(a_first.empty_directories_by_rule@) == with_rule_directories(nested_view(m.empty_directories_by_rule@), with_measures(m.rules@, a.measured@), a.empty_directories@).0,
        nested_view(b_first.empty_directories_by_rule@) == with_rule_directories(nested_view(m.empty_directories_by_rule@), with_measures(m.rules@, b.measured@), b.empty_directories@).0,
    ensures
        a_then_b.rules@[r].bytes == b_then_a.rules@[r].bytes,
        a_then_b.rules@[r].file_count == b_then_a.rules@[r].file_count,
        a.empty_directories@.len() == 0 && b.empty_directories@.len() == 0 ==> a_then_b.rules@[r] == b_then_a.rules@[r],
        m.empty_directories_by_rule@[r]@.len() + offered_count(a.empty_directories@, r) + offered_count(
            b.empty_directories@,
            r,
        ) <= MAX_EMPTY_DIRECTORY_AUTHORIZATIONS_PER_RULE ==> a_then_b.rules@[r] == b_then_a.rules@[r],
{
    let m_a = with_measures(m.rules@, a.measured@);
    let m_b = with_measures(m.rules@, b.measured@);
    law_rule_totals_are_capped_sums(m.rules@, a.measured@, r);
    law_rule_totals_are_capped_sums(m.rules@, b.measured@, r);
    lemma_directories_keep_totals(nested_view(m.empty_directories_by_rule@), m_a, a.empty_directories@);
    lemma_directories_keep_totals(nested_view(m.empty_directories_by_rule@), m_b, b.empty_directories@);
    let m_ab = with_measures(a_first.rules@, b.measured@);
    let m_ba = with_measures(b_first.rules@, a.measured@);
    law_rule_totals_are_capped_sums(a_first.rules@, b.measured@, r);
    law_rule_totals_are_capped_sums(b_first.rules@, a.measured@, r);
    lemma_directories_keep_totals(nested_view(a_first.empty_directories_by_rule@), m_ab, b.empty_directories@);
    lemma_directories_keep_totals(nested_view(b_first.empty_directories_by_rule@), m_ba, a.empty_directories@);
    assert(a_then_b.rules@[r].bytes == m_ab[r].bytes);
    assert(b_then_a.rules@[r].bytes == m_ba[r].bytes);
    let start = nested_view(m.empty_directories_by_rule@);
    assert(start[r] == m.empty_directories_by_rule@[r]@);
    let room = start[r].len() + offered_count(a.empty_directories@, r) + offered_count(b.empty_directories@, r)
        <= MAX_EMPTY_DIRECTORY_AUTHORIZATIONS_PER_RULE;
    if room {
        lemma_room_keeps_skipped(start, m_a, a.empty_directories@, r);
        lemma_room_keeps_skipped(start, m_b, b.empty_directories@, r);
        lemma_room_keeps_skipped(nested_view(a_first.empty_directories_by_rule@), m_ab, b.empty_directories@, r);
        lemma_room_keeps_skipped(nested_view(b_first.empty_directories_by_rule@), m_ba, a.empty_directories@, r);
        assert(a_then_b.rules@[r] == m_ab[r]);
        assert(b_then_a.rules@[r] == m_ba[r]);
    }
}

/// How many empty directories per-rule lists offer rule `r`.
pub open spec fn offered_count<I>(incoming: Seq<(usize, Vec<(String, I)>)>, r: int) -> nat
    decreases incoming.len(),
{
    if incoming.len() == 0 {
        0
    } else {
        offered_count(incoming.drop_last(), r) + if incoming.last().0 as int == r {
            incoming.last().1@.len()
        } else {
            0
        }
    }
}

/// While a rule has room for everything offered, no directory counts as
/// skipped and every new one is retained.
proof fn lemma_room_keeps_directories<I>(dirs: Seq<(String, I)>, skipped: u64, incoming: Seq<(String, I)>)
    requires
        dirs.len() + incoming.len() <= MAX_EMPTY_DIRECTORY_AUTHORIZATIONS_PER_RULE,
    ensures
        with_directories(dirs, skipped, incoming).1 == skipped,
        with_directories(dirs, skipped, incoming).0.len() <= dirs.len() + incoming.len(),
    decreases incoming.len(),
{
    if incoming.len() > 0 {
        lemma_room_keeps_directories(dirs, skipped, incoming.drop_last());
    }
}

/// Offering empty directories to a rule with room for all of them leaves
/// its totals, skipped count included, as they were.
proof fn lemma_room_keeps_skipped<I>(
    dirs: Seq<Seq<(String, I)>>,
    rules: Seq<MeasureResult>,
    incoming: Seq<(usize, Vec<(String, I)>)>,
    r: int,
)
    requires
        dirs.len() == rules.len(),
        0 <= r < rules.len(),
        forall|k: int| 0 <= k < incoming.len() ==> incoming[k].0 < rules.len(),
        dirs[r].len() + offered_count(incoming, r) <= MAX_EMPTY_DIRECTORY_AUTHORIZATIONS_PER_RULE,
    ensures
        with_rule_directories(dirs, rules, incoming).1[r] == rules[r],
        with_rule_directories(dirs, rules, incoming).0[r].len() <= dirs[r].len() + offered_count(incoming, r),
    decreases incoming.len(),
{
    lemma_directories_keep_totals(dirs, rules, incoming);
    if incoming.len() > 0 {
        let prev = incoming.drop_last();
        lemma_room_keeps_skipped(dirs, rules, prev, r);
        lemma_directories_keep_totals(dirs, rules, prev);
        let p = with_rule_directories(dirs, rules, prev);
        let u = incoming.last();
        if u.0 as int == r {
            lemma_room_keeps_directories(p.0[r], p.1[r].skipped_count, u.1@);
        }
    }
}

/// Merging keeps one slot per rule in the totals, the outstanding counts
/// and the wall times.
proof fn lemma_lengths_kept(
    rules: Seq<MeasureResult>,
    updates: Seq<(usize, MeasureResult)>,
    remaining: Seq<usize>,
    elapsed: Seq<u64>,
    task_rules: Seq<usize>,
    ms: u64,
)
    requires
        forall|k: int| 0 <= k < updates.len() ==> updates[k].0 < rules.len(),
        forall|k: int| 0 <= k < task_rules.len() ==> task_rules[k] < remaining.len(),
        remaining.len() == rules.len(),
        elapsed.len() == rules.len(),
    ensures
        with_measures(rules, updates).len() == rules.len(),
        with_task_done(remaining, task_rules).len() == rules.len(),
        with_task_time(elapsed, task_rules, ms).len() == rules.len(),
    decreases updates.len() + task_rules.len(),
{
    if updates.len() > 0 {
        lemma_lengths_kept(rules, updates.drop_last(), remaining, elapsed, task_rules, ms);
    } else if task_rules.len() > 0 {
        lemma_lengths_kept(rules, updates, remaining, elapsed, task_rules.drop_last(), ms);
    }
}

/// The merged measurement kept for `path` among source entries, if any.
pub open spec fn source_at(s: Seq<(String, SourceMeasurement)>, path: Seq<char>) -> Option<SourceMeasurement> {
    if path_index(s, path) >= 0 {
        Some(s[path_index(s, path)].1)
    } else {
        None
    }
}

/// Two optional source measurements merged into one.
pub open spec fn join_sources(a: Option<SourceMeasurement>, b: Option<SourceMeasurement>) -> Option<
    SourceMeasurement,
> {
    match (a, b) {
        (Some(x), Some(y)) => Some(source_sum(x, y)),
        (Some(x), None) => Some(x),
        (None, y) => y,
    }
}

/// What incoming entries list for `path`, merged.
pub open spec fn listed_source(incoming: Seq<(String, SourceMeasurement)>, path: Seq<char>) -> Option<
    SourceMeasurement,
>
    decreases incoming.len(),
{
    if incoming.len() == 0 {
        None
    } else {
        let p = listed_source(incoming.drop_last(), path);
        if incoming.last().0@ == path {
            join_sources(p, Some(incoming.last().1))
        } else {
            p
        }
    }
}

/// What per-rule source lists give rule `r` for `path`, merged.
pub open spec fn listed_rule_source(
    incoming: Seq<(usize, Vec<(String, SourceMeasurement)>)>,
    r: int,
    path: Seq<char>,
) -> Option<SourceMeasurement>
    decreases incoming.len(),
{
    if incoming.len() == 0 {
        None
    } else {
        let p = listed_rule_source(incoming.drop_last(), r, path);
        if incoming.last().0 as int == r {
            join_sources(p, listed_source(incoming.last().1@, path))
        } else {
            p
        }
    }
}

/// Merging source measurements is associative and commutative.
proof fn lemma_join_sources(
    a: Option<SourceMeasurement>,
    b: Option<SourceMeasurement>,
    c: Option<SourceMeasurement>,
)
    ensures
        join_sources(join_sources(a, b), c) == join_sources(a, join_sources(b, c)),
        join_sources(a, b) == join_sources(b, a),
{
}

/// Where an entry's path is looked up depends only on the paths.
proof fn lemma_path_index_same_paths(s: Seq<(String, SourceMeasurement)>, t: Seq<(String, SourceMeasurement)>, path: Seq<char>)
    requires
        s.len() == t.len(),
        forall|j: int| 0 <= j < s.len() ==> (#[trigger] s[j]).0@ == t[j].0@,
    ensures
        path_index(s, path) == path_index(t, path),
    decreases s.len(),
{
    if s.len() > 0 {
        assert forall|j: int| 0 <= j < s.drop_first().len() implies (#[trigger] s.drop_first()[j]).0@
            == t.drop_first()[j].0@ by {
            assert(s[j + 1].0@ == t[j + 1].0@);
        }
        lemma_path_index_same_paths(s.drop_first(), t.drop_first(), path);
    }
}

/// An entry appended after the others is found only by its own new path.
proof fn lemma_path_index_push(s: Seq<(String, SourceMeasurement)>, e: (String, SourceMeasurement), path: Seq<char>)
    ensures
        path_index(s.push(e), path) == if path_index(s, path) >= 0 {
            path_index(s, path)
        } else if e.0@ == path {
            s.len() as int
        } else {
            -1
        },
    decreases s.len(),
{
    lemma_path_index(s, path);
    let t = s.push(e);
    if s.len() > 0 {
        assert(t[0] == s[0]);
        assert(t.drop_first() =~= s.drop_first().push(e));
        lemma_path_index_push(s.drop_first(), e, path);
        lemma_path_index(s.drop_first(), path);
    } else {
        assert(t[0] == e);
        assert(t.drop_first() =~= Seq::<(String, SourceMeasurement)>::empty());
        assert(path_index(t.drop_first(), path) == -1);
    }
}

/// Looking up a path after one entry is merged.
proof fn lemma_source_at_with_source(s: Seq<(String, SourceMeasurement)>, e: (String, SourceMeasurement), path: Seq<char>)
    ensures
        source_at(with_source(s, e), path) == if e.0@ == path {
            join_sources(source_at(s, path), Some(e.1))
        } else {
            source_at(s, path)
        },
{
    lemma_path_index(s, e.0@);
    lemma_path_index(s, path);
    let i = path_index(s, e.0@);
    if i >= 0 {
        let t = s.update(i, (s[i].0, source_sum(s[i].1, e.1)));
        lemma_path_index_same_paths(t, s, path);
    } else {
        lemma_path_index_push(s, e, path);
    }
}

/// Looking up a path after entries are merged one after the other.
proof fn lemma_source_at_with_sources(
    s: Seq<(String, SourceMeasurement)>,
    incoming: Seq<(String, SourceMeasurement)>,
    path: Seq<char>,
)
    ensures
        source_at(with_sources(s, incoming), path) == join_sources(source_at(s, path), listed_source(incoming, path)),
    decreases incoming.len(),
{
    if incoming.len() > 0 {
        let prev = incoming.drop_last();
        lemma_source_at_with_sources(s, prev, path);
        lemma_source_at_with_source(with_sources(s, prev), incoming.last(), path);
        lemma_join_sources(source_at(s, path), listed_source(prev, path), Some(incoming.last().1));
    }
}

/// Looking up a path of rule `r` after per-rule source lists are merged.
proof fn lemma_source_at_rule(
    by_rule: Seq<Seq<(String, SourceMeasurement)>>,
    incoming: Seq<(usize, Vec<(String, SourceMeasurement)>)>,
    r: int,
    path: Seq<char>,
)
    requires
        0 <= r < by_rule.len(),
        forall|k: int| 0 <= k < incoming.len() ==> incoming[k].0 < by_rule.len(),
    ensures
        with_rule_sources(by_rule, incoming).len() == by_rule.len(),
        source_at(with_rule_sources(by_rule, incoming)[r], path) == join_sources(
            source_at(by_rule[r], path),
            listed_rule_source(incoming, r, path),
        ),
    decreases incoming.len(),
{
    if incoming.len() > 0 {
        let prev = incoming.drop_last();
        lemma_source_at_rule(by_rule, prev, r, path);
        let p = with_rule_sources(by_rule, prev);
        let u = incoming.last();
        if u.0 as int == r {
            lemma_source_at_with_sources(p[r], u.1@, path);
            lemma_join_sources(source_at(by_rule[r], path), listed_rule_source(prev, r, path), listed_source(u.1@, path));
        }
    }
}

/// Two task results absorbed in either order keep, for every rule, the same
/// source paths with the same merged sizes, file counts and latest times.
pub proof fn law_absorb_order_does_not_change_sources<I>(
    m: PlanMeasurement<I>,
    a: RootTaskMeasurement<I>,
    a_rules: Seq<usize>,
    b: RootTaskMeasurement<I>,
    b_rules: Seq<usize>,
    cancelled: bool,
    a_first: PlanMeasurement<I>,
    a_then_b: PlanMeasurement<I>,
    b_first: PlanMeasurement<I>,
    b_then_a: PlanMeasurement<I>,
    completed: Seq<Seq<usize>>,
)
    requires
        m.well_formed(),
        result_in_range(a, m.rules@.len()),
        result_in_range(b, m.rules@.len()),
        completed.len() == 4,
        PlanMeasurement::absorbed(m, a_first, a, a_rules, cancelled, completed[0]),
        PlanMeasurement::absorbed(a_first, a_then_b, b, b_rules, cancelled, completed[1]),
        PlanMeasurement::absorbed(m, b_first, b, b_rules, cancelled, completed[2]),
        PlanMeasurement::absorbed(b_first, b_then_a, a, a_rules, cancelled, completed[3]),
    ensures
        a_then_b.sources_by_rule@.len() == m.rules@.len(),
        b_then_a.sources_by_rule@.len() == m.rules@.len(),
        forall|r: int, path: Seq<char>|
            0 <= r < m.rules@.len() ==> #[trigger] source_at(a_then_b.sources_by_rule@[r]@, path) == source_at(
                b_then_a.sources_by_rule@[r]@,
                path,
            ),
{
    let n = m.rules@.len();
    let start = nested_view(m.sources_by_rule@);
    lemma_rule_sources_len(start, a.sources@);
    lemma_rule_sources_len(start, b.sources@);
    assert(nested_view(a_then_b.sources_by_rule@).len() == a_then_b.sources_by_rule@.len());
    assert(nested_view(a_first.sources_by_rule@).len() == a_first.sources_by_rule@.len());
    assert(nested_view(b_then_a.sources_by_rule@).len() == b_then_a.sources_by_rule@.len());
    assert(nested_view(b_first.sources_by_rule@).len() == b_first.sources_by_rule@.len());
    lemma_rule_sources_len(nested_view(a_first.sources_by_rule@), b.sources@);
    lemma_rule_sources_len(nested_view(b_first.sources_by_rule@), a.sources@);
    assert forall|r: int, path: Seq<char>| 0 <= r < n implies #[trigger] source_at(
        a_then_b.sources_by_rule@[r]@,
        path,
    ) == source_at(b_then_a.sources_by_rule@[r]@, path) by {
        lemma_source_at_rule(start, a.sources@, r, path);
        lemma_source_at_rule(start, b.sources@, r, path);
        lemma_source_at_rule(nested_view(a_first.sources_by_rule@), b.sources@, r, path);
        lemma_source_at_rule(nested_view(b_first.sources_by_rule@), a.sources@, r, path);
        assert(nested_view(a_first.sources_by_rule@)[r] == a_first.sources_by_rule@[r]@);
        assert(nested_view(b_first.sources_by_rule@)[r] == b_first.sources_by_rule@[r]@);
        assert(nested_view(a_then_b.sources_by_rule@)[r] == a_then_b.sources_by_rule@[r]@);
        assert(nested_view(b_then_a.sources_by_rule@)[r] == b_then_a.sources_by_rule@[r]@);
        assert(start[r] == m.sources_by_rule@[r]@);
        let s0 = source_at(start[r], path);
        let la = listed_rule_source(a.sources@, r, path);
        let lb = listed_rule_source(b.sources@, r, path);
        lemma_join_sources(s0, la, lb);
        lemma_join_sources(s0, lb, la);
        lemma_join_sources(la, lb, None);
    }
}

proof fn lemma_rule_sources_len(
    by_rule: Seq<Seq<(String, SourceMeasurement)>>,
    incoming: Seq<(usize, Vec<(String, SourceMeasurement)>)>,
)
    requires
        forall|k: int| 0 <= k < incoming.len() ==> incoming[k].0 < by_rule.len(),
    ensures
        with_rule_sources(by_rule, incoming).len() == by_rule.len(),
    decreases incoming.len(),
{
    if incoming.len() > 0 {
        lemma_rule_sources_len(by_rule, incoming.drop_last());
    }
}

} // verus!

verus! {

/// The sum of `f` over a sequence.
pub open spec fn sum_of<A>(s: Seq<A>, f: spec_fn(A) -> nat) -> nat
    decreases s.len(),
{
    if s.len() == 0 {
        0
    } else {
        sum_of(s.drop_last(), f) + f(s.last())
    }
}

/// The source measurements `g` gives each element, merged in order.
pub open spec fn joined_of<A>(s: Seq<A>, g: spec_fn(A) -> Option<SourceMeasurement>) -> Option<SourceMeasurement>
    decreases s.len(),
{
    if s.len() == 0 {
        None
    } else {
        join_sources(joined_of(s.drop_last(), g), g(s.last()))
    }
}

proof fn lemma_sum_remove<A>(s: Seq<A>, f: spec_fn(A) -> nat, i: int)
    requires
        0 <= i < s.len(),
    ensures
        sum_of(s, f) == sum_of(s.remove(i), f) + f(s[i]),
    decreases s.len(),
{
    if i < s.len() - 1 {
        lemma_sum_remove(s.drop_last(), f, i);
        assert(s.remove(i).drop_last() =~= s.drop_last().remove(i));
        assert(s.remove(i).last() == s.last());
    } else {
        assert(s.remove(i) =~= s.drop_last());
    }
}

proof fn lemma_joined_remove<A>(s: Seq<A>, g: spec_fn(A) -> Option<SourceMeasurement>, i: int)
    requires
        0 <= i < s.len(),
    ensures
        joined_of(s, g) == join_sources(joined_of(s.remove(i), g), g(s[i])),
    decreases s.len(),
{
    if i < s.len() - 1 {
        lemma_joined_remove(s.drop_last(), g, i);
        assert(s.remove(i).drop_last() =~= s.drop_last().remove(i));
        assert(s.remove(i).last() == s.last());
        let p = joined_of(s.drop_last().remove(i), g);
        lemma_join_sources(p, g(s[i]), g(s.last()));
        lemma_join_sources(p, g(s.last()), g(s[i]));
        lemma_join_sources(g(s[i]), g(s.last()), None);
    } else {
        assert(s.remove(i) =~= s.drop_last());
    }
}

/// Sums and merges do not depend on the order of what they run over: a
/// sequence and any reordering of it give the same.
pub proof fn lemma_reordering_keeps_sums<A>(
    s: Seq<A>,
    t: Seq<A>,
    f: spec_fn(A) -> nat,
    g: spec_fn(A) -> Option<SourceMeasurement>,
)
    requires
        s.to_multiset() == t.to_multiset(),
    ensures
        sum_of(s, f) == sum_of(t, f),
        joined_of(s, g) == joined_of(t, g),
    decreases s.len(),
{
    s.to_multiset_ensures();
    t.to_multiset_ensures();
    if s.len() == 0 {
        assert(t.len() == 0);
    } else {
        let d = s.drop_last();
        let x = s.last();
        assert(d.push(x) =~= s);
        d.to_multiset_ensures();
        assert(s.to_multiset().count(x) > 0);
        assert(t.contains(x));
        let i = choose|i: int| 0 <= i < t.len() && t[i] == x;
        assert(t.remove(i).to_multiset() =~= d.to_multiset());
        lemma_reordering_keeps_sums(d, t.remove(i), f, g);
        lemma_sum_remove(t, f, i);
        lemma_joined_remove(t, g, i);
    }
}

} // verus!

verus! {

/// Bytes, files or skipped entries (`field` 0, 1, 2) a finished task lists
/// for rule `r`.
pub open spec fn task_listed<I>(r: int, field: int) -> spec_fn((RootTaskMeasurement<I>, Seq<usize>)) -> nat {
    |t: (RootTaskMeasurement<I>, Seq<usize>)|
        if field == 0 {
            listed_totals(t.0.measured@, r).0
        } else if field == 1 {
            listed_totals(t.0.measured@, r).1
        } else {
            listed_totals(t.0.measured@, r).2
        }
}

/// How often a finished task serves rule `r`.
pub open spec fn task_serves<I>(r: int) -> spec_fn((RootTaskMeasurement<I>, Seq<usize>)) -> nat {
    |t: (RootTaskMeasurement<I>, Seq<usize>)| count_in(t.1, r)
}

/// The wall time a finished task adds to rule `r`.
pub open spec fn task_time<I>(r: int) -> spec_fn((RootTaskMeasurement<I>, Seq<usize>)) -> nat {
    |t: (RootTaskMeasurement<I>, Seq<usize>)| count_in(t.1, r) * (t.0.elapsed_ms as nat)
}

/// What a finished task lists for `path` under rule `r`.
pub open spec fn task_source<I>(r: int, path: Seq<char>) -> spec_fn((RootTaskMeasurement<I>, Seq<usize>)) -> Option<
    SourceMeasurement,
> {
    |t: (RootTaskMeasurement<I>, Seq<usize>)| listed_rule_source(t.0.sources@, r, path)
}

/// A task result that names only rules of the plan.
pub open spec fn task_in_range<I>(t: (RootTaskMeasurement<I>, Seq<usize>), rule_count: nat) -> bool {
    &&& result_in_range(t.0, rule_count)
    &&& forall|k: int| 0 <= k < t.1.len() ==> t.1[k] < rule_count
}

/// `states` is a run of merges: each state is the one before after
/// absorbing the next finished task (its result and the rules it served).
pub open spec fn merge_run<I>(
    states: Seq<PlanMeasurement<I>>,
    tasks: Seq<(RootTaskMeasurement<I>, Seq<usize>)>,
    cancelled: bool,
    completed: Seq<Seq<usize>>,
) -> bool {
    &&& states.len() == tasks.len() + 1
    &&& completed.len() == tasks.len()
    &&& forall|k: int|
        #![trigger tasks[k]]
        0 <= k < tasks.len() ==> PlanMeasurement::absorbed(
            states[k],
            states[k + 1],
            tasks[k].0,
            tasks[k].1,
            cancelled,
            completed[k],
        )
}

/// One merge step, rule by rule.
proof fn lemma_absorb_step<I>(
    old: PlanMeasurement<I>,
    new: PlanMeasurement<I>,
    t: (RootTaskMeasurement<I>, Seq<usize>),
    cancelled: bool,
    completed: Seq<usize>,
    r: int,
    path: Seq<char>,
)
    requires
        old.well_formed(),
        task_in_range(t, old.rules@.len()),
        PlanMeasurement::absorbed(old, new, t.0, t.1, cancelled, completed),
        0 <= r < old.rules@.len(),
    ensures
        new.well_formed(),
        new.rules@.len() == old.rules@.len(),
        new.rules@[r].bytes == capped(old.rules@[r].bytes + (task_listed::<I>(r, 0))(t)),
        new.rules@[r].file_count == capped(old.rules@[r].file_count + (task_listed::<I>(r, 1))(t)),
        t.0.empty_directories@.len() == 0 ==> new.rules@[r].skipped_count == capped(
            old.rules@[r].skipped_count + (task_listed::<I>(r, 2))(t),
        ),
        new.elapsed_by_rule@[r] == capped(old.elapsed_by_rule@[r] + (task_time::<I>(r))(t)),
        new.remaining_tasks@[r] == if old.remaining_tasks@[r] >= (task_serves::<I>(r))(t) {
            old.remaining_tasks@[r] - (task_serves::<I>(r))(t)
        } else {
            0
        },
        new.completed_task_count == old.completed_task_count + 1,
        source_at(new.sources_by_rule@[r]@, path) == join_sources(
            source_at(old.sources_by_rule@[r]@, path),
            (task_source::<I>(r, path))(t),
        ),
{
    let n = old.rules@.len();
    let ms = with_measures(old.rules@, t.0.measured@);
    lemma_lengths_kept(old.rules@, t.0.measured@, old.remaining_tasks@, old.elapsed_by_rule@, t.1, t.0.elapsed_ms);
    law_rule_totals_are_capped_sums(old.rules@, t.0.measured@, r);
    lemma_directories_keep_totals(nested_view(old.empty_directories_by_rule@), ms, t.0.empty_directories@);
    lemma_task_time(old.elapsed_by_rule@, t.1, t.0.elapsed_ms, r);
    law_outstanding_tasks_count_down(old.remaining_tasks@, t.1, r);
    let start = nested_view(old.sources_by_rule@);
    lemma_source_at_rule(start, t.0.sources@, r, path);
    assert(start[r] == old.sources_by_rule@[r]@);
    assert(nested_view(new.sources_by_rule@).len() == new.sources_by_rule@.len());
    assert(nested_view(new.sources_by_rule@)[r] == new.sources_by_rule@[r]@);
    assert(nested_view(new.empty_directories_by_rule@).len() == new.empty_directories_by_rule@.len());
}

/// What a run of merges adds up to, rule by rule: the byte and file totals
/// are the capped sums of what the tasks listed (and so are the skipped
/// counts while no task offers empty directories), the wall time is the
/// capped sum of each task's time for each time it served the rule, the
/// outstanding tasks count down by every serving, every task is counted
/// once, and each source path holds the merge of everything listed for it.
pub proof fn law_merge_run_totals<I>(
    states: Seq<PlanMeasurement<I>>,
    tasks: Seq<(RootTaskMeasurement<I>, Seq<usize>)>,
    cancelled: bool,
    completed: Seq<Seq<usize>>,
    r: int,
    path: Seq<char>,
)
    requires
        states.len() > 0,
        states[0].well_formed(),
        0 <= r < states[0].rules@.len(),
        forall|k: int| 0 <= k < tasks.len() ==> task_in_range(#[trigger] tasks[k], states[0].rules@.len()),
        merge_run(states, tasks, cancelled, completed),
    ensures
        states.last().well_formed(),
        states.last().rules@.len() == states[0].rules@.len(),
        states.last().rules@[r].bytes == capped(states[0].rules@[r].bytes + sum_of(tasks, task_listed::<I>(r, 0))),
        states.last().rules@[r].file_count == capped(
            states[0].rules@[r].file_count + sum_of(tasks, task_listed::<I>(r, 1)),
        ),
        (forall|k: int| 0 <= k < tasks.len() ==> (#[trigger] tasks[k]).0.empty_directories@.len() == 0)
            ==> states.last().rules@[r].skipped_count == capped(
            states[0].rules@[r].skipped_count + sum_of(tasks, task_listed::<I>(r, 2)),
        ),
        states.last().elapsed_by_rule@[r] == capped(states[0].elapsed_by_rule@[r] + sum_of(tasks, task_time::<I>(r))),
        states.last().remaining_tasks@[r] == if states[0].remaining_tasks@[r] >= sum_of(tasks, task_serves::<I>(r)) {
            states[0].remaining_tasks@[r] - sum_of(tasks, task_serves::<I>(r))
        } else {
            0
        },
        states.last().completed_task_count == states[0].completed_task_count + tasks.len(),
        source_at(states.last().sources_by_rule@[r]@, path) == join_sources(
            source_at(states[0].sources_by_rule@[r]@, path),
            joined_of(tasks, task_source::<I>(r, path)),
        ),
    decreases tasks.len(),
{
    if tasks.len() > 0 {
        let k = tasks.len() - 1;
        let ps = states.drop_last();
        let pt = tasks.drop_last();
        assert forall|j: int| 0 <= j < pt.len() implies task_in_range(#[trigger] pt[j], states[0].rules@.len()) by {
            assert(pt[j] == tasks[j]);
        }
        assert forall|j: int|
            #![trigger pt[j]]
            0 <= j < pt.len() implies PlanMeasurement::absorbed(
            ps[j],
            ps[j + 1],
            pt[j].0,
            pt[j].1,
            cancelled,
            completed.drop_last()[j],
        ) by {
            assert(pt[j] == tasks[j]);
        }
        law_merge_run_totals(ps, pt, cancelled, completed.drop_last(), r, path);
        assert(ps.last() == states[k]);
        assert(tasks[k] == tasks.last());
        lemma_absorb_step(states[k], states[k + 1], tasks[k], cancelled, completed[k], r, path);
        assert(states.last() == states[k + 1]);
        if forall|j: int| 0 <= j < tasks.len() ==> (#[trigger] tasks[j]).0.empty_directories@.len() == 0 {
            assert forall|j: int| 0 <= j < pt.len() implies (#[trigger] pt[j]).0.empty_directories@.len() == 0 by {
                assert(pt[j] == tasks[j]);
            }
        }
        lemma_join_sources(
            source_at(states[0].sources_by_rule@[r]@, path),
            joined_of(pt, task_source::<I>(r, path)),
            (task_source::<I>(r, path))(tasks.last()),
        );
    }
}

/// A plan's measurement does not depend on the order in which its tasks
/// finish, and so not on how many workers run them: two runs of merges
/// from the same start over the same finished tasks, in any two orders,
/// end with the same byte and file totals, wall times, outstanding tasks,
/// task count and merged sources for every rule, and the same skipped
/// counts when no task offers empty directories.
pub proof fn law_measurement_does_not_depend_on_task_order<I>(
    a_states: Seq<PlanMeasurement<I>>,
    a_tasks: Seq<(RootTaskMeasurement<I>, Seq<usize>)>,
    a_completed: Seq<Seq<usize>>,
    b_states: Seq<PlanMeasurement<I>>,
    b_tasks: Seq<(RootTaskMeasurement<I>, Seq<usize>)>,
    b_completed: Seq<Seq<usize>>,
    cancelled: bool,
)
    requires
        a_states.len() > 0,
        b_states.len() > 0,
        a_states[0] == b_states[0],
        a_states[0].well_formed(),
        a_tasks.to_multiset() == b_tasks.to_multiset(),
        forall|k: int| 0 <= k < a_tasks.len() ==> task_in_range(#[trigger] a_tasks[k], a_states[0].rules@.len()),
        forall|k: int| 0 <= k < b_tasks.len() ==> task_in_range(#[trigger] b_tasks[k], a_states[0].rules@.len()),
        merge_run(a_states, a_tasks, cancelled, a_completed),
        merge_run(b_states, b_tasks, cancelled, b_completed),
    ensures
        a_states.last().rules@.len() == b_states.last().rules@.len(),
        forall|r: int|
            0 <= r < a_states[0].rules@.len() ==> #[trigger] a_states.last().rules@[r].bytes == b_states.last().rules@[r].bytes
                && a_states.last().rules@[r].file_count == b_states.last().rules@[r].file_count,
        (forall|k: int| 0 <= k < a_tasks.len() ==> (#[trigger] a_tasks[k]).0.empty_directories@.len() == 0)
            ==> a_states.last().rules@ == b_states.last().rules@,
        a_states.last().elapsed_by_rule@ == b_states.last().elapsed_by_rule@,
        a_states.last().remaining_tasks@ == b_states.last().remaining_tasks@,
        a_states.last().completed_task_count == b_states.last().completed_task_count,
        forall|r: int, path: Seq<char>|
            0 <= r < a_states[0].rules@.len() ==> #[trigger] source_at(a_states.last().sources_by_rule@[r]@, path)
                == source_at(b_states.last().sources_by_rule@[r]@, path),
{
    let n = a_states[0].rules@.len();
    a_tasks.to_multiset_ensures();
    b_tasks.to_multiset_ensures();
    let no_dirs = forall|k: int| 0 <= k < a_tasks.len() ==> (#[trigger] a_tasks[k]).0.empty_directories@.len() == 0;
    if no_dirs {
        assert forall|k: int| 0 <= k < b_tasks.len() implies (#[trigger] b_tasks[k]).0.empty_directories@.len() == 0 by {
            let x = b_tasks[k];
            assert(b_tasks.contains(x));
            assert(b_tasks.to_multiset().count(x) > 0);
            assert(a_tasks.to_multiset().count(x) > 0);
            assert(a_tasks.contains(x));
            let j = choose|j: int| 0 <= j < a_tasks.len() && a_tasks[j] == x;
            assert(a_tasks[j].0.empty_directories@.len() == 0);
        }
    }
    assert forall|r: int, path: Seq<char>| 0 <= r < n implies {
        &&& a_states.last().rules@[r].bytes == b_states.last().rules@[r].bytes
        &&& a_states.last().rules@[r].file_count == b_states.last().rules@[r].file_count
        &&& (no_dirs ==> a_states.last().rules@[r] == b_states.last().rules@[r])
        &&& a_states.last().elapsed_by_rule@[r] == b_states.last().elapsed_by_rule@[r]
        &&& a_states.last().remaining_tasks@[r] == b_states.last().remaining_tasks@[r]
        &&& #[trigger] source_at(a_states.last().sources_by_rule@[r]@, path) == source_at(
            b_states.last().sources_by_rule@[r]@,
            path,
        )
    } by {
        law_merge_run_totals(a_states, a_tasks, cancelled, a_completed, r, path);
        law_merge_run_totals(b_states, b_tasks, cancelled, b_completed, r, path);
        lemma_reordering_keeps_sums(a_tasks, b_tasks, task_listed::<I>(r, 0), task_source::<I>(r, path));
        lemma_reordering_keeps_sums(a_tasks, b_tasks, task_listed::<I>(r, 1), task_source::<I>(r, path));
        lemma_reordering_keeps_sums(a_tasks, b_tasks, task_listed::<I>(r, 2), task_source::<I>(r, path));
        lemma_reordering_keeps_sums(a_tasks, b_tasks, task_time::<I>(r), task_source::<I>(r, path));
        lemma_reordering_keeps_sums(a_tasks, b_tasks, task_serves::<I>(r), task_source::<I>(r, path));
    }
    if n > 0 {
        law_merge_run_totals(a_states, a_tasks, cancelled, a_completed, 0, Seq::empty());
        law_merge_run_totals(b_states, b_tasks, cancelled, b_completed, 0, Seq::empty());
    } else {
        lemma_merge_run_shape(a_states, a_tasks, cancelled, a_completed);
        lemma_merge_run_shape(b_states, b_tasks, cancelled, b_completed);
    }
    assert forall|r: int| 0 <= r < n implies #[trigger] a_states.last().elapsed_by_rule@[r] == b_states.last().elapsed_by_rule@[r] by {
        let path = Seq::<char>::empty();
        assert(source_at(a_states.last().sources_by_rule@[r]@, path) == source_at(b_states.last().sources_by_rule@[r]@, path));
    }
    assert forall|r: int| 0 <= r < n implies #[trigger] a_states.last().remaining_tasks@[r] == b_states.last().remaining_tasks@[r] by {
        let path = Seq::<char>::empty();
        assert(source_at(a_states.last().sources_by_rule@[r]@, path) == source_at(b_states.last().sources_by_rule@[r]@, path));
    }
    assert forall|r: int| 0 <= r < n implies #[trigger] a_states.last().rules@[r].bytes == b_states.last().rules@[r].bytes
        && a_states.last().rules@[r].file_count == b_states.last().rules@[r].file_count by {
        let path = Seq::<char>::empty();
        assert(source_at(a_states.last().sources_by_rule@[r]@, path) == source_at(b_states.last().sources_by_rule@[r]@, path));
    }
    if no_dirs {
        assert forall|r: int| 0 <= r < n implies #[trigger] a_states.last().rules@[r] == b_states.last().rules@[r] by {
            let path = Seq::<char>::empty();
            assert(source_at(a_states.last().sources_by_rule@[r]@, path) == source_at(b_states.last().sources_by_rule@[r]@, path));
        }
        assert(a_states.last().rules@ =~= b_states.last().rules@);
    }
    assert(a_states.last().elapsed_by_rule@ =~= b_states.last().elapsed_by_rule@);
    assert(a_states.last().remaining_tasks@ =~= b_states.last().remaining_tasks@);
    assert(a_tasks.len() == b_tasks.len());
}

/// A run of merges keeps one slot per rule and counts every task.
proof fn lemma_merge_run_shape<I>(
    states: Seq<PlanMeasurement<I>>,
    tasks: Seq<(RootTaskMeasurement<I>, Seq<usize>)>,
    cancelled: bool,
    completed: Seq<Seq<usize>>,
)
    requires
        states.len() > 0,
        states[0].well_formed(),
        forall|k: int| 0 <= k < tasks.len() ==> task_in_range(#[trigger] tasks[k], states[0].rules@.len()),
        merge_run(states, tasks, cancelled, completed),
    ensures
        states.last().well_formed(),
        states.last().rules@.len() == states[0].rules@.len(),
        states.last().completed_task_count == states[0].completed_task_count + tasks.len(),
    decreases tasks.len(),
{
    if tasks.len() > 0 {
        let k = tasks.len() - 1;
        let ps = states.drop_last();
        let pt = tasks.drop_last();
        assert forall|j: int| 0 <= j < pt.len() implies task_in_range(#[trigger] pt[j], states[0].rules@.len()) by {
            assert(pt[j] == tasks[j]);
        }
        assert forall|j: int|
            #![trigger pt[j]]
            0 <= j < pt.len() implies PlanMeasurement::absorbed(
            ps[j],
            ps[j + 1],
            pt[j].0,
            pt[j].1,
            cancelled,
            completed.drop_last()[j],
        ) by {
            assert(pt[j] == tasks[j]);
        }
        lemma_merge_run_shape(ps, pt, cancelled, completed.drop_last());
        assert(ps.last() == states[k]);
        assert(tasks[k] == tasks.last());
        lemma_absorb_shape(states[k], states[k + 1], tasks[k], cancelled, completed[k]);
        assert(states.last() == states[k + 1]);
    }
}

proof fn lemma_absorb_shape<I>(
    old: PlanMeasurement<I>,
    new: PlanMeasurement<I>,
    t: (RootTaskMeasurement<I>, Seq<usize>),
    cancelled: bool,
    completed: Seq<usize>,
)
    requires
        old.well_formed(),
        task_in_range(t, old.rules@.len()),
        PlanMeasurement::absorbed(old, new, t.0, t.1, cancelled, completed),
    ensures
        new.well_formed(),
        new.rules@.len() == old.rules@.len(),
        new.completed_task_count == old.completed_task_count + 1,
{
    let ms = with_measures(old.rules@, t.0.measured@);
    lemma_lengths_kept(old.rules@, t.0.measured@, old.remaining_tasks@, old.elapsed_by_rule@, t.1, t.0.elapsed_ms);
    lemma_directories_keep_totals(nested_view(old.empty_directories_by_rule@), ms, t.0.empty_directories@);
    lemma_rule_sources_len(nested_view(old.sources_by_rule@), t.0.sources@);
    assert(nested_view(new.sources_by_rule@).len() == new.sources_by_rule@.len());
    assert(nested_view(new.empty_directories_by_rule@).len() == new.empty_directories_by_rule@.len());
}

} // verus!
