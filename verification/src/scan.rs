//! Scan-time decisions: rule status, public risk, measurement merging and
//! the bounded source summary published with each rule.
use vstd::prelude::*;

use crate::models::{CleanupScanEngineInfo, CleanupSourceDetail, RiskLevel, ScanItemStatus};
use crate::plan::{lemma_rank_position, rank_position, ranks_before, ranked};
use crate::text::{chars_less, chars_of};

verus! {

/// Upper bound on retained scan worker threads.
pub const CLEANUP_SCAN_WORKER_LIMIT: usize = 4;

/// Upper bound on the source locations published per rule.
pub const MAX_CLEANUP_SOURCE_DETAILS: usize = 256;

/// Status of a measured rule.
///
/// Unavailable rules are not applicable; content held by running processes
/// requires closing them; content is found; an empty rule with skipped
/// entries is limited; otherwise the rule is clean.
pub open spec fn status_of(available: bool, bytes: u64, skipped_count: u64, running: nat) -> ScanItemStatus {
    if !available {
        ScanItemStatus::NotApplicable
    } else if bytes > 0 && running > 0 {
        ScanItemStatus::RequiresClose
    } else if bytes > 0 {
        ScanItemStatus::Found
    } else if skipped_count > 0 {
        ScanItemStatus::Limited
    } else {
        ScanItemStatus::Clean
    }
}

/// Centralizes status inference so clients do not reconstruct it from counters.
pub fn scan_item_status(
    available: bool,
    bytes: u64,
    skipped_count: u64,
    running: &Vec<String>,
) -> (status: ScanItemStatus)
    ensures
        status == status_of(available, bytes, skipped_count, running@.len()),
{
    if !available {
        return ScanItemStatus::NotApplicable;
    }
    if bytes > 0 && running.len() > 0 {
        return ScanItemStatus::RequiresClose;
    }
    if bytes > 0 {
        return ScanItemStatus::Found;
    }
    if skipped_count > 0 {
        return ScanItemStatus::Limited;
    }
    ScanItemStatus::Clean
}

/// Risk as the rule catalog records it.
#[derive(Debug, Clone, Copy, PartialEq, Eq, Structural)]
pub enum RuleRiskLevel {
    Safe,
    Recoverable,
    HighImpact,
}

/// Recoverable and high-impact rules both require confirmation.
pub open spec fn public_risk_of(risk: RuleRiskLevel) -> RiskLevel {
    match risk {
        RuleRiskLevel::Safe => RiskLevel::Safe,
        _ => RiskLevel::Recoverable,
    }
}

pub fn public_risk(risk: RuleRiskLevel) -> (r: RiskLevel)
    ensures
        r == public_risk_of(risk),
{
    match risk {
        RuleRiskLevel::Safe => RiskLevel::Safe,
        RuleRiskLevel::Recoverable | RuleRiskLevel::HighImpact => RiskLevel::Recoverable,
    }
}

/// The later of two optional timestamps.
pub open spec fn later_timestamp(left: Option<u64>, right: Option<u64>) -> Option<u64> {
    match (left, right) {
        (Some(l), Some(r)) => Some(if l >= r { l } else { r }),
        (Some(v), None) => Some(v),
        (None, Some(v)) => Some(v),
        (None, None) => None,
    }
}

pub fn latest_timestamp(left: Option<u64>, right: Option<u64>) -> (r: Option<u64>)
    ensures
        r == later_timestamp(left, right),
{
    match (left, right) {
        (Some(l), Some(r)) => Some(if l >= r { l } else { r }),
        (Some(v), None) => Some(v),
        (None, Some(v)) => Some(v),
        (None, None) => None,
    }
}

/// Measured totals of one source location.
#[derive(Debug, Clone, Copy, PartialEq, Eq, Structural)]
pub struct SourceMeasurement {
    pub bytes: u64,
    pub file_count: u64,
    pub modified_at_ms: Option<u64>,
}

/// Adds a source measurement into a running total (saturating).
pub fn merge_source_measurement(target: &mut SourceMeasurement, source: SourceMeasurement)
    ensures
        final(target).bytes == old(target).bytes.saturating_add(source.bytes),
        final(target).file_count == old(target).file_count.saturating_add(source.file_count),
        final(target).modified_at_ms == later_timestamp(
            old(target).modified_at_ms,
            source.modified_at_ms,
        ),
{
    target.bytes = target.bytes.saturating_add(source.bytes);
    target.file_count = target.file_count.saturating_add(source.file_count);
    target.modified_at_ms = latest_timestamp(target.modified_at_ms, source.modified_at_ms);
}

/// Measured totals of one rule.
#[derive(Debug, Clone, Copy, PartialEq, Eq, Structural)]
pub struct MeasureResult {
    pub bytes: u64,
    pub file_count: u64,
    pub skipped_count: u64,
}

/// Adds a rule measurement into a running total (saturating).
pub fn merge_measure_result(target: &mut MeasureResult, source: MeasureResult)
    ensures
        final(target).bytes == old(target).bytes.saturating_add(source.bytes),
        final(target).file_count == old(target).file_count.saturating_add(source.file_count),
        final(target).skipped_count == old(target).skipped_count.saturating_add(
            source.skipped_count,
        ),
{
    target.bytes = target.bytes.saturating_add(source.bytes);
    target.file_count = target.file_count.saturating_add(source.file_count);
    target.skipped_count = target.skipped_count.saturating_add(source.skipped_count);
}

/// The published detail of a measured source.
pub open spec fn source_detail(path: Seq<char>, m: SourceMeasurement) -> (Seq<char>, u64, u64, Option<u64>) {
    (path, m.bytes, m.file_count, m.modified_at_ms)
}

/// Non-empty sources (some bytes or files), in input order.
pub open spec fn non_empty_sources(s: Seq<(String, SourceMeasurement)>) -> Seq<(Seq<char>, u64, u64, Option<u64>)>
    decreases s.len(),
{
    if s.len() == 0 {
        seq![]
    } else {
        let earlier = non_empty_sources(s.drop_last());
        let (path, m) = s.last();
        if m.bytes > 0 || m.file_count > 0 {
            earlier.push(source_detail(path@, m))
        } else {
            earlier
        }
    }
}

/// Ranking key of a published detail: larger first, then by path.
pub open spec fn detail_key(d: (Seq<char>, u64, u64, Option<u64>)) -> (u64, Seq<char>) {
    (d.1, d.0)
}

/// Details in ranking order (a stable insertion by key).
pub open spec fn ranked_details(s: Seq<(Seq<char>, u64, u64, Option<u64>)>) -> Seq<(Seq<char>, u64, u64, Option<u64>)>
    decreases s.len(),
{
    if s.len() == 0 {
        s
    } else {
        let r = ranked_details(s.drop_last());
        r.insert(rank_position(r.map_values(|d: (Seq<char>, u64, u64, Option<u64>)| detail_key(d)), detail_key(s.last())), s.last())
    }
}

/// The view of a published detail.
pub open spec fn detail_view(d: CleanupSourceDetail) -> (Seq<char>, u64, u64, Option<u64>) {
    (d.path@, d.bytes, d.file_count, d.modified_at_ms)
}

struct RankedDetail {
    detail: CleanupSourceDetail,
    chars: Vec<char>,
}

spec fn ranked_detail_views(v: Seq<RankedDetail>) -> Seq<(Seq<char>, u64, u64, Option<u64>)> {
    v.map_values(|r: RankedDetail| detail_view(r.detail))
}

spec fn ranked_details_consistent(v: Seq<RankedDetail>) -> bool {
    forall|m: int| 0 <= m < v.len() ==> (#[trigger] v[m]).chars@ == v[m].detail.path@ && v[m].detail.block_reason.is_none()
}

/// Publishes the largest non-empty sources of a rule.
///
/// Returns the non-empty sources ranked by size (then path), truncated to
/// `MAX_CLEANUP_SOURCE_DETAILS`, the number of non-empty sources, and
/// whether any were cut off.
pub fn summarize_cleanup_sources(sources: Vec<(String, SourceMeasurement)>) -> (r: (
    Vec<CleanupSourceDetail>,
    u64,
    bool,
))
    requires
        sources@.len() <= u64::MAX,
    ensures
        ({
            let all = ranked_details(non_empty_sources(sources@));
            let n = if all.len() < MAX_CLEANUP_SOURCE_DETAILS { all.len() as int } else { MAX_CLEANUP_SOURCE_DETAILS as int };
            &&& r.0@.map_values(|d: CleanupSourceDetail| detail_view(d)) == all.take(n)
            &&& forall|m: int| 0 <= m < r.0@.len() ==> (#[trigger] r.0@[m]).block_reason.is_none()
            &&& r.1 == non_empty_sources(sources@).len()
            &&& r.2 == (non_empty_sources(sources@).len() > MAX_CLEANUP_SOURCE_DETAILS)
        }),
{
    let ghost input = sources@;
    let mut ranked_out: Vec<RankedDetail> = Vec::new();
    let mut kept: usize = 0;
    let mut i: usize = 0;
    while i < sources.len()
        invariant
            i <= sources.len(),
            sources@ == input,
            input.len() <= u64::MAX,
            kept == non_empty_sources(input.take(i as int)).len(),
            kept <= i,
            ranked_out@.len() == kept,
            ranked_detail_views(ranked_out@) == ranked_details(non_empty_sources(input.take(i as int))),
            ranked_details_consistent(ranked_out@),
        decreases sources.len() - i,
    {
        assert(input.take(i + 1).drop_last() =~= input.take(i as int));
        let path = &sources[i].0;
        let m = sources[i].1;
        if m.bytes > 0 || m.file_count > 0 {
            let detail = CleanupSourceDetail {
                path: path.clone(),
                bytes: m.bytes,
                file_count: m.file_count,
                modified_at_ms: m.modified_at_ms,
                block_reason: None,
            };
            let item = RankedDetail { chars: chars_of(path.as_str()), detail };
            let ghost x = detail_view(item.detail);
            let mut j: usize = 0;
            while j < ranked_out.len() && !(item.detail.bytes > ranked_out[j].detail.bytes || (
            item.detail.bytes == ranked_out[j].detail.bytes && chars_less(
                &item.chars,
                &ranked_out[j].chars,
            )))
                invariant
                    j <= ranked_out@.len(),
                    item.chars@ == item.detail.path@,
                    x == detail_view(item.detail),
                    ranked_details_consistent(ranked_out@),
                    forall|k: int|
                        0 <= k < j ==> !ranks_before(
                            detail_key(x),
                            #[trigger] detail_key(ranked_detail_views(ranked_out@)[k]),
                        ),
                decreases ranked_out.len() - j,
            {
                j = j + 1;
            }
            let ghost before = ranked_out@;
            let ghost keys = ranked_detail_views(before).map_values(|d: (Seq<char>, u64, u64, Option<u64>)| detail_key(d));
            proof {
                assert forall|k: int| 0 <= k < j implies !ranks_before(detail_key(x), #[trigger] keys[k]) by {
                    assert(keys[k] == detail_key(ranked_detail_views(before)[k]));
                }
                if j < before.len() {
                    assert(keys[j as int] == detail_key(ranked_detail_views(before)[j as int]));
                }
                lemma_rank_position(keys, detail_key(x), j as int);
                assert(non_empty_sources(input.take(i + 1)) == non_empty_sources(input.take(i as int)).push(x));
            }
            ranked_out.insert(j, item);
            assert(ranked_detail_views(ranked_out@) =~= ranked_detail_views(before).insert(j as int, x));
            proof {
                let s0 = non_empty_sources(input.take(i as int));
                assert(s0.push(x).drop_last() =~= s0);
                assert(ranked_details(s0.push(x)) == ranked_details(s0).insert(rank_position(ranked_details(s0).map_values(|d: (Seq<char>, u64, u64, Option<u64>)| detail_key(d)), detail_key(x)), x));
            }
            kept = kept + 1;
        } else {
            assert(non_empty_sources(input.take(i + 1)) == non_empty_sources(input.take(i as int)));
        }
        i = i + 1;
    }
    assert(input.take(sources.len() as int) =~= input);
    let count = kept as u64;
    let truncated = kept > MAX_CLEANUP_SOURCE_DETAILS;
    let ghost all = ranked_detail_views(ranked_out@);
    let limit = if kept < MAX_CLEANUP_SOURCE_DETAILS {
        kept
    } else {
        MAX_CLEANUP_SOURCE_DETAILS
    };
    let mut details: Vec<CleanupSourceDetail> = Vec::new();
    let mut k: usize = 0;
    while k < limit
        invariant
            k <= limit,
            limit <= ranked_out@.len(),
            all == ranked_detail_views(ranked_out@),
            ranked_details_consistent(ranked_out@),
            details@.len() == k,
            forall|m: int| 0 <= m < k ==> detail_view(#[trigger] details@[m]) == all[m],
            forall|m: int| 0 <= m < k ==> (#[trigger] details@[m]).block_reason.is_none(),
        decreases limit - k,
    {
        let source = &ranked_out[k].detail;
        details.push(CleanupSourceDetail {
            path: source.path.clone(),
            bytes: source.bytes,
            file_count: source.file_count,
            modified_at_ms: source.modified_at_ms,
            block_reason: None,
        });
        k = k + 1;
    }
    assert(details@.map_values(|d: CleanupSourceDetail| detail_view(d)) =~= all.take(limit as int));
    (details, count, truncated)
}

} // verus!

verus! {

proof fn lemma_rank_position_facts(s: Seq<(u64, Seq<char>)>, x: (u64, Seq<char>))
    ensures
        0 <= rank_position(s, x) <= s.len(),
        forall|k: int| 0 <= k < rank_position(s, x) ==> !ranks_before(x, #[trigger] s[k]),
        rank_position(s, x) < s.len() ==> ranks_before(x, s[rank_position(s, x)]),
    decreases s.len(),
{
    if s.len() > 0 && !ranks_before(x, s[0]) {
        lemma_rank_position_facts(s.drop_first(), x);
        assert forall|k: int| 0 <= k < rank_position(s, x) implies !ranks_before(x, #[trigger] s[k]) by {
            if k > 0 {
                assert(s[k] == s.drop_first()[k - 1]);
            }
        }
    }
}

proof fn lemma_ranked_details_by_size(s: Seq<(Seq<char>, u64, u64, Option<u64>)>)
    ensures
        ranked_details(s).len() == s.len(),
        forall|a: int, b: int|
            0 <= a < b < ranked_details(s).len() ==> (#[trigger] ranked_details(s)[a]).1
                >= (#[trigger] ranked_details(s)[b]).1,
        forall|a: int| 0 <= a < ranked_details(s).len() ==> s.contains(#[trigger] ranked_details(s)[a]),
    decreases s.len(),
{
    if s.len() > 0 {
        let d = s.drop_last();
        let x = s.last();
        lemma_ranked_details_by_size(d);
        let r = ranked_details(d);
        let keys = r.map_values(|e: (Seq<char>, u64, u64, Option<u64>)| detail_key(e));
        let p = rank_position(keys, detail_key(x));
        lemma_rank_position_facts(keys, detail_key(x));
        let out = r.insert(p, x);
        assert(out == ranked_details(s));
        assert forall|a: int, b: int| 0 <= a < b < out.len() implies (#[trigger] out[a]).1 >= (#[trigger] out[b]).1 by {
            if a < p {
                assert(out[a] == r[a]);
                assert(keys[a] == detail_key(r[a]));
                if b == p {
                } else if b < p {
                    assert(out[b] == r[b]);
                } else {
                    assert(out[b] == r[b - 1]);
                }
            } else if a == p {
                assert(out[b] == r[b - 1]);
                assert(keys[p] == detail_key(r[p]));
                if b - 1 > p {
                    assert(r[p].1 >= r[b - 1].1);
                }
            } else {
                assert(out[a] == r[a - 1] && out[b] == r[b - 1]);
            }
        }
        assert forall|a: int| 0 <= a < out.len() implies s.contains(#[trigger] out[a]) by {
            if a < p {
                assert(out[a] == r[a]);
                assert(d.contains(r[a]));
                let k = choose|k: int| 0 <= k < d.len() && d[k] == r[a];
                assert(s[k] == d[k]);
            } else if a == p {
                assert(s[s.len() - 1] == x);
            } else {
                assert(out[a] == r[a - 1]);
                assert(d.contains(r[a - 1]));
                let k = choose|k: int| 0 <= k < d.len() && d[k] == r[a - 1];
                assert(s[k] == d[k]);
            }
        }
    }
}

proof fn lemma_non_empty_sources(s: Seq<(String, SourceMeasurement)>)
    ensures
        forall|a: int| 0 <= a < non_empty_sources(s).len() ==> (#[trigger] non_empty_sources(s)[a]).1 > 0 || non_empty_sources(s)[a].2 > 0,
    decreases s.len(),
{
    if s.len() > 0 {
        lemma_non_empty_sources(s.drop_last());
        let e = non_empty_sources(s.drop_last());
        let f = non_empty_sources(s);
        assert forall|a: int| 0 <= a < f.len() implies (#[trigger] f[a]).1 > 0 || f[a].2 > 0 by {
            if a < e.len() {
                assert(f[a] == e[a]);
            }
        }
    }
}

/// The published source summary of a rule is bounded and honest: at most
/// `MAX_CLEANUP_SOURCE_DETAILS` details, ordered from largest to smallest,
/// each with some bytes or files; the reported source count is never below
/// the number of details, and the summary is marked truncated exactly when
/// the count exceeds them.
pub proof fn law_source_summary_is_bounded_and_ordered(
    sources: Seq<(String, SourceMeasurement)>,
    details: Seq<CleanupSourceDetail>,
    source_count: u64,
    truncated: bool,
)
    requires
        ({
            let all = ranked_details(non_empty_sources(sources));
            let n = if all.len() < MAX_CLEANUP_SOURCE_DETAILS { all.len() as int } else { MAX_CLEANUP_SOURCE_DETAILS as int };
            &&& details.map_values(|d: CleanupSourceDetail| detail_view(d)) == all.take(n)
            &&& source_count == non_empty_sources(sources).len()
            &&& truncated == (non_empty_sources(sources).len() > MAX_CLEANUP_SOURCE_DETAILS)
        }),
    ensures
        details.len() <= MAX_CLEANUP_SOURCE_DETAILS,
        source_count >= details.len(),
        truncated == (source_count > details.len()),
        forall|a: int, b: int| 0 <= a < b < details.len() ==> (#[trigger] details[a]).bytes >= (#[trigger] details[b]).bytes,
        forall|a: int| 0 <= a < details.len() ==> (#[trigger] details[a]).bytes > 0 || details[a].file_count > 0,
{
    let f = non_empty_sources(sources);
    let all = ranked_details(f);
    lemma_ranked_details_by_size(f);
    lemma_non_empty_sources(sources);
    let views = details.map_values(|d: CleanupSourceDetail| detail_view(d));
    assert(views.len() == details.len());
    assert forall|a: int, b: int| 0 <= a < b < details.len() implies (#[trigger] details[a]).bytes >= (#[trigger] details[b]).bytes by {
        assert(views[a] == all[a] && views[b] == all[b]);
    }
    assert forall|a: int| 0 <= a < details.len() implies (#[trigger] details[a]).bytes > 0 || details[a].file_count > 0 by {
        assert(views[a] == all[a]);
        assert(f.contains(all[a]));
        let k = choose|k: int| 0 <= k < f.len() && f[k] == all[a];
    }
}

/// Diagnostics recorded by cross-version baselines.
pub open spec fn engine_info_is_current(info: CleanupScanEngineInfo) -> bool {
    &&& info.strategy@ == "compiled-root-plan-native-complete-root-aggregate-with-safe-fallback-v10"@
    &&& info.rule_catalog_mode@ == "v2-embedded-declarative-with-special-and-project-artifact-registries"@
    &&& info.configured_worker_limit == CLEANUP_SCAN_WORKER_LIMIT
    &&& !info.scan_result_persistence_enabled
    &&& info.single_pass_rule_matching
    &&& !info.incremental_scan_enabled
}

pub struct CleanupScanService;

pub open spec fn previous_installations_message() -> Seq<char> {
    "privileged previous-installation scanning is available only on Windows"@
}

impl CleanupScanService {
    /// Scanning previous Windows installations needs a privileged Windows
    /// helper; elsewhere it fails.
    pub fn scan_previous_installations_with_privileges() -> (r: Result<crate::models::ScanRuleResult, String>)
        ensures
            r matches Err(m) && m@ == previous_installations_message(),
    {
        Err("privileged previous-installation scanning is available only on Windows".to_string())
    }

    /// Describes behavior recorded by cross-version baselines.
    pub fn engine_info() -> (info: CleanupScanEngineInfo)
        ensures
            engine_info_is_current(info),
    {
        CleanupScanEngineInfo {
            strategy: "compiled-root-plan-native-complete-root-aggregate-with-safe-fallback-v10",
            rule_catalog_mode: "v2-embedded-declarative-with-special-and-project-artifact-registries",
            configured_worker_limit: CLEANUP_SCAN_WORKER_LIMIT,
            scan_result_persistence_enabled: false,
            single_pass_rule_matching: true,
            incremental_scan_enabled: false,
        }
    }
}

} // verus!

verus! {

/// How the volume of one root task may be scanned: its device class name
/// and the number of workers it tolerates.
pub struct TaskScheduling {
    pub class: String,
    pub worker_limit: usize,
}

/// A mounted volume and how it may be scanned.
pub struct VolumeScheduling {
    pub mount_point: String,
    pub class: String,
    pub worker_limit: usize,
}

/// The (class name, worker limit) of each task.
pub open spec fn scheduling_views(tasks: Seq<TaskScheduling>) -> Seq<(Seq<char>, usize)> {
    tasks.map_values(|t: TaskScheduling| (t.class@, t.worker_limit))
}

/// Two paths name the same location when their components agree, as
/// `Path` equality compares them.
pub open spec fn same_path(a: Seq<char>, b: Seq<char>) -> bool {
    crate::paths::path_components(a) == crate::paths::path_components(b)
}

/// Index of the first volume mounted at `root`, or -1.
pub open spec fn volume_index(volumes: Seq<VolumeScheduling>, root: Seq<char>) -> int
    decreases volumes.len(),
{
    if volumes.len() == 0 {
        -1
    } else if same_path(volumes[0].mount_point@, root) {
        0
    } else {
        let r = volume_index(volumes.drop_first(), root);
        if r < 0 {
            -1
        } else {
            r + 1
        }
    }
}

/// How a root task on `root` is scheduled: as the first volume mounted
/// there, or, on no known volume, as an unknown device with the
/// conservative limit of one worker.
pub open spec fn scheduling_of(volumes: Seq<VolumeScheduling>, root: Seq<char>) -> (Seq<char>, usize) {
    let i = volume_index(volumes, root);
    if i >= 0 {
        (volumes[i].class@, volumes[i].worker_limit)
    } else {
        ("unknown"@, 1usize)
    }
}

/// The scheduling of every root task, by the volume root it lies on.
pub open spec fn resolved_schedulings(volumes: Seq<VolumeScheduling>, roots: Seq<Seq<char>>) -> Seq<
    (Seq<char>, usize),
> {
    roots.map_values(|root: Seq<char>| scheduling_of(volumes, root))
}

/// The distinct class names, in first-seen order.
pub open spec fn distinct_classes(tasks: Seq<(Seq<char>, usize)>) -> Seq<Seq<char>>
    decreases tasks.len(),
{
    if tasks.len() == 0 {
        seq![]
    } else {
        let r = distinct_classes(tasks.drop_last());
        if r.contains(tasks.last().0) {
            r
        } else {
            r.push(tasks.last().0)
        }
    }
}

pub open spec fn name_position(s: Seq<Seq<char>>, x: Seq<char>) -> int
    decreases s.len(),
{
    if s.len() == 0 {
        0
    } else if crate::text::lex_lt(x, s[0]) {
        0
    } else {
        1 + name_position(s.drop_first(), x)
    }
}

/// Names sorted (stably) by text.
pub open spec fn sorted_names(s: Seq<Seq<char>>) -> Seq<Seq<char>>
    decreases s.len(),
{
    if s.len() == 0 {
        s
    } else {
        let r = sorted_names(s.drop_last());
        r.insert(name_position(r, s.last()), s.last())
    }
}

/// Texts joined with commas.
pub open spec fn comma_joined(s: Seq<Seq<char>>) -> Seq<char>
    decreases s.len(),
{
    if s.len() == 0 {
        seq![]
    } else if s.len() == 1 {
        s[0]
    } else {
        comma_joined(s.drop_last()) + seq![','] + s.last()
    }
}

/// The lowest worker limit of the tasks' volumes, at most the scan limit.
pub open spec fn device_limit(tasks: Seq<(Seq<char>, usize)>) -> int
    decreases tasks.len(),
{
    if tasks.len() == 0 {
        CLEANUP_SCAN_WORKER_LIMIT as int
    } else {
        let d = device_limit(tasks.drop_last());
        if tasks.last().1 < d {
            tasks.last().1 as int
        } else {
            d
        }
    }
}

pub open spec fn min_int(a: int, b: int) -> int {
    if a <= b {
        a
    } else {
        b
    }
}

/// One worker pool for a whole plan: the available workers (at least one),
/// capped by the lowest device limit and by the number of root tasks; with
/// no task, one worker on an unknown device class.
pub open spec fn worker_plan(tasks: Seq<(Seq<char>, usize)>, available_workers: usize) -> (int, Seq<char>) {
    let available = if available_workers < 1 {
        1int
    } else {
        available_workers as int
    };
    if tasks.len() == 0 {
        (1, "unknown"@)
    } else {
        (
            min_int(min_int(available, device_limit(tasks)), tasks.len() as int),
            comma_joined(sorted_names(distinct_classes(tasks))),
        )
    }
}

proof fn lemma_device_limit(tasks: Seq<(Seq<char>, usize)>)
    ensures
        device_limit(tasks) <= CLEANUP_SCAN_WORKER_LIMIT,
        forall|i: int| 0 <= i < tasks.len() ==> device_limit(tasks) <= (#[trigger] tasks[i]).1,
    decreases tasks.len(),
{
    if tasks.len() > 0 {
        lemma_device_limit(tasks.drop_last());
        assert forall|i: int| 0 <= i < tasks.len() implies device_limit(tasks) <= (#[trigger] tasks[i]).1 by {
            if i < tasks.len() - 1 {
                assert(tasks[i] == tasks.drop_last()[i]);
            }
        }
    }
}

/// The worker pool of a plan never exceeds the scan's worker limit, the
/// limit of any volume a root task lies on, or the number of root tasks.
pub proof fn law_worker_pool_respects_every_volume(tasks: Seq<(Seq<char>, usize)>, available_workers: usize)
    ensures
        worker_plan(tasks, available_workers).0 <= CLEANUP_SCAN_WORKER_LIMIT,
        forall|i: int| 0 <= i < tasks.len() ==> worker_plan(tasks, available_workers).0 <= (#[trigger] tasks[i]).1,
        tasks.len() > 0 ==> worker_plan(tasks, available_workers).0 <= tasks.len(),
{
    lemma_device_limit(tasks);
}

fn contains_name(names: &Vec<String>, x: &str) -> (r: bool)
    ensures
        r == crate::plan::texts(names@).contains(x@),
{
    let mut i: usize = 0;
    while i < names.len()
        invariant
            i <= names@.len(),
            forall|j: int| 0 <= j < i ==> #[trigger] crate::plan::texts(names@)[j] != x@,
        decreases names.len() - i,
    {
        if crate::text::str_equal(names[i].as_str(), x) {
            assert(crate::plan::texts(names@)[i as int] == x@);
            return true;
        }
        i = i + 1;
    }
    false
}

proof fn lemma_name_position(s: Seq<Seq<char>>, x: Seq<char>, j: int)
    requires
        0 <= j <= s.len(),
        forall|m: int| 0 <= m < j ==> !crate::text::lex_lt(x, #[trigger] s[m]),
        j == s.len() || crate::text::lex_lt(x, s[j]),
    ensures
        name_position(s, x) == j,
    decreases j,
{
    if j > 0 {
        assert forall|m: int| 0 <= m < j - 1 implies !crate::text::lex_lt(x, #[trigger] s.drop_first()[m]) by {
            assert(s.drop_first()[m] == s[m + 1]);
        }
        lemma_name_position(s.drop_first(), x, j - 1);
    }
}

/// The worker count for root tasks of known scheduling and the summary of
/// their device classes.
pub fn worker_count_for_tasks(tasks: &Vec<TaskScheduling>, available_workers: usize) -> (r: (usize, String))
    ensures
        r.0 as int == worker_plan(scheduling_views(tasks@), available_workers).0,
        r.1@ == worker_plan(scheduling_views(tasks@), available_workers).1,
{
    let ghost views = scheduling_views(tasks@);
    if tasks.len() == 0 {
        return (1, "unknown".to_string());
    }
    let mut classes: Vec<String> = Vec::new();
    let mut limit: usize = CLEANUP_SCAN_WORKER_LIMIT;
    let mut i: usize = 0;
    assert(views.take(0) =~= Seq::<(Seq<char>, usize)>::empty());
    while i < tasks.len()
        invariant
            i <= tasks@.len(),
            views == scheduling_views(tasks@),
            crate::plan::texts(classes@) == distinct_classes(views.take(i as int)),
            limit as int == device_limit(views.take(i as int)),
        decreases tasks.len() - i,
    {
        assert(views.take(i + 1).drop_last() =~= views.take(i as int));
        assert(views.take(i + 1).last() == (tasks@[i as int].class@, tasks@[i as int].worker_limit));
        let t = &tasks[i];
        if t.worker_limit < limit {
            limit = t.worker_limit;
        }
        if !contains_name(&classes, t.class.as_str()) {
            let ghost before = classes@;
            classes.push(t.class.clone());
            assert(crate::plan::texts(classes@) =~= crate::plan::texts(before).push(t.class@));
        }
        i = i + 1;
    }
    assert(views.take(i as int) =~= views);
    let ghost distinct = crate::plan::texts(classes@);
    let mut sorted: Vec<String> = Vec::new();
    let mut t: usize = 0;
    assert(distinct.take(0) =~= Seq::<Seq<char>>::empty());
    while t < classes.len()
        invariant
            t <= classes@.len(),
            distinct == crate::plan::texts(classes@),
            crate::plan::texts(sorted@) == sorted_names(distinct.take(t as int)),
        decreases classes.len() - t,
    {
        let x = &classes[t];
        let xc = crate::text::chars_of(x.as_str());
        let mut j: usize = 0;
        while j < sorted.len() && !crate::text::chars_less(&xc, &crate::text::chars_of(sorted[j].as_str()))
            invariant
                j <= sorted@.len(),
                xc@ == x@,
                forall|m: int| 0 <= m < j ==> !crate::text::lex_lt(x@, #[trigger] crate::plan::texts(sorted@)[m]),
            decreases sorted.len() - j,
        {
            assert(crate::plan::texts(sorted@)[j as int] == sorted@[j as int]@);
            j = j + 1;
        }
        let ghost before = crate::plan::texts(sorted@);
        proof {
            if j < sorted@.len() {
                assert(before[j as int] == sorted@[j as int]@);
            }
            lemma_name_position(before, x@, j as int);
            assert(distinct.take(t + 1).drop_last() =~= distinct.take(t as int));
            assert(distinct.take(t + 1).last() == x@);
        }
        sorted.insert(j, x.clone());
        assert(crate::plan::texts(sorted@) =~= before.insert(j as int, x@));
        t = t + 1;
    }
    assert(distinct.take(t as int) =~= distinct);
    let ghost names = crate::plan::texts(sorted@);
    let mut summary = String::new();
    let mut k: usize = 0;
    while k < sorted.len()
        invariant
            k <= sorted@.len(),
            names == crate::plan::texts(sorted@),
            summary@ == comma_joined(names.take(k as int)),
        decreases sorted.len() - k,
    {
        assert(names.take(k + 1).drop_last() =~= names.take(k as int));
        assert(names.take(k + 1).last() == sorted@[k as int]@);
        if k > 0 {
            crate::text::push_char(&mut summary, ',');
        }
        crate::text::push_str(&mut summary, sorted[k].as_str());
        proof {
            if k == 0 {
                assert(names.take(1)[0] == sorted@[0]@);
                assert(summary@ =~= comma_joined(names.take(1)));
            }
        }
        k = k + 1;
    }
    assert(names.take(k as int) =~= names);
    let available = if available_workers < 1 {
        1
    } else {
        available_workers
    };
    let mut workers = if available < limit {
        available
    } else {
        limit
    };
    if tasks.len() < workers {
        workers = tasks.len();
    }
    (workers, summary)
}

proof fn lemma_volume_index(volumes: Seq<VolumeScheduling>, root: Seq<char>, j: int)
    requires
        0 <= j <= volumes.len(),
        forall|m: int| 0 <= m < j ==> !same_path((#[trigger] volumes[m]).mount_point@, root),
        j < volumes.len() ==> same_path(volumes[j].mount_point@, root),
    ensures
        volume_index(volumes, root) == if j < volumes.len() {
            j
        } else {
            -1
        },
    decreases j,
{
    if j > 0 {
        assert forall|m: int| 0 <= m < j - 1 implies !same_path((#[trigger] volumes.drop_first()[m]).mount_point@, root) by {
            assert(volumes.drop_first()[m] == volumes[m + 1]);
        }
        if j < volumes.len() {
            assert(volumes.drop_first()[j - 1] == volumes[j]);
        }
        lemma_volume_index(volumes.drop_first(), root, j - 1);
    } else if volumes.len() == 0 {
    }
}

/// How a root task on the volume root `root` is scheduled (see
/// `scheduling_of`).
pub fn task_scheduling(volumes: &Vec<VolumeScheduling>, root: &str) -> (s: TaskScheduling)
    ensures
        (s.class@, s.worker_limit) == scheduling_of(volumes@, root@),
{
    let root_parts = crate::paths::split_path(&crate::text::chars_of(root));
    let mut j: usize = 0;
    while j < volumes.len()
        invariant
            j <= volumes@.len(),
            crate::paths::rows(root_parts@) == crate::paths::path_components(root@),
            forall|m: int| 0 <= m < j ==> !same_path((#[trigger] volumes@[m]).mount_point@, root@),
        decreases volumes.len() - j,
    {
        let mount = &volumes[j];
        let parts = crate::paths::split_path(&crate::text::chars_of(mount.mount_point.as_str()));
        if crate::paths::rows_equal(&parts, &root_parts) {
            proof {
                lemma_volume_index(volumes@, root@, j as int);
            }
            return TaskScheduling { class: mount.class.clone(), worker_limit: mount.worker_limit };
        }
        j = j + 1;
    }
    proof {
        lemma_volume_index(volumes@, root@, j as int);
    }
    TaskScheduling { class: "unknown".to_string(), worker_limit: 1 }
}

/// The worker count for a plan whose root tasks lie on the volume roots
/// `volume_roots`, and the summary of their device classes: each task is
/// scheduled as the volume mounted at its root (see `scheduling_of`), and
/// one pool serves them all (see `worker_plan`).
pub fn scan_worker_count(volume_roots: &Vec<String>, volumes: &Vec<VolumeScheduling>, available_workers: usize) -> (r: (
    usize,
    String,
))
    ensures
        r.0 as int == worker_plan(resolved_schedulings(volumes@, crate::plan::texts(volume_roots@)), available_workers).0,
        r.1@ == worker_plan(resolved_schedulings(volumes@, crate::plan::texts(volume_roots@)), available_workers).1,
{
    let mut tasks: Vec<TaskScheduling> = Vec::new();
    let mut i: usize = 0;
    while i < volume_roots.len()
        invariant
            i <= volume_roots@.len(),
            scheduling_views(tasks@) == resolved_schedulings(volumes@, crate::plan::texts(volume_roots@)).take(i as int),
        decreases volume_roots.len() - i,
    {
        let t = task_scheduling(volumes, volume_roots[i].as_str());
        let ghost before = tasks@;
        tasks.push(t);
        assert(scheduling_views(tasks@) =~= scheduling_views(before).push((t.class@, t.worker_limit)));
        assert(resolved_schedulings(volumes@, crate::plan::texts(volume_roots@)).take(i + 1) =~= resolved_schedulings(
            volumes@,
            crate::plan::texts(volume_roots@),
        ).take(i as int).push(scheduling_of(volumes@, volume_roots@[i as int]@)));
        i = i + 1;
    }
    assert(resolved_schedulings(volumes@, crate::plan::texts(volume_roots@)).take(i as int) =~= resolved_schedulings(
        volumes@,
        crate::plan::texts(volume_roots@),
    ));
    worker_count_for_tasks(&tasks, available_workers)
}

} // verus!
