//! Assembly of a scan snapshot from measured rules and cleaner previews:
//! the published rows, the per-rule warning counts and the totals.
use vstd::prelude::*;

use crate::models::{
    CleanupCategory, CleanupGroup, CleanupSourceDetail, RiskLevel, ScanItemStatus, ScanRuleResult,
    category_group,
};
use crate::plan::texts;
use crate::scan::{
    MAX_CLEANUP_SOURCE_DETAILS, MeasureResult, RuleRiskLevel, SourceMeasurement, detail_view,
    non_empty_sources, public_risk, public_risk_of, ranked_details, scan_item_status, status_of,
    summarize_cleanup_sources,
};
use crate::text::{has_key, keys_ascending, set_entry};

verus! {

/// One compiled rule after measurement.
pub struct MeasuredRule {
    pub rule_id: String,
    pub category: CleanupCategory,
    pub group: CleanupGroup,
    pub risk: RuleRiskLevel,
    pub default_selected: bool,
    pub recommended_selected: bool,
    pub requires_app_close: bool,
    pub available: bool,
    pub measured: MeasureResult,
    pub scan_elapsed_ms: u64,
    /// Measured source locations, in any order.
    pub sources: Vec<(String, SourceMeasurement)>,
    /// Running processes that must stop before the rule's content changes.
    pub running_processes: Vec<String>,
}

/// `details`, `count` and `truncated` are the bounded summary of `sources`.
pub open spec fn summarizes(
    sources: Seq<(String, SourceMeasurement)>,
    details: Seq<CleanupSourceDetail>,
    count: u64,
    truncated: bool,
) -> bool {
    let all = ranked_details(non_empty_sources(sources));
    let n = if all.len() < MAX_CLEANUP_SOURCE_DETAILS {
        all.len() as int
    } else {
        MAX_CLEANUP_SOURCE_DETAILS as int
    };
    &&& details.map_values(|d: CleanupSourceDetail| detail_view(d)) == all.take(n)
    &&& forall|m: int| 0 <= m < details.len() ==> (#[trigger] details[m]).block_reason.is_none()
    &&& count == non_empty_sources(sources).len()
    &&& truncated == (non_empty_sources(sources).len() > MAX_CLEANUP_SOURCE_DETAILS)
}

/// The processes a rule reports as blocking it: only when it holds content
/// and needs its applications closed.
pub open spec fn blocking_processes(m: MeasuredRule) -> Seq<Seq<char>> {
    if m.measured.bytes > 0 && m.requires_app_close {
        texts(m.running_processes@)
    } else {
        seq![]
    }
}

/// The published row of a measured rule.
pub open spec fn rule_row(m: MeasuredRule, r: ScanRuleResult) -> bool {
    &&& r.rule_id@ == m.rule_id@
    &&& r.category == m.category
    &&& r.group == m.group
    &&& r.risk == public_risk_of(m.risk)
    &&& r.default_selected == m.default_selected
    &&& r.recommended_selected == m.recommended_selected
    &&& r.bytes == m.measured.bytes
    &&& r.file_count == m.measured.file_count
    &&& r.available == m.available
    &&& r.selectable == (m.available && m.measured.bytes > 0)
    &&& r.status == status_of(
        m.available,
        m.measured.bytes,
        m.measured.skipped_count,
        blocking_processes(m).len(),
    )
    &&& texts(r.running_processes@) == blocking_processes(m)
    &&& r.requires_app_close == m.requires_app_close
    &&& summarizes(m.sources@, r.sources@, r.source_count, r.sources_truncated)
    &&& r.scan_elapsed_ms == m.scan_elapsed_ms
}

/// Publishes one measured rule.
pub fn scan_rule_result(m: MeasuredRule) -> (r: ScanRuleResult)
    requires
        m.sources@.len() <= u64::MAX,
    ensures
        rule_row(m, r),
{
    let ghost m0 = m;
    let MeasuredRule {
        rule_id,
        category,
        group,
        risk,
        default_selected,
        recommended_selected,
        requires_app_close,
        available,
        measured,
        scan_elapsed_ms,
        sources,
        running_processes,
    } = m;
    let running = if measured.bytes > 0 && requires_app_close {
        running_processes
    } else {
        Vec::new()
    };
    assert(texts(running@) =~= blocking_processes(m0));
    let status = scan_item_status(available, measured.bytes, measured.skipped_count, &running);
    let (details, count, truncated) = summarize_cleanup_sources(sources);
    ScanRuleResult {
        rule_id,
        category,
        group,
        risk: public_risk(risk),
        default_selected,
        recommended_selected,
        bytes: measured.bytes,
        file_count: measured.file_count,
        available,
        selectable: available && measured.bytes > 0,
        status,
        running_processes: running,
        requires_app_close,
        sources: details,
        source_count: count,
        sources_truncated: truncated,
        scan_elapsed_ms,
    }
}

/// The warning count recorded for a rule: one for a cleaner that could not
/// preview, else the skipped entries of the last measured rule with that
/// ID that skipped any.
pub open spec fn warning_of(measured: Seq<MeasuredRule>, cleaners: Seq<ScanRuleResult>, id: Seq<char>) -> Option<u64> {
    if exists|k: int|
        0 <= k < cleaners.len() && (#[trigger] cleaners[k]).status == ScanItemStatus::Limited
            && cleaners[k].rule_id@ == id {
        Some(1u64)
    } else {
        skipped_of(measured, id)
    }
}

pub open spec fn skipped_of(measured: Seq<MeasuredRule>, id: Seq<char>) -> Option<u64>
    decreases measured.len(),
{
    if measured.len() == 0 {
        None
    } else if measured.last().rule_id@ == id && measured.last().measured.skipped_count > 0 {
        Some(measured.last().measured.skipped_count)
    } else {
        skipped_of(measured.drop_last(), id)
    }
}

pub open spec fn warnings_read(
    entries: Seq<(String, u64)>,
    measured: Seq<MeasuredRule>,
    cleaners: Seq<ScanRuleResult>,
) -> bool {
    &&& keys_ascending(entries)
    &&& forall|i: int|
        0 <= i < entries.len() ==> warning_of(measured, cleaners, (#[trigger] entries[i]).0@) == Some(
            entries[i].1,
        )
    &&& forall|id: Seq<char>| #[trigger] warning_of(measured, cleaners, id) is Some ==> has_key(entries, id)
}

/// Skipped or capability-limited item counts per rule, ordered by rule ID.
pub fn warning_counts_by_rule(measured: &Vec<MeasuredRule>, cleaners: &Vec<ScanRuleResult>) -> (r: Vec<(String, u64)>)
    ensures
        warnings_read(r@, measured@, cleaners@),
{
    let mut entries: Vec<(String, u64)> = Vec::new();
    let mut i: usize = 0;
    while i < measured.len()
        invariant
            i <= measured@.len(),
            warnings_read(entries@, measured@.take(i as int), seq![]),
        decreases measured.len() - i,
    {
        let ghost prev = measured@.take(i as int);
        let ghost next = measured@.take(i + 1);
        assert(next.drop_last() =~= prev);
        assert(next.last() == measured@[i as int]);
        let m = &measured[i];
        if m.measured.skipped_count > 0 {
            let ghost before = entries@;
            set_entry(&mut entries, m.rule_id.as_str(), m.measured.skipped_count);
            assert forall|k: int| 0 <= k < entries@.len() implies warning_of(next, seq![], (#[trigger] entries@[k]).0@)
                == Some(entries@[k].1) by {
                if entries@[k].0@ != m.rule_id@ {
                    let j = choose|j: int| 0 <= j < before.len() && #[trigger] before[j] == entries@[k];
                    assert(warning_of(prev, seq![], before[j].0@) == Some(before[j].1));
                }
            }
            assert forall|id: Seq<char>| #[trigger] warning_of(next, seq![], id) is Some implies has_key(entries@, id) by {
                if id != m.rule_id@ {
                    assert(warning_of(prev, seq![], id) is Some);
                }
            }
        } else {
            assert forall|k: int| 0 <= k < entries@.len() implies warning_of(next, seq![], (#[trigger] entries@[k]).0@)
                == Some(entries@[k].1) by {
                assert(warning_of(prev, seq![], entries@[k].0@) == Some(entries@[k].1));
            }
            assert forall|id: Seq<char>| #[trigger] warning_of(next, seq![], id) is Some implies has_key(entries@, id) by {
                assert(warning_of(prev, seq![], id) is Some);
            }
        }
        i = i + 1;
    }
    assert(measured@.take(i as int) =~= measured@);
    assert(cleaners@.take(0) =~= Seq::<ScanRuleResult>::empty());
    let mut c: usize = 0;
    while c < cleaners.len()
        invariant
            c <= cleaners@.len(),
            warnings_read(entries@, measured@, cleaners@.take(c as int)),
        decreases cleaners.len() - c,
    {
        let ghost prev = cleaners@.take(c as int);
        let ghost next = cleaners@.take(c + 1);
        assert(next.drop_last() =~= prev);
        assert(next[c as int] == cleaners@[c as int]);
        assert forall|k: int| 0 <= k < prev.len() implies #[trigger] prev[k] == next[k] by {}
        let rule = &cleaners[c];
        if rule.status == ScanItemStatus::Limited {
            let ghost before = entries@;
            set_entry(&mut entries, rule.rule_id.as_str(), 1);
            assert forall|k: int| 0 <= k < entries@.len() implies warning_of(measured@, next, (#[trigger] entries@[k]).0@)
                == Some(entries@[k].1) by {
                let key = entries@[k].0@;
                if key == rule.rule_id@ {
                    assert(next[c as int].status == ScanItemStatus::Limited && next[c as int].rule_id@ == key);
                } else {
                    let j = choose|j: int| 0 <= j < before.len() && #[trigger] before[j] == entries@[k];
                    assert(warning_of(measured@, prev, before[j].0@) == Some(before[j].1));
                    if exists|q: int|
                        0 <= q < prev.len() && (#[trigger] prev[q]).status == ScanItemStatus::Limited
                            && prev[q].rule_id@ == key {
                        let q = choose|q: int|
                            0 <= q < prev.len() && (#[trigger] prev[q]).status == ScanItemStatus::Limited
                                && prev[q].rule_id@ == key;
                        assert(next[q] == prev[q]);
                    }
                }
            }
            assert forall|id: Seq<char>| #[trigger] warning_of(measured@, next, id) is Some implies has_key(
                entries@,
                id,
            ) by {
                if id != rule.rule_id@ {
                    if exists|q: int|
                        0 <= q < next.len() && (#[trigger] next[q]).status == ScanItemStatus::Limited
                            && next[q].rule_id@ == id {
                        let q = choose|q: int|
                            0 <= q < next.len() && (#[trigger] next[q]).status == ScanItemStatus::Limited
                                && next[q].rule_id@ == id;
                        assert(q != c);
                        assert(prev[q] == next[q]);
                    }
                    assert(warning_of(measured@, prev, id) is Some);
                }
            }
        } else {
            assert forall|k: int| 0 <= k < entries@.len() implies warning_of(measured@, next, (#[trigger] entries@[k]).0@)
                == Some(entries@[k].1) by {
                let key = entries@[k].0@;
                assert(warning_of(measured@, prev, key) == Some(entries@[k].1));
                if exists|q: int|
                    0 <= q < prev.len() && (#[trigger] prev[q]).status == ScanItemStatus::Limited
                        && prev[q].rule_id@ == key {
                    let q = choose|q: int|
                        0 <= q < prev.len() && (#[trigger] prev[q]).status == ScanItemStatus::Limited
                            && prev[q].rule_id@ == key;
                    assert(next[q] == prev[q]);
                }
                if exists|q: int|
                    0 <= q < next.len() && (#[trigger] next[q]).status == ScanItemStatus::Limited
                        && next[q].rule_id@ == key {
                    let q = choose|q: int|
                        0 <= q < next.len() && (#[trigger] next[q]).status == ScanItemStatus::Limited
                            && next[q].rule_id@ == key;
                    assert(q != c);
                    assert(prev[q] == next[q]);
                }
            }
            assert forall|id: Seq<char>| #[trigger] warning_of(measured@, next, id) is Some implies has_key(
                entries@,
                id,
            ) by {
                if exists|q: int|
                    0 <= q < next.len() && (#[trigger] next[q]).status == ScanItemStatus::Limited
                        && next[q].rule_id@ == id {
                    let q = choose|q: int|
                        0 <= q < next.len() && (#[trigger] next[q]).status == ScanItemStatus::Limited
                            && next[q].rule_id@ == id;
                    assert(q != c);
                    assert(prev[q] == next[q]);
                }
                assert(warning_of(measured@, prev, id) is Some);
            }
        }
        c = c + 1;
    }
    assert(cleaners@.take(c as int) =~= cleaners@);
    entries
}

} // verus!

verus! {

pub open spec fn values_total(s: Seq<(String, u64)>) -> nat
    decreases s.len(),
{
    if s.len() == 0 {
        0
    } else {
        values_total(s.drop_last()) + s.last().1 as nat
    }
}

/// The total of the per-rule warning counts.
pub fn warning_total(entries: &Vec<(String, u64)>) -> (t: u64)
    requires
        values_total(entries@) <= u64::MAX,
    ensures
        t == values_total(entries@),
{
    let mut t: u64 = 0;
    let mut i: usize = 0;
    while i < entries.len()
        invariant
            i <= entries@.len(),
            values_total(entries@) <= u64::MAX,
            t == values_total(entries@.take(i as int)),
        decreases entries.len() - i,
    {
        assert(entries@.take(i + 1).drop_last() =~= entries@.take(i as int));
        proof {
            lemma_values_total_prefix(entries@, i + 1);
        }
        t = t + entries[i].1;
        i = i + 1;
    }
    assert(entries@.take(i as int) =~= entries@);
    t
}

proof fn lemma_values_total_prefix(s: Seq<(String, u64)>, i: int)
    requires
        0 <= i <= s.len(),
    ensures
        values_total(s.take(i)) <= values_total(s),
    decreases s.len() - i,
{
    if i < s.len() {
        lemma_values_total_prefix(s, i + 1);
        assert(s.take(i + 1).drop_last() =~= s.take(i));
    } else {
        assert(s.take(i) =~= s);
    }
}

/// Bytes of the selectable rules (`safe_only`: of the safe ones).
pub open spec fn selectable_bytes(rules: Seq<ScanRuleResult>, safe_only: bool) -> nat
    decreases rules.len(),
{
    if rules.len() == 0 {
        0
    } else {
        let r = rules.last();
        selectable_bytes(rules.drop_last(), safe_only) + if r.selectable && (!safe_only || r.risk
            == RiskLevel::Safe) {
            r.bytes as nat
        } else {
            0nat
        }
    }
}

pub open spec fn not_applicable_count(rules: Seq<ScanRuleResult>) -> nat
    decreases rules.len(),
{
    if rules.len() == 0 {
        0
    } else {
        not_applicable_count(rules.drop_last()) + if rules.last().status == ScanItemStatus::NotApplicable {
            1nat
        } else {
            0nat
        }
    }
}

proof fn lemma_selectable_bytes(rules: Seq<ScanRuleResult>, i: int)
    requires
        0 <= i <= rules.len(),
    ensures
        selectable_bytes(rules.take(i), true) <= selectable_bytes(rules.take(i), false),
        selectable_bytes(rules.take(i), false) <= selectable_bytes(rules, false),
        not_applicable_count(rules.take(i)) <= i,
    decreases rules.len() - i,
{
    if i < rules.len() {
        lemma_selectable_bytes(rules, i + 1);
        assert(rules.take(i + 1).drop_last() =~= rules.take(i));
    } else {
        assert(rules.take(i) =~= rules);
        lemma_safe_below_all(rules);
    }
    lemma_safe_below_all(rules.take(i));
    lemma_not_applicable_bound(rules.take(i));
}

proof fn lemma_safe_below_all(rules: Seq<ScanRuleResult>)
    ensures
        selectable_bytes(rules, true) <= selectable_bytes(rules, false),
    decreases rules.len(),
{
    if rules.len() > 0 {
        lemma_safe_below_all(rules.drop_last());
    }
}

proof fn lemma_not_applicable_bound(rules: Seq<ScanRuleResult>)
    ensures
        not_applicable_count(rules) <= rules.len(),
    decreases rules.len(),
{
    if rules.len() > 0 {
        lemma_not_applicable_bound(rules.drop_last());
    }
}

/// Totals published with a scan.
pub struct ScanTotals {
    pub safe_bytes: u64,
    pub reclaimable_bytes: u64,
    pub applicable_rule_count: u64,
    pub filtered_rule_count: u64,
}

/// Bytes of the selectable and of the selectable safe rules, and how many
/// rules apply to this machine and how many were filtered out.
pub fn scan_totals(rules: &Vec<ScanRuleResult>) -> (t: ScanTotals)
    requires
        selectable_bytes(rules@, false) <= u64::MAX,
    ensures
        t.safe_bytes == selectable_bytes(rules@, true),
        t.reclaimable_bytes == selectable_bytes(rules@, false),
        t.filtered_rule_count == not_applicable_count(rules@),
        t.applicable_rule_count == rules@.len() - not_applicable_count(rules@),
{
    let mut safe: u64 = 0;
    let mut all: u64 = 0;
    let mut filtered: u64 = 0;
    let mut i: usize = 0;
    while i < rules.len()
        invariant
            i <= rules@.len(),
            selectable_bytes(rules@, false) <= u64::MAX,
            safe == selectable_bytes(rules@.take(i as int), true),
            all == selectable_bytes(rules@.take(i as int), false),
            filtered == not_applicable_count(rules@.take(i as int)),
        decreases rules.len() - i,
    {
        assert(rules@.take(i + 1).drop_last() =~= rules@.take(i as int));
        proof {
            lemma_selectable_bytes(rules@, i + 1);
        }
        let r = &rules[i];
        if r.selectable {
            all = all + r.bytes;
            if r.risk == RiskLevel::Safe {
                safe = safe + r.bytes;
            }
        }
        if r.status == ScanItemStatus::NotApplicable {
            filtered = filtered + 1;
        }
        i = i + 1;
    }
    assert(rules@.take(i as int) =~= rules@);
    proof {
        lemma_not_applicable_bound(rules@);
    }
    ScanTotals {
        safe_bytes: safe,
        reclaimable_bytes: all,
        applicable_rule_count: rules.len() as u64 - filtered,
        filtered_rule_count: filtered,
    }
}

/// The scan rows: each measured rule published, then the cleaner rows.
pub fn assemble_scan_rules(measured: Vec<MeasuredRule>, cleaners: Vec<ScanRuleResult>) -> (r: Vec<ScanRuleResult>)
    requires
        forall|i: int| 0 <= i < measured@.len() ==> (#[trigger] measured@[i]).sources@.len() <= u64::MAX,
    ensures
        r@.len() == measured@.len() + cleaners@.len(),
        forall|i: int| 0 <= i < measured@.len() ==> rule_row(measured@[i], #[trigger] r@[i]),
        forall|j: int| 0 <= j < cleaners@.len() ==> #[trigger] r@[measured@.len() + j] == cleaners@[j],
{
    let ghost all = measured@;
    let mut rest = measured;
    let mut r: Vec<ScanRuleResult> = Vec::new();
    let n = rest.len();
    let mut i: usize = 0;
    while i < n
        invariant
            i <= n,
            n == all.len(),
            rest@ == all.skip(i as int),
            forall|k: int| 0 <= k < all.len() ==> (#[trigger] all[k]).sources@.len() <= u64::MAX,
            r@.len() == i,
            forall|k: int| 0 <= k < i ==> rule_row(all[k], #[trigger] r@[k]),
        decreases n - i,
    {
        let m = rest.remove(0);
        assert(m == all[i as int]);
        assert(all.skip(i + 1) =~= all.skip(i as int).drop_first());
        r.push(scan_rule_result(m));
        i = i + 1;
    }
    let ghost before = r@;
    let mut rest_c = cleaners;
    let ghost call = rest_c@;
    let mut j: usize = 0;
    let cn = rest_c.len();
    while j < cn
        invariant
            j <= cn,
            cn == call.len(),
            rest_c@ == call.skip(j as int),
            r@.len() == n + j,
            forall|k: int| 0 <= k < n ==> #[trigger] r@[k] == before[k],
            forall|k: int| 0 <= k < j ==> #[trigger] r@[n + k] == call[k],
        decreases cn - j,
    {
        let c = rest_c.remove(0);
        assert(c == call[j as int]);
        assert(call.skip(j + 1) =~= call.skip(j as int).drop_first());
        r.push(c);
        j = j + 1;
    }
    r
}

} // verus!

verus! {

/// The user's directories that decide a rule's presentation group on macOS.
pub struct UserDirectories {
    pub home_directory: String,
    pub cache_directory: String,
}

/// A root below the user's Xcode or CoreSimulator developer data.
pub open spec fn xcode_data_root(root: Seq<char>, home: Seq<char>) -> bool {
    let developer = crate::launchd::path_join(crate::launchd::path_join(home, "Library"@), "Developer"@);
    crate::paths::path_starts_with(root, crate::paths::path_components(crate::launchd::path_join(developer, "Xcode"@)))
        || crate::paths::path_starts_with(
        root,
        crate::paths::path_components(crate::launchd::path_join(developer, "CoreSimulator"@)),
    )
}

/// The group a rule is presented in: with the user's directories known
/// (macOS), Xcode data first, then the user's cache tree; else the
/// category's own group.
pub open spec fn group_for(
    category: CleanupCategory,
    roots: Seq<Seq<char>>,
    dirs: Option<(Seq<char>, Seq<char>)>,
) -> CleanupGroup {
    match dirs {
        Some(p) => group_with_dirs(category, roots, p.0, p.1),
        None => category_group(category),
    }
}

pub open spec fn group_with_dirs(category: CleanupCategory, roots: Seq<Seq<char>>, home: Seq<char>, cache: Seq<char>) -> CleanupGroup {
    if exists|k: int| 0 <= k < roots.len() && #[trigger] xcode_data_root(roots[k], home) {
        CleanupGroup::Xcode
    } else if exists|k: int|
        0 <= k < roots.len() && #[trigger] crate::paths::path_starts_with(roots[k], crate::paths::path_components(cache)) {
        CleanupGroup::UserCache
    } else {
        category_group(category)
    }
}

fn starts_with_path(root: &str, base: &str) -> (r: bool)
    ensures
        r == crate::paths::path_starts_with(root@, crate::paths::path_components(base@)),
{
    let a = crate::text::chars_of(root);
    let b = crate::text::chars_of(base);
    let pa = crate::paths::split_path(&a);
    let pb = crate::paths::split_path(&b);
    crate::paths::rows_prefix(&pa, &pb)
}

pub fn cleanup_group(category: CleanupCategory, roots: &Vec<String>, dirs: Option<&UserDirectories>) -> (g: CleanupGroup)
    ensures
        g == group_for(
            category,
            texts(roots@),
            match dirs {
                Some(d) => Some((d.home_directory@, d.cache_directory@)),
                None => None,
            },
        ),
{
    match dirs {
        Some(d) => {
            let library = crate::launchd::join_path(d.home_directory.as_str(), "Library");
            let developer = crate::launchd::join_path(library.as_str(), "Developer");
            let xcode = crate::launchd::join_path(developer.as_str(), "Xcode");
            let simulator = crate::launchd::join_path(developer.as_str(), "CoreSimulator");
            let mut k: usize = 0;
            while k < roots.len()
                invariant
                    k <= roots@.len(),
                    dirs == Some(d),
                    xcode@ == crate::launchd::path_join(
                        crate::launchd::path_join(crate::launchd::path_join(d.home_directory@, "Library"@), "Developer"@),
                        "Xcode"@,
                    ),
                    simulator@ == crate::launchd::path_join(
                        crate::launchd::path_join(crate::launchd::path_join(d.home_directory@, "Library"@), "Developer"@),
                        "CoreSimulator"@,
                    ),
                    forall|j: int| 0 <= j < k ==> !#[trigger] xcode_data_root(texts(roots@)[j], d.home_directory@),
                decreases roots.len() - k,
            {
                assert(texts(roots@)[k as int] == roots@[k as int]@);
                if starts_with_path(roots[k].as_str(), xcode.as_str()) || starts_with_path(
                    roots[k].as_str(),
                    simulator.as_str(),
                ) {
                    assert(xcode_data_root(texts(roots@)[k as int], d.home_directory@));
                    return CleanupGroup::Xcode;
                }
                k = k + 1;
            }
            let mut m: usize = 0;
            while m < roots.len()
                invariant
                    m <= roots@.len(),
                    dirs == Some(d),
                    forall|j: int| 0 <= j < roots@.len() ==> !#[trigger] xcode_data_root(texts(roots@)[j], d.home_directory@),
                    forall|j: int|
                        0 <= j < m ==> !#[trigger] crate::paths::path_starts_with(
                            texts(roots@)[j],
                            crate::paths::path_components(d.cache_directory@),
                        ),
                decreases roots.len() - m,
            {
                assert(texts(roots@)[m as int] == roots@[m as int]@);
                if starts_with_path(roots[m].as_str(), d.cache_directory.as_str()) {
                    return CleanupGroup::UserCache;
                }
                m = m + 1;
            }
            CleanupGroup::from(category)
        },
        None => CleanupGroup::from(category),
    }
}

} // verus!

verus! {

pub open spec fn scan_schema_version() -> Seq<char> {
    "1.10"@
}

/// A complete scan snapshot from its parts: the warning total and the
/// byte and rule totals are derived from the rows and warning counts.
pub fn scan_snapshot(
    custom_scan_id: Option<u64>,
    missing_custom_root_count: u64,
    scanned_at_ms: u64,
    disk: crate::models::DiskInfo,
    rules: Vec<ScanRuleResult>,
    application_icons: Vec<crate::models::CleanupApplicationIcon>,
    warning_counts_by_rule: Vec<(String, u64)>,
    applicability_elapsed_ms: u64,
    inventory_application_count: u64,
    inventory_process_count: u64,
    elapsed_ms: u64,
) -> (r: crate::models::CleanupScanResult)
    requires
        values_total(warning_counts_by_rule@) <= u64::MAX,
        selectable_bytes(rules@, false) <= u64::MAX,
    ensures
        r.schema_version@ == scan_schema_version(),
        r.custom_scan_id == custom_scan_id,
        r.missing_custom_root_count == missing_custom_root_count,
        r.scanned_at_ms == scanned_at_ms,
        r.disk == disk,
        r.rules@ == rules@,
        r.application_icons@ == application_icons@,
        r.warning_counts_by_rule@ == warning_counts_by_rule@,
        r.warning_count == values_total(warning_counts_by_rule@),
        r.safe_bytes == selectable_bytes(rules@, true),
        r.reclaimable_bytes == selectable_bytes(rules@, false),
        r.applicable_rule_count == rules@.len() - not_applicable_count(rules@),
        r.filtered_rule_count == not_applicable_count(rules@),
        r.applicability_elapsed_ms == applicability_elapsed_ms,
        r.inventory_application_count == inventory_application_count,
        r.inventory_process_count == inventory_process_count,
        r.elapsed_ms == elapsed_ms,
        totals_follow_rows(r),
{
    let warning_count = warning_total(&warning_counts_by_rule);
    let totals = scan_totals(&rules);
    crate::models::CleanupScanResult {
        schema_version: "1.10".to_string(),
        custom_scan_id,
        missing_custom_root_count,
        scanned_at_ms,
        disk,
        rules,
        application_icons,
        warning_counts_by_rule,
        warning_count,
        safe_bytes: totals.safe_bytes,
        reclaimable_bytes: totals.reclaimable_bytes,
        applicability_elapsed_ms,
        applicable_rule_count: totals.applicable_rule_count,
        filtered_rule_count: totals.filtered_rule_count,
        inventory_application_count,
        inventory_process_count,
        elapsed_ms,
    }
}

} // verus!

verus! {

/// What every published scan row shows consistently: it is selectable
/// exactly when it is available, holds bytes and is not limited, review-only
/// or awaiting elevation; a found row holds bytes, a clean one none, and a
/// not-applicable one is unavailable; its source summary is bounded, each
/// detail holds bytes or files, the count covers the details and the
/// summary is marked truncated exactly when the count exceeds them.
pub open spec fn row_consistent(r: ScanRuleResult) -> bool {
    &&& r.selectable == (r.available && r.bytes > 0 && r.status != ScanItemStatus::Limited && r.status
        != ScanItemStatus::ReviewOnly && r.status != ScanItemStatus::RequiresElevation)
    &&& r.status == ScanItemStatus::Found ==> r.bytes > 0
    &&& r.status == ScanItemStatus::Clean ==> r.bytes == 0
    &&& r.status == ScanItemStatus::NotApplicable ==> !r.available
    &&& r.sources@.len() <= MAX_CLEANUP_SOURCE_DETAILS
    &&& r.source_count >= r.sources@.len()
    &&& r.sources_truncated == (r.source_count > r.sources@.len())
    &&& forall|a: int| 0 <= a < r.sources@.len() ==> (#[trigger] r.sources@[a]).bytes > 0 || r.sources@[a].file_count > 0
}

/// A ready cleaner preview that lists items but no bytes.
pub open spec fn items_without_bytes(p: crate::cleaners::CleanerPreview) -> bool {
    p.status == crate::cleaners::CleanerPreviewStatus::Ready && p.bytes == 0 && p.item_count > 0
}

/// Every row of an assembled scan (measured rules, then cleaner previews)
/// is consistent, except the row of a cleaner preview that lists items but
/// no bytes: that row stays visible and selectable, found with zero bytes.
pub proof fn law_scan_rows_are_consistent(
    measured: Seq<MeasuredRule>,
    previews: Seq<(Seq<char>, CleanupCategory, crate::cleaners::CleanerPreview)>,
    rows: Seq<ScanRuleResult>,
)
    requires
        rows.len() == measured.len() + previews.len(),
        forall|i: int| 0 <= i < measured.len() ==> rule_row(measured[i], #[trigger] rows[i]),
        forall|j: int|
            0 <= j < previews.len() ==> crate::cleaners::cleaner_row(
                previews[j].0,
                previews[j].1,
                previews[j].2,
                #[trigger] rows[measured.len() + j],
            ),
    ensures
        forall|i: int| 0 <= i < measured.len() ==> row_consistent(#[trigger] rows[i]),
        forall|j: int|
            0 <= j < previews.len() && !items_without_bytes(previews[j].2) ==> row_consistent(
                #[trigger] rows[measured.len() + j],
            ),
        forall|j: int|
            0 <= j < previews.len() && items_without_bytes(previews[j].2) ==> {
                let r = #[trigger] rows[measured.len() + j];
                r.selectable && r.status == ScanItemStatus::Found && r.bytes == 0
            },
{
    assert forall|i: int| 0 <= i < measured.len() implies row_consistent(#[trigger] rows[i]) by {
        let m = measured[i];
        let r = rows[i];
        crate::scan::law_source_summary_is_bounded_and_ordered(m.sources@, r.sources@, r.source_count, r.sources_truncated);
    }
}

/// The totals a scan publishes follow from its rows and warning counts.
pub open spec fn totals_follow_rows(s: crate::models::CleanupScanResult) -> bool {
    &&& s.warning_count == values_total(s.warning_counts_by_rule@)
    &&& s.reclaimable_bytes == selectable_bytes(s.rules@, false)
    &&& s.safe_bytes == selectable_bytes(s.rules@, true)
    &&& s.filtered_rule_count == not_applicable_count(s.rules@)
    &&& s.applicable_rule_count == s.rules@.len() - not_applicable_count(s.rules@)
}

} // verus!

verus! {

/// The safe bytes of a scan are exactly the reclaimable bytes of its safe
/// rules: a selectable rule of any other risk (recoverable, for one) adds
/// nothing to them, and the safe bytes never exceed the reclaimable ones.
pub proof fn law_safe_bytes_come_from_safe_rules_only(rules: Seq<ScanRuleResult>)
    ensures
        selectable_bytes(rules, true) == selectable_bytes(rules.filter(|r: ScanRuleResult| r.risk == RiskLevel::Safe), false),
        selectable_bytes(rules, true) <= selectable_bytes(rules, false),
    decreases rules.len(),
{
    reveal(Seq::filter);
    let p = |r: ScanRuleResult| r.risk == RiskLevel::Safe;
    lemma_safe_below_all(rules);
    if rules.len() > 0 {
        let d = rules.drop_last();
        let x = rules.last();
        law_safe_bytes_come_from_safe_rules_only(d);
        let fd = d.filter(p);
        assert(rules.filter(p) == if p(x) { fd.push(x) } else { fd });
        if p(x) {
            assert(fd.push(x).drop_last() =~= fd);
            assert(fd.push(x).last() == x);
        }
    }
}

/// Reclaimable bytes count every selectable rule whatever its risk, and
/// nothing of a rule that is not selectable.
pub proof fn law_reclaimable_bytes_come_from_selectable_rules(rules: Seq<ScanRuleResult>)
    ensures
        selectable_bytes(rules, false) == selectable_bytes(rules.filter(|r: ScanRuleResult| r.selectable), false),
        forall|i: int|
            0 <= i < rules.len() && (#[trigger] rules[i]).selectable ==> rules[i].bytes <= selectable_bytes(rules, false),
    decreases rules.len(),
{
    reveal(Seq::filter);
    let p = |r: ScanRuleResult| r.selectable;
    if rules.len() > 0 {
        let d = rules.drop_last();
        let x = rules.last();
        law_reclaimable_bytes_come_from_selectable_rules(d);
        let fd = d.filter(p);
        assert(rules.filter(p) == if p(x) { fd.push(x) } else { fd });
        if p(x) {
            assert(fd.push(x).drop_last() =~= fd);
            assert(fd.push(x).last() == x);
        }
        assert forall|i: int|
            0 <= i < rules.len() && (#[trigger] rules[i]).selectable implies rules[i].bytes <= selectable_bytes(rules, false) by {
            if i < rules.len() - 1 {
                assert(rules[i] == d[i]);
            }
        }
    }
}

} // verus!
