//! Decisions of the specialized cleaners: preview rows, execution order,
//! the project rules' application closure and the fail-closed actions.
use vstd::prelude::*;

use crate::models::{
    category_group, CleanupActionKind, CleanupActionReason, CleanupActionResult, CleanupActionStatus,
    CleanupCategory, CleanupGroup, RiskLevel, ScanItemStatus, ScanRuleResult,
};
use crate::plan::texts;
use crate::text::str_equal;

verus! {

/// The rule IDs of the project-artifact catalog.
pub struct ProjectArtifactCatalog {
    pub rule_ids: Vec<String>,
}

impl ProjectArtifactCatalog {
    pub open spec fn has(self, id: Seq<char>) -> bool {
        texts(self.rule_ids@).contains(id)
    }

    pub fn contains(&self, id: &str) -> (r: bool)
        ensures
            r == self.has(id@),
    {
        let mut i: usize = 0;
        while i < self.rule_ids.len()
            invariant
                i <= self.rule_ids@.len(),
                forall|j: int| 0 <= j < i ==> #[trigger] texts(self.rule_ids@)[j] != id@,
            decreases self.rule_ids.len() - i,
        {
            if str_equal(self.rule_ids[i].as_str(), id) {
                assert(texts(self.rule_ids@)[i as int] == id@);
                return true;
            }
            i = i + 1;
        }
        false
    }
}

/// The fixed application set whose processes guard project worktrees.
pub open spec fn codex_process_names() -> Seq<Seq<char>> {
    seq!["Codex"@, "ChatGPT"@]
}

pub fn codex_application_process_names() -> (names: Vec<String>)
    ensures
        texts(names@) == codex_process_names(),
{
    let mut names: Vec<String> = Vec::new();
    names.push("Codex".to_string());
    names.push("ChatGPT".to_string());
    assert(texts(names@) =~= codex_process_names());
    names
}

/// Only catalog-owned project rule IDs may request closing the fixed
/// application set; any other ID gets nothing.
pub fn project_artifact_close_processes(catalog: &ProjectArtifactCatalog, id: &str) -> (r: Option<Vec<String>>)
    ensures
        r is Some <==> catalog.has(id@),
        r matches Some(names) ==> texts(names@) == codex_process_names(),
{
    if catalog.contains(id) {
        Some(codex_application_process_names())
    } else {
        None
    }
}

/// The IDs that satisfy (`project == true`) or fail the catalog test, in order.
pub open spec fn ids_where(ids: Seq<Seq<char>>, catalog: ProjectArtifactCatalog, project: bool) -> Seq<Seq<char>>
    decreases ids.len(),
{
    if ids.len() == 0 {
        seq![]
    } else {
        let r = ids_where(ids.drop_last(), catalog, project);
        if catalog.has(ids.last()) == project {
            r.push(ids.last())
        } else {
            r
        }
    }
}

fn collect_ids(ids: &Vec<String>, catalog: &ProjectArtifactCatalog, project: bool, out: &mut Vec<String>)
    ensures
        texts(final(out)@) == texts(old(out)@) + ids_where(texts(ids@), *catalog, project),
{
    let ghost start = texts(out@);
    let mut i: usize = 0;
    while i < ids.len()
        invariant
            i <= ids@.len(),
            texts(out@) == start + ids_where(texts(ids@).take(i as int), *catalog, project),
        decreases ids.len() - i,
    {
        assert(texts(ids@).take(i + 1).drop_last() =~= texts(ids@).take(i as int));
        assert(texts(ids@).take(i + 1).last() == ids@[i as int]@);
        if catalog.contains(ids[i].as_str()) == project {
            let ghost before = out@;
            out.push(ids[i].clone());
            assert(texts(out@) =~= texts(before).push(ids@[i as int]@));
        }
        i = i + 1;
    }
    assert(texts(ids@).take(i as int) =~= texts(ids@));
}

/// The execution queue: other cleaners first, then the project rules, each
/// part in request order, so project rules share one discovery pass.
pub fn execution_rule_ids(catalog: &ProjectArtifactCatalog, ids: &Vec<String>) -> (r: Vec<String>)
    ensures
        texts(r@) == ids_where(texts(ids@), *catalog, false) + ids_where(texts(ids@), *catalog, true),
{
    let mut r: Vec<String> = Vec::new();
    assert(texts(r@) =~= Seq::<Seq<char>>::empty());
    collect_ids(ids, catalog, false, &mut r);
    collect_ids(ids, catalog, true, &mut r);
    assert(texts(r@) =~= ids_where(texts(ids@), *catalog, false) + ids_where(texts(ids@), *catalog, true));
    r
}

/// Index of the first project rule in an execution queue (its length if none).
pub fn project_start(catalog: &ProjectArtifactCatalog, queue: &Vec<String>) -> (k: usize)
    ensures
        k <= queue@.len(),
        forall|j: int| 0 <= j < k ==> !catalog.has(#[trigger] queue@[j]@),
        k < queue@.len() ==> catalog.has(queue@[k as int]@),
{
    let mut k: usize = 0;
    while k < queue.len() && !catalog.contains(queue[k].as_str())
        invariant
            k <= queue@.len(),
            forall|j: int| 0 <= j < k ==> !catalog.has(#[trigger] queue@[j]@),
        decreases queue.len() - k,
    {
        k = k + 1;
    }
    k
}

#[derive(Debug, Clone, Copy, PartialEq, Eq, Structural)]
pub enum CleanerPreviewStatus {
    NotApplicable,
    Limited,
    Ready,
}

/// What a cleaner's read-only preview found.
#[derive(Debug, Clone, Copy)]
pub struct CleanerPreview {
    pub status: CleanerPreviewStatus,
    pub bytes: u64,
    pub item_count: u64,
    pub elapsed_ms: u64,
}

/// Availability, selectability and status of a preview: a ready preview
/// with no bytes and no items is clean; one with items but no bytes stays
/// selectable.
pub open spec fn preview_state(preview: CleanerPreview) -> (bool, bool, ScanItemStatus) {
    match preview.status {
        CleanerPreviewStatus::NotApplicable => (false, false, ScanItemStatus::NotApplicable),
        CleanerPreviewStatus::Limited => (true, false, ScanItemStatus::Limited),
        CleanerPreviewStatus::Ready => if preview.bytes == 0 && preview.item_count == 0 {
            (true, false, ScanItemStatus::Clean)
        } else {
            (true, true, ScanItemStatus::Found)
        },
    }
}

/// The scan row of a cleaner preview: recoverable, never preselected.
pub open spec fn cleaner_row(id: Seq<char>, category: CleanupCategory, preview: CleanerPreview, rule: ScanRuleResult) -> bool {
    let (available, selectable, status) = preview_state(preview);
    &&& rule.rule_id@ == id
    &&& rule.category == category
    &&& rule.group == category_group(category)
    &&& rule.risk == RiskLevel::Recoverable
    &&& !rule.default_selected
    &&& !rule.recommended_selected
    &&& rule.bytes == preview.bytes
    &&& rule.file_count == preview.item_count
    &&& rule.available == available
    &&& rule.selectable == selectable
    &&& rule.status == status
    &&& rule.running_processes@.len() == 0
    &&& !rule.requires_app_close
    &&& rule.sources@.len() == 0
    &&& rule.source_count == 0
    &&& !rule.sources_truncated
    &&& rule.scan_elapsed_ms == preview.elapsed_ms
}

pub fn cleaner_scan_rule(id: &str, category: CleanupCategory, preview: CleanerPreview) -> (rule: ScanRuleResult)
    ensures
        cleaner_row(id@, category, preview, rule),
{
    let (available, selectable, status) = match preview.status {
        CleanerPreviewStatus::NotApplicable => (false, false, ScanItemStatus::NotApplicable),
        CleanerPreviewStatus::Limited => (true, false, ScanItemStatus::Limited),
        CleanerPreviewStatus::Ready => if preview.bytes == 0 && preview.item_count == 0 {
            (true, false, ScanItemStatus::Clean)
        } else {
            (true, true, ScanItemStatus::Found)
        },
    };
    ScanRuleResult {
        rule_id: id.to_string(),
        category,
        group: CleanupGroup::from(category),
        risk: RiskLevel::Recoverable,
        default_selected: false,
        recommended_selected: false,
        bytes: preview.bytes,
        file_count: preview.item_count,
        available,
        selectable,
        status,
        running_processes: Vec::new(),
        requires_app_close: false,
        sources: Vec::new(),
        source_count: 0,
        sources_truncated: false,
        scan_elapsed_ms: preview.elapsed_ms,
    }
}

/// A cleaner whose tool is missing: not applicable when the inventory is
/// complete, limited (fail closed) when it is partial.
pub fn missing_tool_preview(inventory_complete: bool, elapsed_ms: u64) -> (p: CleanerPreview)
    ensures
        p.status == (if inventory_complete {
            CleanerPreviewStatus::NotApplicable
        } else {
            CleanerPreviewStatus::Limited
        }),
        p.bytes == 0,
        p.item_count == 0,
        p.elapsed_ms == elapsed_ms,
{
    CleanerPreview {
        status: if inventory_complete {
            CleanerPreviewStatus::NotApplicable
        } else {
            CleanerPreviewStatus::Limited
        },
        bytes: 0,
        item_count: 0,
        elapsed_ms,
    }
}

/// A failed action with no effect: nothing expected, released or affected,
/// one failed item.
pub open spec fn failed_action(
    action: CleanupActionResult,
    id: Seq<char>,
    kind: CleanupActionKind,
    status: CleanupActionStatus,
    reason: CleanupActionReason,
) -> bool {
    &&& action.rule_id@ == id
    &&& action.action_kind == kind
    &&& action.status == status
    &&& action.reason_code == Some(reason)
    &&& action.bytes_expected == 0
    &&& action.released_bytes == 0
    &&& action.affected_item_count == 0
    &&& action.failed_item_count == 1
    &&& action.running_processes@.len() == 0
}

fn no_effect_action(
    rule_id: &str,
    action_kind: CleanupActionKind,
    status: CleanupActionStatus,
    reason: CleanupActionReason,
) -> (a: CleanupActionResult)
    ensures
        failed_action(a, rule_id@, action_kind, status, reason),
{
    CleanupActionResult {
        rule_id: rule_id.to_string(),
        action_kind,
        status,
        reason_code: Some(reason),
        bytes_expected: 0,
        released_bytes: 0,
        affected_item_count: 0,
        failed_item_count: 1,
        running_processes: Vec::new(),
    }
}

/// A rule skipped because the operation was cancelled.
pub fn cancelled_action(rule_id: &str, action_kind: CleanupActionKind) -> (a: CleanupActionResult)
    ensures
        failed_action(a, rule_id@, action_kind, CleanupActionStatus::Blocked, CleanupActionReason::Cancelled),
{
    no_effect_action(rule_id, action_kind, CleanupActionStatus::Blocked, CleanupActionReason::Cancelled)
}

/// A rule that cannot honour a source selection.
pub fn failed_source_selection_action(rule_id: &str, action_kind: CleanupActionKind) -> (a: CleanupActionResult)
    ensures
        failed_action(
            a,
            rule_id@,
            action_kind,
            CleanupActionStatus::Failed,
            CleanupActionReason::PreflightFailed,
        ),
{
    no_effect_action(rule_id, action_kind, CleanupActionStatus::Failed, CleanupActionReason::PreflightFailed)
}

/// A command cleaner whose tool is not installed.
pub fn missing_tool_action(rule_id: &str) -> (a: CleanupActionResult)
    ensures
        failed_action(
            a,
            rule_id@,
            CleanupActionKind::Command,
            CleanupActionStatus::Failed,
            CleanupActionReason::RequiredToolUnavailable,
        ),
{
    no_effect_action(
        rule_id,
        CleanupActionKind::Command,
        CleanupActionStatus::Failed,
        CleanupActionReason::RequiredToolUnavailable,
    )
}

/// A requested rule with no registered cleaner (fail closed).
pub fn unavailable_cleaner_action(rule_id: &str) -> (a: CleanupActionResult)
    ensures
        failed_action(
            a,
            rule_id@,
            CleanupActionKind::Command,
            CleanupActionStatus::Failed,
            CleanupActionReason::CleanerUnavailable,
        ),
{
    no_effect_action(
        rule_id,
        CleanupActionKind::Command,
        CleanupActionStatus::Failed,
        CleanupActionReason::CleanerUnavailable,
    )
}

} // verus!

verus! {

/// Sort key of a rule ID: its last position in the request, or
/// `usize::MAX` when it was not requested.
pub open spec fn request_key(ids: Seq<Seq<char>>, id: Seq<char>) -> int
    decreases ids.len(),
{
    if ids.len() == 0 {
        usize::MAX as int
    } else if ids.last() == id {
        ids.len() - 1
    } else {
        request_key(ids.drop_last(), id)
    }
}

pub open spec fn action_position(s: Seq<CleanupActionResult>, x: CleanupActionResult, ids: Seq<Seq<char>>) -> int
    decreases s.len(),
{
    if s.len() == 0 {
        0
    } else if request_key(ids, x.rule_id@) < request_key(ids, s[0].rule_id@) {
        0
    } else {
        1 + action_position(s.drop_first(), x, ids)
    }
}

/// Actions stably sorted by the request position of their rule.
pub open spec fn in_request_order(s: Seq<CleanupActionResult>, ids: Seq<Seq<char>>) -> Seq<CleanupActionResult>
    decreases s.len(),
{
    if s.len() == 0 {
        s
    } else {
        let r = in_request_order(s.drop_last(), ids);
        r.insert(action_position(r, s.last(), ids), s.last())
    }
}

fn request_key_of(ids: &Vec<String>, id: &str) -> (k: usize)
    ensures
        k == request_key(texts(ids@), id@),
{
    let mut j: usize = ids.len();
    assert(texts(ids@).take(j as int) =~= texts(ids@));
    while j > 0
        invariant
            j <= ids@.len(),
            request_key(texts(ids@), id@) == request_key(texts(ids@).take(j as int), id@),
        decreases j,
    {
        assert(texts(ids@).take(j as int).last() == ids@[j - 1]@);
        assert(texts(ids@).take(j as int).drop_last() =~= texts(ids@).take(j - 1));
        if str_equal(ids[j - 1].as_str(), id) {
            return j - 1;
        }
        j = j - 1;
    }
    usize::MAX
}

proof fn lemma_action_position(s: Seq<CleanupActionResult>, x: CleanupActionResult, ids: Seq<Seq<char>>, j: int)
    requires
        0 <= j <= s.len(),
        forall|m: int| 0 <= m < j ==> request_key(ids, x.rule_id@) >= request_key(ids, (#[trigger] s[m]).rule_id@),
        j == s.len() || request_key(ids, x.rule_id@) < request_key(ids, s[j].rule_id@),
    ensures
        action_position(s, x, ids) == j,
    decreases j,
{
    if j > 0 {
        assert forall|m: int| 0 <= m < j - 1 implies request_key(ids, x.rule_id@) >= request_key(
            ids,
            (#[trigger] s.drop_first()[m]).rule_id@,
        ) by {
            assert(s.drop_first()[m] == s[m + 1]);
        }
        lemma_action_position(s.drop_first(), x, ids, j - 1);
    }
}

/// Orders cleanup actions as their rules were requested (stable; actions of
/// unrequested rules last).
pub fn order_actions_by_request(ids: &Vec<String>, actions: Vec<CleanupActionResult>) -> (r: Vec<CleanupActionResult>)
    ensures
        r@ == in_request_order(actions@, texts(ids@)),
{
    let ghost original = actions@;
    let ghost keys_of = texts(ids@);
    let mut rest = actions;
    let mut out: Vec<CleanupActionResult> = Vec::new();
    let mut out_keys: Vec<usize> = Vec::new();
    let n = rest.len();
    let mut taken: usize = 0;
    while taken < n
        invariant
            taken <= n,
            n == original.len(),
            keys_of == texts(ids@),
            rest@ == original.skip(taken as int),
            out@ == in_request_order(original.take(taken as int), keys_of),
            out_keys@.len() == out@.len(),
            forall|m: int| 0 <= m < out@.len() ==> #[trigger] out_keys@[m] == request_key(keys_of, out@[m].rule_id@),
        decreases n - taken,
    {
        let a = rest.remove(0);
        assert(a == original[taken as int]);
        assert(original.skip(taken + 1) =~= original.skip(taken as int).drop_first());
        let key = request_key_of(ids, a.rule_id.as_str());
        let mut j: usize = 0;
        while j < out_keys.len() && !(key < out_keys[j])
            invariant
                j <= out_keys@.len(),
                out_keys@.len() == out@.len(),
                key == request_key(keys_of, a.rule_id@),
                forall|m: int| 0 <= m < out@.len() ==> #[trigger] out_keys@[m] == request_key(keys_of, out@[m].rule_id@),
                forall|m: int| 0 <= m < j ==> key >= request_key(keys_of, (#[trigger] out@[m]).rule_id@),
            decreases out_keys.len() - j,
        {
            assert(out_keys@[j as int] == request_key(keys_of, out@[j as int].rule_id@));
            j = j + 1;
        }
        let ghost before = out@;
        proof {
            if j < before.len() {
                assert(out_keys@[j as int] == request_key(keys_of, before[j as int].rule_id@));
            }
            lemma_action_position(before, a, keys_of, j as int);
            assert(original.take(taken + 1).drop_last() =~= original.take(taken as int));
            assert(original.take(taken + 1).last() == a);
        }
        let ghost before_keys = out_keys@;
        out.insert(j, a);
        out_keys.insert(j, key);
        assert forall|m: int| 0 <= m < out@.len() implies #[trigger] out_keys@[m] == request_key(
            keys_of,
            out@[m].rule_id@,
        ) by {
            if m < j {
                assert(out@[m] == before[m] && out_keys@[m] == before_keys[m]);
            } else if m > j {
                assert(out@[m] == before[m - 1] && out_keys@[m] == before_keys[m - 1]);
            }
        }
        taken = taken + 1;
    }
    assert(original.take(n as int) =~= original);
    out
}

} // verus!

verus! {

pub open spec fn ascii_lower_byte(b: u8) -> u8 {
    if 65 <= b <= 90 {
        (b + 32) as u8
    } else {
        b
    }
}

/// ASCII case-insensitive equality of byte strings.
pub open spec fn bytes_eq_ignore_case(a: Seq<u8>, b: Seq<u8>) -> bool {
    a.len() == b.len() && forall|i: int| 0 <= i < a.len() ==> ascii_lower_byte(#[trigger] a[i]) == ascii_lower_byte(b[i])
}

pub open spec fn git_dir_name() -> Seq<u8> {
    seq![46u8, 103u8, 105u8, 116u8]
}

/// `-keypair.json`
pub open spec fn keypair_suffix() -> Seq<u8> {
    seq![45u8, 107u8, 101u8, 121u8, 112u8, 97u8, 105u8, 114u8, 46u8, 106u8, 115u8, 111u8, 110u8]
}

/// Entry names that mark authored content inside build output: `.git`, or a
/// name ending in `-keypair.json`, in any ASCII case.
pub open spec fn authored_entry_name(name: Seq<u8>) -> bool {
    bytes_eq_ignore_case(name, git_dir_name()) || (name.len() >= keypair_suffix().len()
        && bytes_eq_ignore_case(name.skip(name.len() - keypair_suffix().len()), keypair_suffix()))
}

fn lower_byte(b: u8) -> (r: u8)
    ensures
        r == ascii_lower_byte(b),
{
    if 65 <= b && b <= 90 {
        b + 32
    } else {
        b
    }
}

/// Whether `name[start..]` equals `pattern` ignoring ASCII case.
fn tail_eq_ignore_case(name: &[u8], start: usize, pattern: &[u8]) -> (r: bool)
    requires
        start <= name@.len(),
    ensures
        r == bytes_eq_ignore_case(name@.skip(start as int), pattern@),
{
    if name.len() - start != pattern.len() {
        return false;
    }
    let ghost tail = name@.skip(start as int);
    let mut i: usize = 0;
    while i < pattern.len()
        invariant
            start <= name@.len(),
            name@.len() - start == pattern@.len(),
            tail == name@.skip(start as int),
            i <= pattern@.len(),
            forall|j: int| 0 <= j < i ==> ascii_lower_byte(#[trigger] tail[j]) == ascii_lower_byte(pattern@[j]),
        decreases pattern.len() - i,
    {
        assert(start + i < name.len());
        assert(tail[i as int] == name@[start + i]);
        if lower_byte(name[start + i]) != lower_byte(pattern[i]) {
            return false;
        }
        i = i + 1;
    }
    true
}

/// Whether an entry name marks repository metadata or a program keypair.
pub fn is_authored_entry_name(name: &[u8]) -> (r: bool)
    ensures
        r == authored_entry_name(name@),
{
    let git: [u8; 4] = [46u8, 103u8, 105u8, 116u8];
    let suffix: [u8; 13] = [45u8, 107u8, 101u8, 121u8, 112u8, 97u8, 105u8, 114u8, 46u8, 106u8, 115u8, 111u8, 110u8];
    assert(git@ =~= git_dir_name());
    assert(suffix@ =~= keypair_suffix());
    assert(name@.skip(0) =~= name@);
    if tail_eq_ignore_case(name, 0, git.as_slice()) {
        return true;
    }
    name.len() >= 13 && tail_eq_ignore_case(name, name.len() - 13, suffix.as_slice())
}

} // verus!

verus! {

proof fn lemma_ids_where_split(ids: Seq<Seq<char>>, catalog: ProjectArtifactCatalog)
    ensures
        ids_where(ids, catalog, false).to_multiset().add(ids_where(ids, catalog, true).to_multiset())
            =~= ids.to_multiset(),
        forall|j: int|
            0 <= j < ids_where(ids, catalog, false).len() ==> !catalog.has(
                #[trigger] ids_where(ids, catalog, false)[j],
            ),
        forall|j: int|
            0 <= j < ids_where(ids, catalog, true).len() ==> catalog.has(
                #[trigger] ids_where(ids, catalog, true)[j],
            ),
    decreases ids.len(),
{
    broadcast use vstd::seq_lib::group_to_multiset_ensures;
    broadcast use vstd::multiset::group_multiset_axioms;

    if ids.len() == 0 {
        assert(ids.to_multiset() =~= vstd::multiset::Multiset::empty());
    } else {
        let p = ids.drop_last();
        lemma_ids_where_split(p, catalog);
        assert(ids =~= p.push(ids.last()));
        let f = ids_where(p, catalog, false);
        let t = ids_where(p, catalog, true);
        if catalog.has(ids.last()) {
            assert(ids_where(ids, catalog, true) == t.push(ids.last()));
            assert forall|j: int| 0 <= j < t.push(ids.last()).len() implies catalog.has(
                #[trigger] t.push(ids.last())[j],
            ) by {
                if j < t.len() {
                    assert(t.push(ids.last())[j] == t[j]);
                }
            }
        } else {
            assert(ids_where(ids, catalog, false) == f.push(ids.last()));
            assert forall|j: int| 0 <= j < f.push(ids.last()).len() implies !catalog.has(
                #[trigger] f.push(ids.last())[j],
            ) by {
                if j < f.len() {
                    assert(f.push(ids.last())[j] == f[j]);
                }
            }
        }
    }
}

/// The execution queue holds exactly the requested IDs (with their
/// repetitions), every non-project rule before every project rule.
pub proof fn law_execution_queue_runs_project_rules_last(catalog: ProjectArtifactCatalog, ids: Seq<Seq<char>>)
    ensures
        ({
            let q = ids_where(ids, catalog, false) + ids_where(ids, catalog, true);
            &&& q.to_multiset() == ids.to_multiset()
            &&& q.len() == ids.len()
            &&& forall|j: int| 0 <= j < ids_where(ids, catalog, false).len() ==> !catalog.has(#[trigger] q[j])
            &&& forall|j: int| ids_where(ids, catalog, false).len() <= j < q.len() ==> catalog.has(#[trigger] q[j])
        }),
{
    broadcast use vstd::seq_lib::group_to_multiset_ensures;

    lemma_ids_where_split(ids, catalog);
    let f = ids_where(ids, catalog, false);
    let t = ids_where(ids, catalog, true);
    let q = f + t;
    vstd::seq_lib::lemma_multiset_commutative(f, t);
    assert(q.len() == q.to_multiset().len());
    assert(ids.len() == ids.to_multiset().len());
    let k = f.len() as int;
    assert forall|j: int| 0 <= j < k implies !catalog.has(#[trigger] q[j]) by {
        assert(q[j] == f[j]);
    }
    assert forall|j: int| k <= j < q.len() implies catalog.has(#[trigger] q[j]) by {
        assert(q[j] == t[j - k]);
    }
}

proof fn lemma_in_request_order(s: Seq<CleanupActionResult>, ids: Seq<Seq<char>>)
    ensures
        in_request_order(s, ids).to_multiset() == s.to_multiset(),
        forall|a: int, b: int|
            0 <= a < b < in_request_order(s, ids).len() ==> request_key(
                ids,
                (#[trigger] in_request_order(s, ids)[a]).rule_id@,
            ) <= request_key(ids, (#[trigger] in_request_order(s, ids)[b]).rule_id@),
    decreases s.len(),
{
    broadcast use vstd::seq_lib::group_to_multiset_ensures;

    if s.len() > 0 {
        let p = s.drop_last();
        lemma_in_request_order(p, ids);
        let r = in_request_order(p, ids);
        let x = s.last();
        let pos = action_position(r, x, ids);
        lemma_action_position_facts(r, x, ids);
        assert(s =~= p.push(x));
        let out = r.insert(pos, x);
        assert forall|a: int, b: int| 0 <= a < b < out.len() implies request_key(
            ids,
            (#[trigger] out[a]).rule_id@,
        ) <= request_key(ids, (#[trigger] out[b]).rule_id@) by {
            if a < pos && b < pos {
                assert(out[a] == r[a] && out[b] == r[b]);
            } else if a < pos && b == pos {
                assert(out[a] == r[a]);
            } else if a < pos && b > pos {
                assert(out[a] == r[a] && out[b] == r[b - 1]);
            } else if a == pos {
                assert(out[b] == r[b - 1]);
                if b - 1 > pos {
                    assert(request_key(ids, r[pos].rule_id@) <= request_key(ids, r[b - 1].rule_id@));
                }
            } else {
                assert(out[a] == r[a - 1] && out[b] == r[b - 1]);
            }
        }
    }
}

proof fn lemma_action_position_facts(r: Seq<CleanupActionResult>, x: CleanupActionResult, ids: Seq<Seq<char>>)
    ensures
        0 <= action_position(r, x, ids) <= r.len(),
        forall|m: int|
            0 <= m < action_position(r, x, ids) ==> request_key(ids, (#[trigger] r[m]).rule_id@) <= request_key(
                ids,
                x.rule_id@,
            ),
        action_position(r, x, ids) < r.len() ==> request_key(ids, x.rule_id@) < request_key(
            ids,
            r[action_position(r, x, ids)].rule_id@,
        ),
    decreases r.len(),
{
    if r.len() > 0 && !(request_key(ids, x.rule_id@) < request_key(ids, r[0].rule_id@)) {
        lemma_action_position_facts(r.drop_first(), x, ids);
        assert forall|m: int| 0 <= m < action_position(r, x, ids) implies request_key(
            ids,
            (#[trigger] r[m]).rule_id@,
        ) <= request_key(ids, x.rule_id@) by {
            if m > 0 {
                assert(r[m] == r.drop_first()[m - 1]);
            }
        }
        if action_position(r, x, ids) < r.len() {
            assert(r[action_position(r, x, ids)] == r.drop_first()[action_position(r.drop_first(), x, ids)]);
        }
    }
}

/// Ordering the actions by request keeps every action and sorts them by the
/// position of their rule in the request.
pub proof fn law_actions_follow_the_request(actions: Seq<CleanupActionResult>, ids: Seq<Seq<char>>)
    ensures
        in_request_order(actions, ids).to_multiset() == actions.to_multiset(),
        forall|a: int, b: int|
            0 <= a < b < in_request_order(actions, ids).len() ==> request_key(
                ids,
                (#[trigger] in_request_order(actions, ids)[a]).rule_id@,
            ) <= request_key(ids, (#[trigger] in_request_order(actions, ids)[b]).rule_id@),
{
    lemma_in_request_order(actions, ids);
}

} // verus!

verus! {

/// How a rule outside the project catalog is executed, as the cleaner
/// registry classifies it.
#[derive(Debug, Clone, Copy, PartialEq, Eq, Structural)]
pub enum CleanerRoute {
    /// A cleaner that takes the rule's source selection itself; a
    /// cancelled rule is reported with `cancel_kind`.
    Scoped { cancel_kind: CleanupActionKind },
    /// A registered cleaner that cannot honour a source selection and
    /// reports actions of `kind`; a cancelled rule is reported with
    /// `cancel_kind`.
    Unscoped { cancel_kind: CleanupActionKind, kind: CleanupActionKind },
    /// No cleaner is registered for the rule.
    Unregistered,
}

/// The action kind a cancelled rule is reported with.
pub open spec fn cancel_kind_of(route: CleanerRoute) -> CleanupActionKind {
    match route {
        CleanerRoute::Scoped { cancel_kind } => cancel_kind,
        CleanerRoute::Unscoped { cancel_kind, .. } => cancel_kind,
        CleanerRoute::Unregistered => CleanupActionKind::Command,
    }
}

/// What the executor does at one position of the execution queue.
pub enum ExecutionStep {
    /// Record this action for the rule; no cleaner runs.
    Finished(CleanupActionResult),
    /// Run the rule's cleaner and record what it reports.
    RunCleaner,
    /// Hand the remaining (project) rules to project-artifact cleanup in one
    /// pass.
    RunProjectPhase,
    /// Record these cancelled actions for the remaining project rules.
    CancelProjects(Vec<CleanupActionResult>),
    /// Every rule has its action.
    Done,
}

/// The step at `position` of the execution queue `q`, with the operation
/// `cancelled` or not, a source selection given for the rule or not, and the
/// rule's route in the cleaner registry.
pub open spec fn execution_step_meets(
    q: Seq<Seq<char>>,
    catalog: ProjectArtifactCatalog,
    position: int,
    cancelled: bool,
    source_scoped: bool,
    route: CleanerRoute,
    s: ExecutionStep,
) -> bool {
    if position >= q.len() {
        s is Done
    } else if catalog.has(q[position]) {
        if cancelled {
            &&& s matches ExecutionStep::CancelProjects(v)
            &&& v@.len() == q.len() - position
            &&& forall|i: int|
                0 <= i < v@.len() ==> failed_action(
                    #[trigger] v@[i],
                    q[position + i],
                    CleanupActionKind::Delete,
                    CleanupActionStatus::Blocked,
                    CleanupActionReason::Cancelled,
                )
        } else {
            s is RunProjectPhase
        }
    } else if cancelled {
        s matches ExecutionStep::Finished(a) && failed_action(
            a,
            q[position],
            cancel_kind_of(route),
            CleanupActionStatus::Blocked,
            CleanupActionReason::Cancelled,
        )
    } else {
        match route {
            CleanerRoute::Scoped { .. } => s is RunCleaner,
            CleanerRoute::Unscoped { kind, .. } => if source_scoped {
                s matches ExecutionStep::Finished(a) && failed_action(
                    a,
                    q[position],
                    kind,
                    CleanupActionStatus::Failed,
                    CleanupActionReason::PreflightFailed,
                )
            } else {
                s is RunCleaner
            },
            CleanerRoute::Unregistered => s matches ExecutionStep::Finished(a) && failed_action(
                a,
                q[position],
                CleanupActionKind::Command,
                CleanupActionStatus::Failed,
                if source_scoped {
                    CleanupActionReason::PreflightFailed
                } else {
                    CleanupActionReason::CleanerUnavailable
                },
            ),
        }
    }
}

/// Decides the executor's next step at `position` of the execution queue
/// (see `execution_rule_ids`): cleaners outside the project catalog run one
/// by one, then the project rules in one pass. A cancelled operation blocks
/// every rule still to run; a cleaner that cannot honour a source selection
/// fails its rule; a rule without a registered cleaner fails closed.
pub fn execution_step(
    queue: &Vec<String>,
    catalog: &ProjectArtifactCatalog,
    position: usize,
    cancelled: bool,
    source_scoped: bool,
    route: CleanerRoute,
) -> (s: ExecutionStep)
    requires
        position <= queue@.len(),
        forall|j: int| 0 <= j < position ==> !catalog.has(#[trigger] queue@[j]@),
    ensures
        execution_step_meets(texts(queue@), *catalog, position as int, cancelled, source_scoped, route, s),
{
    if position >= queue.len() {
        return ExecutionStep::Done;
    }
    let id = queue[position].as_str();
    if catalog.contains(id) {
        if !cancelled {
            return ExecutionStep::RunProjectPhase;
        }
        let mut actions: Vec<CleanupActionResult> = Vec::new();
        let mut k: usize = position;
        while k < queue.len()
            invariant
                position <= k <= queue@.len(),
                actions@.len() == k - position,
                forall|i: int|
                    0 <= i < actions@.len() ==> failed_action(
                        #[trigger] actions@[i],
                        queue@[position + i]@,
                        CleanupActionKind::Delete,
                        CleanupActionStatus::Blocked,
                        CleanupActionReason::Cancelled,
                    ),
            decreases queue.len() - k,
        {
            actions.push(cancelled_action(queue[k].as_str(), CleanupActionKind::Delete));
            k = k + 1;
        }
        return ExecutionStep::CancelProjects(actions);
    }
    if cancelled {
        let kind = match route {
            CleanerRoute::Scoped { cancel_kind } => cancel_kind,
            CleanerRoute::Unscoped { cancel_kind, .. } => cancel_kind,
            CleanerRoute::Unregistered => CleanupActionKind::Command,
        };
        return ExecutionStep::Finished(cancelled_action(id, kind));
    }
    match route {
        CleanerRoute::Scoped { .. } => ExecutionStep::RunCleaner,
        CleanerRoute::Unscoped { kind, .. } => if source_scoped {
            ExecutionStep::Finished(failed_source_selection_action(id, kind))
        } else {
            ExecutionStep::RunCleaner
        },
        CleanerRoute::Unregistered => if source_scoped {
            ExecutionStep::Finished(failed_source_selection_action(id, CleanupActionKind::Command))
        } else {
            ExecutionStep::Finished(unavailable_cleaner_action(id))
        },
    }
}

/// Once the operation is cancelled no cleaner runs any more: every rule
/// still in the queue gets an action that is blocked with the reason
/// `Cancelled` (the project rules all at once), and the executor is done
/// only at the end of the queue.
pub proof fn law_cancellation_blocks_every_remaining_rule(
    q: Seq<Seq<char>>,
    catalog: ProjectArtifactCatalog,
    position: int,
    source_scoped: bool,
    route: CleanerRoute,
    s: ExecutionStep,
)
    requires
        0 <= position <= q.len(),
        execution_step_meets(q, catalog, position, true, source_scoped, route, s),
    ensures
        s is Done <==> position == q.len(),
        !(s is RunCleaner) && !(s is RunProjectPhase),
        s matches ExecutionStep::Finished(a) ==> a.status == CleanupActionStatus::Blocked && a.reason_code == Some(
            CleanupActionReason::Cancelled,
        ),
        s matches ExecutionStep::CancelProjects(v) ==> v@.len() == q.len() - position && forall|i: int|
            0 <= i < v@.len() ==> (#[trigger] v@[i]).status == CleanupActionStatus::Blocked && v@[i].reason_code
                == Some(CleanupActionReason::Cancelled),
{
    if let ExecutionStep::CancelProjects(v) = s {
        assert forall|i: int| 0 <= i < v@.len() implies (#[trigger] v@[i]).status == CleanupActionStatus::Blocked
            && v@[i].reason_code == Some(CleanupActionReason::Cancelled) by {
            assert(failed_action(
                v@[i],
                q[position + i],
                CleanupActionKind::Delete,
                CleanupActionStatus::Blocked,
                CleanupActionReason::Cancelled,
            ));
        }
    }
}

/// The rows of a full cleaner preview: every other cleaner's rows in
/// registry order, then the project-artifact rows last, whatever order they
/// were measured in.
pub fn assemble_preview(cleaner_rows: Vec<ScanRuleResult>, project_rows: Vec<ScanRuleResult>) -> (rows: Vec<
    ScanRuleResult,
>)
    ensures
        rows@ == cleaner_rows@ + project_rows@,
{
    let mut rows = cleaner_rows;
    let mut extra = project_rows;
    rows.append(&mut extra);
    rows
}

} // verus!

verus! {

/// Position before the first entry whose ID sorts after `id`.
pub open spec fn id_position(s: Seq<(Seq<char>, Seq<char>)>, id: Seq<char>) -> int
    decreases s.len(),
{
    if s.len() == 0 {
        0
    } else if crate::text::lex_lt(id, s[0].0) {
        0
    } else {
        1 + id_position(s.drop_first(), id)
    }
}

/// (ID, revision) pairs in ID order; pairs with equal IDs keep their order.
pub open spec fn by_id(s: Seq<(Seq<char>, Seq<char>)>) -> Seq<(Seq<char>, Seq<char>)>
    decreases s.len(),
{
    if s.len() == 0 {
        s
    } else {
        let r = by_id(s.drop_last());
        r.insert(id_position(r, s.last().0), s.last())
    }
}

/// The UTF-8 bytes of each pair's ID followed by its revision, in order.
pub open spec fn pair_bytes(s: Seq<(Seq<char>, Seq<char>)>) -> Seq<u8>
    decreases s.len(),
{
    if s.len() == 0 {
        seq![]
    } else {
        pair_bytes(s.drop_last()) + vstd::utf8::encode_utf8(s.last().0) + vstd::utf8::encode_utf8(s.last().1)
    }
}

/// The UTF-8 bytes of each text, in order.
pub open spec fn text_bytes(s: Seq<Seq<char>>) -> Seq<u8>
    decreases s.len(),
{
    if s.len() == 0 {
        seq![]
    } else {
        text_bytes(s.drop_last()) + vstd::utf8::encode_utf8(s.last())
    }
}

pub open spec fn pair_views(v: Seq<(String, String)>) -> Seq<(Seq<char>, Seq<char>)> {
    v.map_values(|p: (String, String)| (p.0@, p.1@))
}

/// What a cleaner catalog digest covers: the registered cleaners' IDs and
/// revisions in ID order, then the further parts (the IDs, revisions and
/// digests of the specialized cleaners) in the order given.
pub open spec fn catalog_digest_input(registered: Seq<(Seq<char>, Seq<char>)>, parts: Seq<Seq<char>>) -> Seq<u8> {
    pair_bytes(by_id(registered)) + text_bytes(parts)
}

proof fn lemma_id_position(s: Seq<(Seq<char>, Seq<char>)>, id: Seq<char>, j: int)
    requires
        0 <= j <= s.len(),
        forall|m: int| 0 <= m < j ==> !crate::text::lex_lt(id, (#[trigger] s[m]).0),
        j == s.len() || crate::text::lex_lt(id, s[j].0),
    ensures
        id_position(s, id) == j,
    decreases j,
{
    if j > 0 {
        assert forall|m: int| 0 <= m < j - 1 implies !crate::text::lex_lt(id, (#[trigger] s.drop_first()[m]).0) by {
            assert(s.drop_first()[m] == s[m + 1]);
        }
        lemma_id_position(s.drop_first(), id, j - 1);
    }
}

/// A stable digest of the cleaner catalog: the lower-case hexadecimal
/// BLAKE3 digest of `catalog_digest_input`, so that any change of a
/// cleaner's ID or revision gives another workload digest.
pub fn catalog_digest(registered: &Vec<(String, String)>, parts: &Vec<String>) -> (d: String)
    ensures
        d@ == crate::plan::hex_lower(crate::plan::blake3_digest(catalog_digest_input(pair_views(registered@), texts(parts@)))),
        crate::plan::is_plan_hash_text(d@),
{
    let ghost all = pair_views(registered@);
    let mut sorted: Vec<(String, String)> = Vec::new();
    let mut t: usize = 0;
    assert(all.take(0) =~= Seq::<(Seq<char>, Seq<char>)>::empty());
    while t < registered.len()
        invariant
            t <= registered@.len(),
            all == pair_views(registered@),
            pair_views(sorted@) == by_id(all.take(t as int)),
        decreases registered.len() - t,
    {
        let x = &registered[t];
        let xc = crate::text::chars_of(x.0.as_str());
        let mut j: usize = 0;
        while j < sorted.len() && !crate::text::chars_less(&xc, &crate::text::chars_of(sorted[j].0.as_str()))
            invariant
                j <= sorted@.len(),
                xc@ == x.0@,
                forall|m: int| 0 <= m < j ==> !crate::text::lex_lt(x.0@, (#[trigger] pair_views(sorted@)[m]).0),
            decreases sorted.len() - j,
        {
            assert(pair_views(sorted@)[j as int] == (sorted@[j as int].0@, sorted@[j as int].1@));
            j = j + 1;
        }
        let ghost before = pair_views(sorted@);
        proof {
            if j < sorted@.len() {
                assert(before[j as int] == (sorted@[j as int].0@, sorted@[j as int].1@));
            }
            lemma_id_position(before, x.0@, j as int);
            assert(all.take(t + 1).drop_last() =~= all.take(t as int));
            assert(all.take(t + 1).last() == (x.0@, x.1@));
        }
        sorted.insert(j, (x.0.clone(), x.1.clone()));
        assert(pair_views(sorted@) =~= before.insert(j as int, (x.0@, x.1@)));
        t = t + 1;
    }
    assert(all.take(t as int) =~= all);
    let ghost ordered = pair_views(sorted@);
    let mut data: Vec<u8> = Vec::new();
    let mut k: usize = 0;
    while k < sorted.len()
        invariant
            k <= sorted@.len(),
            ordered == pair_views(sorted@),
            data@ == pair_bytes(ordered.take(k as int)),
        decreases sorted.len() - k,
    {
        let id = sorted[k].0.as_str().as_bytes();
        let revision = sorted[k].1.as_str().as_bytes();
        assert(id@ == vstd::utf8::encode_utf8(sorted@[k as int].0@));
        assert(revision@ == vstd::utf8::encode_utf8(sorted@[k as int].1@));
        data.extend_from_slice(id);
        data.extend_from_slice(revision);
        assert(ordered.take(k + 1).drop_last() =~= ordered.take(k as int));
        assert(ordered.take(k + 1).last() == (sorted@[k as int].0@, sorted@[k as int].1@));
        assert(data@ =~= pair_bytes(ordered.take(k + 1)));
        k = k + 1;
    }
    assert(ordered.take(k as int) =~= ordered);
    let ghost prefix = data@;
    let ghost tail = texts(parts@);
    let mut p: usize = 0;
    while p < parts.len()
        invariant
            p <= parts@.len(),
            tail == texts(parts@),
            data@ == prefix + text_bytes(tail.take(p as int)),
        decreases parts.len() - p,
    {
        let bytes = parts[p].as_str().as_bytes();
        assert(bytes@ == vstd::utf8::encode_utf8(parts@[p as int]@));
        data.extend_from_slice(bytes);
        assert(tail.take(p + 1).drop_last() =~= tail.take(p as int));
        assert(tail.take(p + 1).last() == parts@[p as int]@);
        assert(data@ =~= prefix + text_bytes(tail.take(p + 1)));
        p = p + 1;
    }
    assert(tail.take(p as int) =~= tail);
    let digest = crate::plan::blake3_hash_bytes(data.as_slice());
    let d = crate::plan::hex_string(&digest);
    proof {
        crate::plan::lemma_hex_len(digest@);
        crate::plan::lemma_hex_digits(digest@);
    }
    d
}

} // verus!
