//! macOS launchd startup items: reading property-list contents into startup
//! artifacts, the `launchctl print-disabled` overrides, coverage and the
//! checks that guard configured-state changes and removal.
use vstd::prelude::*;

use crate::paths::{
    app_extension, file_name, file_name_chars, has_app_extension, last_dot, path_components, rows,
    split_path, is_normal_component,
};
use crate::platform::{PlatformError, PlatformErrorCode};
use crate::process_control::text_lines;
use crate::text::{
    chars_are, chars_of, has_key, keys_ascending, push_decimal, push_str, set_entry, slice_chars,
    string_from_chars, trim, trim_chars, trim_end_char, trim_end_char_chars, trim_start_char,
    trim_start_char_chars, decimal,
};

verus! {

#[derive(Debug, Clone, Copy, PartialEq, Eq, Structural)]
pub enum PlatformStartupSourceKind {
    LaunchAgent,
    LaunchDaemon,
}

#[derive(Debug, Clone, Copy, PartialEq, Eq, Structural)]
pub enum PlatformStartupScope {
    CurrentUser,
    Machine,
    System,
}

#[derive(Debug, Clone, Copy, PartialEq, Eq, Structural)]
pub enum PlatformStartupControlCapability {
    Toggleable,
    ElevationRequired,
    ViewOnly,
}

/// What starts an item, in presentation order.
#[derive(Debug, Clone, Copy, PartialEq, Eq, Structural)]
pub enum PlatformStartupTrigger {
    Boot,
    UserLogon,
    KeepAlive,
    Scheduled,
    Event,
    Unknown,
}

#[derive(Debug, Clone, Copy, PartialEq, Eq, Structural)]
pub enum PlatformStartupConfiguredState {
    Enabled,
    Disabled,
    Unknown,
    NotApplicable,
}

#[derive(Debug, Clone, Copy, PartialEq, Eq, Structural)]
pub enum PlatformStartupDesiredState {
    Enabled,
    Disabled,
    Removed,
}

#[derive(Debug, Clone, Copy, PartialEq, Eq, Structural)]
pub enum PlatformStartupRuntimeState {
    Unknown,
}

#[derive(Debug, Clone, Copy, PartialEq, Eq, Structural)]
pub enum PlatformStartupTrustState {
    System,
    Trusted,
    Untrusted,
    Unknown,
}

#[derive(Debug, Clone, Copy, PartialEq, Eq, Structural)]
pub enum PlatformStartupTargetKind {
    Application,
    Script,
    Executable,
    Unknown,
}

#[derive(Debug, Clone, Copy, PartialEq, Eq, Structural)]
pub enum PlatformStartupDiagnosticCode {
    MissingIdentity,
    MissingTarget,
    StateUnavailable,
}

#[derive(Debug, Clone, Copy, PartialEq, Eq, Structural)]
pub enum PlatformStartupIdentityConfidence {
    Exact,
    Strong,
    Unresolved,
}

#[derive(Debug, Clone, Copy, PartialEq, Eq, Structural)]
pub enum PlatformStartupSummarySource {
    Unavailable,
    BundleMetadata,
}

#[derive(Debug, Clone, Copy, PartialEq, Eq, Structural)]
pub enum PlatformStartupCoverageStatus {
    Complete,
    Partial,
    Cancelled,
}

#[derive(Debug, Clone, Copy, PartialEq, Eq, Structural)]
pub enum PlatformStartupCoverageReason {
    AccessDenied,
    InvalidData,
    StateUnavailable,
    Cancelled,
}

/// A problem met while reading one launchd source.
#[derive(Debug, Clone, Copy, PartialEq, Eq, Structural)]
pub enum ScanIssue {
    AccessDenied,
    InvalidData,
    StateUnavailable,
}

#[derive(Debug, Clone, Copy, PartialEq, Eq, Structural)]
pub enum LaunchdDomain {
    Gui,
    System,
}

#[derive(Debug, Clone, Copy, PartialEq, Eq, Structural)]
pub enum TargetPresence {
    Present,
    Missing,
    Unknown,
}

/// One directory family of launchd property lists.
pub struct LaunchdSource {
    pub source_id: &'static str,
    pub paths: Vec<String>,
    pub source_kind: PlatformStartupSourceKind,
    pub scope: PlatformStartupScope,
    pub capability: PlatformStartupControlCapability,
    pub domain: LaunchdDomain,
    pub system_owned: bool,
}

/// `AssociatedBundleIdentifiers` as the property list holds it.
pub enum AssociatedIdentifiers {
    Absent,
    /// A single string.
    Text(String),
    /// An array; only its string elements are kept.
    List(Vec<String>),
    /// Any other value.
    Other,
}

/// The launchd keys of one property-list dictionary, as plain values. A
/// string field is `Some` when the key holds a string; `program_arguments`
/// holds the string elements of the array (empty when absent); `keys` lists
/// every key present.
pub struct LaunchdJob {
    pub label: Option<String>,
    pub program: Option<String>,
    pub program_arguments: Vec<String>,
    pub disabled: Option<bool>,
    pub run_at_load: Option<bool>,
    pub associated_bundle_identifiers: AssociatedIdentifiers,
    pub keys: Vec<String>,
}

/// Index of the first `=>` in `s`, or -1.
pub open spec fn first_arrow(s: Seq<char>) -> int
    decreases s.len(),
{
    if s.len() < 2 {
        -1
    } else if first_arrow(s.drop_last()) >= 0 {
        first_arrow(s.drop_last())
    } else if s[s.len() - 2] == '=' && s[s.len() - 1] == '>' {
        s.len() - 2
    } else {
        -1
    }
}

/// Without trailing `;` and `,` characters.
pub open spec fn trim_end_punctuation(s: Seq<char>) -> Seq<char>
    decreases s.len(),
{
    if s.len() > 0 && (s.last() == ';' || s.last() == ',') {
        trim_end_punctuation(s.drop_last())
    } else {
        s
    }
}

/// What one `print-disabled` line states: a label and whether it is
/// disabled. Current launchctl prints `disabled`/`enabled`, older releases
/// `true`/`false`; both are read.
pub open spec fn line_override(line: Seq<char>) -> Option<(Seq<char>, bool)> {
    let i = first_arrow(line);
    if i < 0 {
        None
    } else {
        let label = trim_end_char(trim_start_char(trim(line.take(i)), '"'), '"');
        let value = trim(trim_end_punctuation(trim(line.skip(i + 2))));
        if label.len() == 0 {
            None
        } else if value == "true"@ || value == "disabled"@ {
            Some((label, true))
        } else if value == "false"@ || value == "enabled"@ {
            Some((label, false))
        } else {
            None
        }
    }
}

/// The override of `label`: the last line that states it.
pub open spec fn override_of(lines: Seq<Seq<char>>, label: Seq<char>) -> Option<bool>
    decreases lines.len(),
{
    if lines.len() == 0 {
        None
    } else {
        match line_override(lines.last()) {
            Some((l, v)) if l == label => Some(v),
            _ => override_of(lines.drop_last(), label),
        }
    }
}

/// The overrides read so far are exactly those the lines state.
pub open spec fn overrides_read(entries: Seq<(String, bool)>, lines: Seq<Seq<char>>) -> bool {
    &&& keys_ascending(entries)
    &&& forall|i: int| 0 <= i < entries.len() ==> override_of(lines, (#[trigger] entries[i]).0@) == Some(entries[i].1)
    &&& forall|label: Seq<char>| #[trigger] override_of(lines, label) is Some ==> has_key(entries, label)
}

fn trim_end_punctuation_chars(v: &Vec<char>) -> (r: Vec<char>)
    ensures
        r@ == trim_end_punctuation(v@),
{
    let mut j: usize = v.len();
    assert(v@.take(j as int) =~= v@);
    while j > 0 && (v[j - 1] == ';' || v[j - 1] == ',')
        invariant
            j <= v@.len(),
            trim_end_punctuation(v@) == trim_end_punctuation(v@.take(j as int)),
        decreases j,
    {
        assert(v@.take(j as int).drop_last() =~= v@.take(j - 1));
        j = j - 1;
    }
    proof {
        if j > 0 {
            assert(v@.take(j as int).last() == v@[j - 1]);
        }
    }
    assert(v@.subrange(0, j as int) =~= v@.take(j as int));
    slice_chars(v, 0, j)
}

fn find_arrow(s: &Vec<char>) -> (r: Option<usize>)
    ensures
        match r {
            Some(i) => first_arrow(s@) == i as int && i + 2 <= s@.len(),
            None => first_arrow(s@) == -1,
        },
{
    let mut k: usize = 0;
    while s.len() >= 2 && k < s.len() - 1
        invariant
            k + 1 <= s@.len() || s@.len() < 2,
            k <= s@.len(),
            first_arrow(s@.take(k + 1)) == -1 || s@.len() < 2,
        decreases s.len() - k,
    {
        assert(s@.take(k + 2).drop_last() =~= s@.take(k + 1));
        if s[k] == '=' && s[k + 1] == '>' {
            assert(s@.take(k + 2)[k as int] == '=' && s@.take(k + 2)[k + 1] == '>');
            assert(first_arrow(s@.take(k + 2)) == k);
            proof {
                lemma_first_arrow_prefix(s@, k + 2);
            }
            return Some(k);
        }
        k = k + 1;
    }
    proof {
        if s@.len() >= 2 {
            assert(s@.take(k + 1) =~= s@);
        }
    }
    None
}

proof fn lemma_first_arrow_prefix(s: Seq<char>, j: int)
    requires
        0 <= j <= s.len(),
        first_arrow(s.take(j)) >= 0,
    ensures
        first_arrow(s) == first_arrow(s.take(j)),
    decreases s.len() - j,
{
    if j < s.len() {
        assert(s.take(j + 1).drop_last() =~= s.take(j));
        lemma_first_arrow_prefix(s, j + 1);
    } else {
        assert(s.take(j) =~= s);
    }
}

/// What a line states (see `line_override`).
fn read_override_line(line: &Vec<char>) -> (r: Option<(Vec<char>, bool)>)
    ensures
        match r {
            Some((label, v)) => line_override(line@) == Some((label@, v)),
            None => line_override(line@) is None,
        },
{
    let found = find_arrow(line);
    if found.is_none() {
        return None;
    }
    let i = found.unwrap();
    assert(i + 2 <= line.len());
    let head = slice_chars(line, 0, i);
    assert(line@.subrange(0, i as int) =~= line@.take(i as int));
    let t = trim_chars(&head);
    let unquoted = trim_start_char_chars(&t, '"');
    let label = trim_end_char_chars(&unquoted, '"');
    let tail = slice_chars(line, i + 2, line.len());
    assert(line@.subrange(i + 2, line@.len() as int) =~= line@.skip(i + 2));
    let t2 = trim_chars(&tail);
    let t3 = trim_end_punctuation_chars(&t2);
    let value = trim_chars(&t3);
    if label.len() == 0 {
        return None;
    }
    if chars_are(&value, "true") || chars_are(&value, "disabled") {
        Some((label, true))
    } else if chars_are(&value, "false") || chars_are(&value, "enabled") {
        Some((label, false))
    } else {
        None
    }
}

fn apply_override_line(entries: &mut Vec<(String, bool)>, line: &Vec<char>, Ghost(done): Ghost<Seq<Seq<char>>>)
    requires
        overrides_read(old(entries)@, done),
    ensures
        overrides_read(final(entries)@, done.push(line@)),
{
    let ghost lines = done.push(line@);
    assert(lines.drop_last() =~= done);
    assert(lines.last() == line@);
    match read_override_line(line) {
        Some((label, v)) => {
            let text = string_from_chars(&label);
            let ghost before = entries@;
            set_entry(entries, text.as_str(), v);
            assert forall|i: int| 0 <= i < entries@.len() implies override_of(
                lines,
                (#[trigger] entries@[i]).0@,
            ) == Some(entries@[i].1) by {
                if entries@[i].0@ != label@ {
                    let j = choose|j: int| 0 <= j < before.len() && #[trigger] before[j] == entries@[i];
                    assert(override_of(done, before[j].0@) == Some(before[j].1));
                }
            }
            assert forall|l: Seq<char>| #[trigger] override_of(lines, l) is Some implies has_key(
                entries@,
                l,
            ) by {
                if l != label@ {
                    assert(override_of(done, l) is Some);
                    assert(has_key(before, l));
                }
                assert(has_key(entries@, l));
            }
        },
        None => {
            assert forall|i: int| 0 <= i < entries@.len() implies override_of(
                lines,
                (#[trigger] entries@[i]).0@,
            ) == Some(entries@[i].1) by {
                assert(override_of(done, entries@[i].0@) == Some(entries@[i].1));
            }
            assert forall|l: Seq<char>| #[trigger] override_of(lines, l) is Some implies has_key(
                entries@,
                l,
            ) by {
                assert(override_of(done, l) is Some);
            }
        },
    }
}

/// The labels `launchctl print-disabled` reports, each with whether it is
/// disabled, ordered by label; a later line for the same label wins.
pub fn parse_disabled_overrides(text: &str) -> (r: Vec<(String, bool)>)
    ensures
        overrides_read(r@, text_lines(text@)),
{
    let all = chars_of(text);
    let mut out: Vec<(String, bool)> = Vec::new();
    let mut cur: Vec<char> = Vec::new();
    let ghost mut done: Seq<Seq<char>> = seq![];
    let mut i: usize = 0;
    assert(all@.take(0) =~= Seq::<char>::empty());
    while i < all.len()
        invariant
            i <= all@.len(),
            crate::paths::split_on(all@.take(i as int), '\n').len() >= 1,
            done == crate::paths::split_on(all@.take(i as int), '\n').drop_last().map_values(
                |l: Seq<char>| crate::process_control::without_cr(l),
            ),
            cur@ == crate::paths::split_on(all@.take(i as int), '\n').last(),
            overrides_read(out@, done),
        decreases all.len() - i,
    {
        let ghost before = crate::paths::split_on(all@.take(i as int), '\n');
        let c = all[i];
        assert(all@.take(i + 1).drop_last() =~= all@.take(i as int));
        assert(all@.take(i + 1).last() == c);
        if c == '\n' {
            let mut line = cur;
            if line.len() > 0 && line[line.len() - 1] == '\r' {
                line.pop();
            }
            assert(line@ == crate::process_control::without_cr(before.last()));
            apply_override_line(&mut out, &line, Ghost(done));
            proof {
                done = done.push(line@);
                assert(before.push(seq![]).drop_last() =~= before);
                assert(done =~= before.map_values(|l: Seq<char>| crate::process_control::without_cr(l)));
                assert(before =~= before.drop_last().push(before.last()));
            }
            cur = Vec::new();
        } else {
            let ghost after = before.update(before.len() - 1, before.last().push(c));
            assert(after.drop_last() =~= before.drop_last());
            cur.push(c);
        }
        i = i + 1;
    }
    assert(all@.take(i as int) =~= all@);
    let ghost segs = crate::paths::split_on(all@, '\n');
    assert(segs.take(segs.len() - 1) =~= segs.drop_last());
    if cur.len() > 0 {
        apply_override_line(&mut out, &cur, Ghost(done));
        assert(text_lines(text@) =~= done.push(cur@));
    } else {
        assert(text_lines(text@) =~= done);
    }
    out
}

} // verus!

verus! {

/// A string value that is not blank (`string_value`).
pub open spec fn meaningful(v: Option<String>) -> Option<Seq<char>> {
    match v {
        Some(s) => if trim(s@).len() > 0 {
            Some(s@)
        } else {
            None
        },
        None => None,
    }
}

pub fn meaningful_text(v: &Option<String>) -> (r: Option<String>)
    ensures
        match r {
            Some(s) => meaningful(*v) == Some(s@),
            None => meaningful(*v) is None,
        },
{
    match v {
        Some(s) => {
            let c = chars_of(s.as_str());
            let t = trim_chars(&c);
            if t.len() > 0 {
                Some(s.clone())
            } else {
                None
            }
        },
        None => None,
    }
}

/// The job names something launchd can run: a label, a program or
/// program arguments.
pub open spec fn launchd_identity(job: LaunchdJob) -> bool {
    meaningful(job.label) is Some || meaningful(job.program) is Some || job.program_arguments@.len() > 0
}

pub fn has_launchd_identity(job: &LaunchdJob) -> (r: bool)
    ensures
        r == launchd_identity(*job),
{
    meaningful_text(&job.label).is_some() || meaningful_text(&job.program).is_some()
        || job.program_arguments.len() > 0
}

/// The trimmed text, unless it is empty.
pub open spec fn non_empty_text(s: Seq<char>) -> Option<Seq<char>> {
    if trim(s).len() > 0 {
        Some(trim(s))
    } else {
        None
    }
}

pub fn non_empty_string(value: &str) -> (r: Option<String>)
    ensures
        match r {
            Some(s) => non_empty_text(value@) == Some(s@),
            None => non_empty_text(value@) is None,
        },
{
    let c = chars_of(value);
    let t = trim_chars(&c);
    if t.len() > 0 {
        Some(string_from_chars(&t))
    } else {
        None
    }
}

pub open spec fn non_empty_texts(s: Seq<String>) -> Seq<Seq<char>>
    decreases s.len(),
{
    if s.len() == 0 {
        seq![]
    } else {
        let r = non_empty_texts(s.drop_last());
        match non_empty_text(s.last()@) {
            Some(t) => r.push(t),
            None => r,
        }
    }
}

/// The one application a job declares itself part of: a single non-blank
/// identifier, or the only non-blank string of an array.
pub open spec fn associated_identifier(a: AssociatedIdentifiers) -> Option<Seq<char>> {
    match a {
        AssociatedIdentifiers::Text(s) => non_empty_text(s@),
        AssociatedIdentifiers::List(v) => if non_empty_texts(v@).len() == 1 {
            Some(non_empty_texts(v@)[0])
        } else {
            None
        },
        _ => None,
    }
}

pub fn associated_bundle_identifier(job: &LaunchdJob) -> (r: Option<String>)
    ensures
        match r {
            Some(s) => associated_identifier(job.associated_bundle_identifiers) == Some(s@),
            None => associated_identifier(job.associated_bundle_identifiers) is None,
        },
{
    match &job.associated_bundle_identifiers {
        AssociatedIdentifiers::Text(s) => non_empty_string(s.as_str()),
        AssociatedIdentifiers::List(v) => {
            let mut found: Vec<String> = Vec::new();
            let mut i: usize = 0;
            while i < v.len()
                invariant
                    i <= v@.len(),
                    found@.map_values(|s: String| s@) == non_empty_texts(v@.take(i as int)),
                decreases v.len() - i,
            {
                assert(v@.take(i + 1).drop_last() =~= v@.take(i as int));
                assert(v@.take(i + 1).last() == v@[i as int]);
                match non_empty_string(v[i].as_str()) {
                    Some(s) => {
                        let ghost before = found@;
                        found.push(s);
                        assert(found@.map_values(|s: String| s@) =~= before.map_values(|s: String| s@).push(
                            s@,
                        ));
                    },
                    None => {},
                }
                i = i + 1;
            }
            assert(v@.take(i as int) =~= v@);
            if found.len() == 1 {
                let only = found.pop();
                assert(found@.len() == 0);
                only
            } else {
                None
            }
        },
        _ => None,
    }
}

/// The configured state: an override for the label decides; else the
/// job's own `Disabled` key; else enabled when the overrides were read and
/// unknown when they were not.
pub open spec fn configured_state_of(
    disabled: Option<bool>,
    label: Option<Seq<char>>,
    overrides: Option<Seq<(String, bool)>>,
) -> PlatformStartupConfiguredState {
    if label is Some && overrides is Some && crate::text::value_of(overrides->0, label->0) is Some {
        if crate::text::value_of(overrides->0, label->0)->0 {
            PlatformStartupConfiguredState::Disabled
        } else {
            PlatformStartupConfiguredState::Enabled
        }
    } else {
        match disabled {
            Some(true) => PlatformStartupConfiguredState::Disabled,
            Some(false) => PlatformStartupConfiguredState::Enabled,
            None => if overrides is Some {
                PlatformStartupConfiguredState::Enabled
            } else {
                PlatformStartupConfiguredState::Unknown
            },
        }
    }
}

fn override_value(entries: &Vec<(String, bool)>, label: &str) -> (r: Option<bool>)
    ensures
        r == crate::text::value_of(entries@, label@),
{
    let mut i: usize = 0;
    assert(entries@.skip(0) =~= entries@);
    while i < entries.len()
        invariant
            i <= entries@.len(),
            crate::text::value_of(entries@, label@) == crate::text::value_of(entries@.skip(i as int), label@),
        decreases entries.len() - i,
    {
        let ghost rest = entries@.skip(i as int);
        assert(rest[0] == entries@[i as int]);
        if crate::text::str_equal(entries[i].0.as_str(), label) {
            return Some(entries[i].1);
        }
        assert(rest.drop_first() =~= entries@.skip(i + 1));
        i = i + 1;
    }
    assert(entries@.skip(i as int) =~= Seq::<(String, bool)>::empty());
    None
}

pub fn configured_state(
    disabled: Option<bool>,
    label: Option<&str>,
    overrides: Option<&Vec<(String, bool)>>,
) -> (r: PlatformStartupConfiguredState)
    ensures
        r == configured_state_of(
            disabled,
            match label {
                Some(l) => Some(l@),
                None => None,
            },
            match overrides {
                Some(o) => Some(o@),
                None => None,
            },
        ),
{
    match (label, overrides) {
        (Some(l), Some(o)) => {
            match override_value(o, l) {
                Some(d) => {
                    return if d {
                        PlatformStartupConfiguredState::Disabled
                    } else {
                        PlatformStartupConfiguredState::Enabled
                    };
                },
                None => {},
            }
        },
        _ => {},
    }
    match disabled {
        Some(true) => PlatformStartupConfiguredState::Disabled,
        Some(false) => PlatformStartupConfiguredState::Enabled,
        None => if overrides.is_some() {
            PlatformStartupConfiguredState::Enabled
        } else {
            PlatformStartupConfiguredState::Unknown
        },
    }
}

pub open spec fn job_has_key(job: LaunchdJob, key: Seq<char>) -> bool {
    crate::plan::texts(job.keys@).contains(key)
}

/// What starts the job: at load (boot for daemons, logon for agents), keep
/// alive, a schedule, an event source; unknown when none applies.
pub open spec fn triggers_of(job: LaunchdJob, kind: PlatformStartupSourceKind) -> Seq<PlatformStartupTrigger> {
    let at_load = if job.run_at_load == Some(true) {
        seq![
            if kind == PlatformStartupSourceKind::LaunchDaemon {
                PlatformStartupTrigger::Boot
            } else {
                PlatformStartupTrigger::UserLogon
            },
        ]
    } else {
        seq![]
    };
    let keep_alive = if job_has_key(job, "KeepAlive"@) {
        seq![PlatformStartupTrigger::KeepAlive]
    } else {
        seq![]
    };
    let scheduled = if job_has_key(job, "StartInterval"@) || job_has_key(job, "StartCalendarInterval"@) {
        seq![PlatformStartupTrigger::Scheduled]
    } else {
        seq![]
    };
    let event = if job_has_key(job, "WatchPaths"@) || job_has_key(job, "QueueDirectories"@) || job_has_key(
        job,
        "MachServices"@,
    ) || job_has_key(job, "Sockets"@) || job_has_key(job, "StartOnMount"@) {
        seq![PlatformStartupTrigger::Event]
    } else {
        seq![]
    };
    let all = at_load + keep_alive + scheduled + event;
    if all.len() == 0 {
        seq![PlatformStartupTrigger::Unknown]
    } else {
        all
    }
}

fn job_key_present(job: &LaunchdJob, key: &str) -> (r: bool)
    ensures
        r == job_has_key(*job, key@),
{
    let mut i: usize = 0;
    while i < job.keys.len()
        invariant
            i <= job.keys@.len(),
            forall|j: int| 0 <= j < i ==> #[trigger] crate::plan::texts(job.keys@)[j] != key@,
        decreases job.keys.len() - i,
    {
        if crate::text::str_equal(job.keys[i].as_str(), key) {
            assert(crate::plan::texts(job.keys@)[i as int] == key@);
            return true;
        }
        i = i + 1;
    }
    false
}

pub fn launchd_triggers(job: &LaunchdJob, source_kind: PlatformStartupSourceKind) -> (r: Vec<PlatformStartupTrigger>)
    ensures
        r@ == triggers_of(*job, source_kind),
{
    let mut triggers: Vec<PlatformStartupTrigger> = Vec::new();
    if job.run_at_load == Some(true) {
        triggers.push(
            if source_kind == PlatformStartupSourceKind::LaunchDaemon {
                PlatformStartupTrigger::Boot
            } else {
                PlatformStartupTrigger::UserLogon
            },
        );
    }
    if job_key_present(job, "KeepAlive") {
        triggers.push(PlatformStartupTrigger::KeepAlive);
    }
    if job_key_present(job, "StartInterval") || job_key_present(job, "StartCalendarInterval") {
        triggers.push(PlatformStartupTrigger::Scheduled);
    }
    if job_key_present(job, "WatchPaths") || job_key_present(job, "QueueDirectories") || job_key_present(
        job,
        "MachServices",
    ) || job_key_present(job, "Sockets") || job_key_present(job, "StartOnMount") {
        triggers.push(PlatformStartupTrigger::Event);
    }
    if triggers.len() == 0 {
        triggers.push(PlatformStartupTrigger::Unknown);
    }
    assert(triggers@ =~= triggers_of(*job, source_kind));
    triggers
}

} // verus!

verus! {

/// Some component of the path is a name with the extension `app`.
pub open spec fn inside_app_bundle(p: Seq<char>) -> bool {
    exists|i: int|
        0 <= i < path_components(p).len() && is_normal_component(path_components(p)[i])
            && #[trigger] has_app_extension(path_components(p)[i])
}

pub open spec fn script_extensions() -> Seq<Seq<char>> {
    seq!["sh"@, "zsh"@, "bash"@, "py"@, "pl"@, "rb"@, "js"@]
}

/// The extension of the path's file name, when it has one.
pub open spec fn path_extension(p: Seq<char>) -> Option<Seq<char>> {
    match file_name(p) {
        Some(n) => crate::paths::extension_of(n),
        None => None,
    }
}

/// A script extension in any ASCII case.
pub open spec fn is_script_extension(e: Seq<char>) -> bool {
    exists|k: int|
        0 <= k < script_extensions().len() && #[trigger] crate::paths::eq_ignore_ascii_case(
            e,
            script_extensions()[k],
        )
}

pub open spec fn is_script_path(p: Seq<char>) -> bool {
    match path_extension(p) {
        Some(e) => is_script_extension(e),
        None => false,
    }
}

/// An application when the path is or lies inside an `.app` bundle, a
/// script by its extension, an executable otherwise.
pub open spec fn target_kind_of(path: Option<Seq<char>>) -> PlatformStartupTargetKind {
    match path {
        None => PlatformStartupTargetKind::Unknown,
        Some(p) => if inside_app_bundle(p) {
            PlatformStartupTargetKind::Application
        } else if is_script_path(p) {
            PlatformStartupTargetKind::Script
        } else {
            PlatformStartupTargetKind::Executable
        },
    }
}

fn extension_chars(p: &Vec<char>) -> (r: Option<Vec<char>>)
    ensures
        match r {
            Some(e) => path_extension(p@) == Some(e@),
            None => path_extension(p@) is None,
        },
{
    let name = match file_name_chars(p) {
        Some(n) => n,
        None => {
            return None;
        },
    };
    let mut j: usize = name.len();
    assert(name@.take(j as int) =~= name@);
    while j > 0 && name[j - 1] != '.'
        invariant
            j <= name@.len(),
            last_dot(name@) == last_dot(name@.take(j as int)),
        decreases j,
    {
        assert(name@.take(j as int).drop_last() =~= name@.take(j - 1));
        j = j - 1;
    }
    if j <= 1 {
        proof {
            if j == 1 {
                assert(name@.take(1).last() == '.');
            } else {
                assert(name@.take(0) =~= Seq::<char>::empty());
            }
        }
        return None;
    }
    assert(name@.take(j as int).last() == '.');
    let e = slice_chars(&name, j, name.len());
    assert(name@.subrange(j as int, name@.len() as int) =~= name@.skip(j as int));
    Some(e)
}

fn ascii_case_equal(a: &Vec<char>, text: &str) -> (r: bool)
    ensures
        r == crate::paths::eq_ignore_ascii_case(a@, text@),
{
    let b = chars_of(text);
    if a.len() != b.len() {
        return false;
    }
    let mut i: usize = 0;
    while i < a.len()
        invariant
            a@.len() == b@.len(),
            b@ == text@,
            i <= a@.len(),
            forall|j: int| 0 <= j < i ==> crate::text::ascii_lower(#[trigger] a@[j]) == crate::text::ascii_lower(b@[j]),
        decreases a.len() - i,
    {
        if crate::text::lower_char(a[i]) != crate::text::lower_char(b[i]) {
            return false;
        }
        i = i + 1;
    }
    true
}

pub fn target_kind(path: Option<&str>) -> (r: PlatformStartupTargetKind)
    ensures
        r == target_kind_of(
            match path {
                Some(p) => Some(p@),
                None => None,
            },
        ),
{
    let q = match path {
        Some(q) => q,
        None => {
            return PlatformStartupTargetKind::Unknown;
        },
    };
    let p = chars_of(q);
    let parts = split_path(&p);
    let ghost comps = path_components(p@);
    let mut i: usize = 0;
    while i < parts.len()
        invariant
            i <= parts@.len(),
            rows(parts@) == comps,
            comps == path_components(p@),
            path == Some(q),
            p@ == q@,
            forall|j: int|
                0 <= j < i ==> !(is_normal_component(comps[j]) && #[trigger] has_app_extension(comps[j])),
        decreases parts.len() - i,
    {
        assert(comps[i as int] == parts@[i as int]@);
        if crate::paths::is_normal(&parts[i]) && app_extension(&parts[i]) {
            assert(has_app_extension(comps[i as int]));
            return PlatformStartupTargetKind::Application;
        }
        i = i + 1;
    }
    assert(!inside_app_bundle(p@));
    let ext = extension_chars(&p);
    match ext {
        Some(e) => {
            proof {
                reveal_strlit("sh");
                reveal_strlit("zsh");
                reveal_strlit("bash");
                reveal_strlit("py");
                reveal_strlit("pl");
                reveal_strlit("rb");
                reveal_strlit("js");
            }
            let b0 = ascii_case_equal(&e, "sh");
            let b1 = ascii_case_equal(&e, "zsh");
            let b2 = ascii_case_equal(&e, "bash");
            let b3 = ascii_case_equal(&e, "py");
            let b4 = ascii_case_equal(&e, "pl");
            let b5 = ascii_case_equal(&e, "rb");
            let b6 = ascii_case_equal(&e, "js");
            let script = b0 || b1 || b2 || b3 || b4 || b5 || b6;
            proof {
                let s = script_extensions();
                assert(s[0] == "sh"@ && s[1] == "zsh"@ && s[2] == "bash"@ && s[3] == "py"@);
                assert(s[4] == "pl"@ && s[5] == "rb"@ && s[6] == "js"@);
                assert(s.len() == 7);
                if b0 { assert(crate::paths::eq_ignore_ascii_case(e@, s[0])); }
                if b1 { assert(crate::paths::eq_ignore_ascii_case(e@, s[1])); }
                if b2 { assert(crate::paths::eq_ignore_ascii_case(e@, s[2])); }
                if b3 { assert(crate::paths::eq_ignore_ascii_case(e@, s[3])); }
                if b4 { assert(crate::paths::eq_ignore_ascii_case(e@, s[4])); }
                if b5 { assert(crate::paths::eq_ignore_ascii_case(e@, s[5])); }
                if b6 { assert(crate::paths::eq_ignore_ascii_case(e@, s[6])); }
                if !script {
                    assert forall|k: int| 0 <= k < s.len() implies !#[trigger] crate::paths::eq_ignore_ascii_case(e@, s[k]) by {
                        if k == 0 { } else if k == 1 { } else if k == 2 { } else if k == 3 { }
                        else if k == 4 { } else if k == 5 { } else { }
                    }
                }
            }
            assert(path_extension(p@) == Some(e@));
            assert(is_script_extension(e@) == script);
            assert(is_script_path(p@) == script);
            if script {
                PlatformStartupTargetKind::Script
            } else {
                PlatformStartupTargetKind::Executable
            }
        },
        None => PlatformStartupTargetKind::Executable,
    }
}

/// Why a source's coverage is partial: access denial first, then invalid
/// data, then an unavailable state.
pub open spec fn coverage_reason_of(issues: Seq<ScanIssue>) -> Option<PlatformStartupCoverageReason> {
    if issues.contains(ScanIssue::AccessDenied) {
        Some(PlatformStartupCoverageReason::AccessDenied)
    } else if issues.contains(ScanIssue::InvalidData) {
        Some(PlatformStartupCoverageReason::InvalidData)
    } else if issues.contains(ScanIssue::StateUnavailable) {
        Some(PlatformStartupCoverageReason::StateUnavailable)
    } else {
        None
    }
}

fn contains_issue(issues: &Vec<ScanIssue>, issue: ScanIssue) -> (r: bool)
    ensures
        r == issues@.contains(issue),
{
    let mut i: usize = 0;
    while i < issues.len()
        invariant
            i <= issues@.len(),
            forall|j: int| 0 <= j < i ==> issues@[j] != issue,
        decreases issues.len() - i,
    {
        if issues[i] == issue {
            return true;
        }
        i = i + 1;
    }
    false
}

pub fn coverage_reason(issues: &Vec<ScanIssue>) -> (r: Option<PlatformStartupCoverageReason>)
    ensures
        r == coverage_reason_of(issues@),
{
    if contains_issue(issues, ScanIssue::AccessDenied) {
        Some(PlatformStartupCoverageReason::AccessDenied)
    } else if contains_issue(issues, ScanIssue::InvalidData) {
        Some(PlatformStartupCoverageReason::InvalidData)
    } else if contains_issue(issues, ScanIssue::StateUnavailable) {
        Some(PlatformStartupCoverageReason::StateUnavailable)
    } else {
        None
    }
}

/// The launchctl domain: the GUI domain of the interactive user (else of
/// the effective user), or the system domain.
pub open spec fn domain_target_text(domain: LaunchdDomain, interactive_user_id: Option<u32>, effective_uid: u32) -> Seq<char> {
    match domain {
        LaunchdDomain::Gui => "gui/"@ + decimal(
            match interactive_user_id {
                Some(u) => u,
                None => effective_uid,
            } as nat,
        ),
        LaunchdDomain::System => "system"@,
    }
}

pub fn launchd_domain_target(domain: LaunchdDomain, interactive_user_id: Option<u32>, effective_uid: u32) -> (r: String)
    ensures
        r@ == domain_target_text(domain, interactive_user_id, effective_uid),
{
    match domain {
        LaunchdDomain::Gui => {
            let uid = match interactive_user_id {
                Some(u) => u,
                None => effective_uid,
            };
            let mut s = String::new();
            push_str(&mut s, "gui/");
            push_decimal(&mut s, uid as u64);
            s
        },
        LaunchdDomain::System => "system".to_string(),
    }
}

/// `PathBuf::join` of a relative path: a separator is added unless the
/// base is empty or already ends with one.
pub open spec fn path_join(base: Seq<char>, rel: Seq<char>) -> Seq<char> {
    if base.len() == 0 {
        rel
    } else if base.last() == '/' {
        base + rel
    } else {
        base + seq!['/'] + rel
    }
}

pub fn join_path(base: &str, rel: &str) -> (r: String)
    ensures
        r@ == path_join(base@, rel@),
{
    let b = chars_of(base);
    let mut s = String::new();
    push_str(&mut s, base);
    if b.len() > 0 && b[b.len() - 1] != '/' {
        crate::text::push_char(&mut s, '/');
    }
    push_str(&mut s, rel);
    s
}

} // verus!

verus! {

/// The user's home directory (`dirs::home_dir`), as text. It depends on the
/// environment and the user database, so nothing is stated of it.
#[verifier::external_body]
fn home_directory() -> Option<String> {
    dirs::home_dir().map(|path| path.to_string_lossy().into_owned())
}

pub open spec fn source_is(
    s: LaunchdSource,
    id: Seq<char>,
    paths: Seq<Seq<char>>,
    kind: PlatformStartupSourceKind,
    scope: PlatformStartupScope,
    capability: PlatformStartupControlCapability,
    domain: LaunchdDomain,
    system_owned: bool,
) -> bool {
    &&& s.source_id@ == id
    &&& crate::plan::texts(s.paths@) == paths
    &&& s.source_kind == kind
    &&& s.scope == scope
    &&& s.capability == capability
    &&& s.domain == domain
    &&& s.system_owned == system_owned
}

/// The five launchd sources: the user's agents (under the home directory,
/// when known), the local agents and daemons, and the system's agents and
/// daemons.
pub open spec fn launchd_sources_spec(home: Option<Seq<char>>, s: Seq<LaunchdSource>) -> bool {
    &&& s.len() == 5
    &&& source_is(
        s[0],
        "macos.launchd.user_agents"@,
        match home {
            Some(h) => seq![path_join(h, "Library/LaunchAgents"@)],
            None => seq![],
        },
        PlatformStartupSourceKind::LaunchAgent,
        PlatformStartupScope::CurrentUser,
        PlatformStartupControlCapability::Toggleable,
        LaunchdDomain::Gui,
        false,
    )
    &&& source_is(
        s[1],
        "macos.launchd.local_agents"@,
        seq!["/Library/LaunchAgents"@],
        PlatformStartupSourceKind::LaunchAgent,
        PlatformStartupScope::Machine,
        PlatformStartupControlCapability::ElevationRequired,
        LaunchdDomain::Gui,
        false,
    )
    &&& source_is(
        s[2],
        "macos.launchd.local_daemons"@,
        seq!["/Library/LaunchDaemons"@],
        PlatformStartupSourceKind::LaunchDaemon,
        PlatformStartupScope::Machine,
        PlatformStartupControlCapability::ElevationRequired,
        LaunchdDomain::System,
        false,
    )
    &&& source_is(
        s[3],
        "macos.launchd.system_agents"@,
        seq!["/System/Library/LaunchAgents"@, "/Library/Apple/System/Library/LaunchAgents"@],
        PlatformStartupSourceKind::LaunchAgent,
        PlatformStartupScope::System,
        PlatformStartupControlCapability::ViewOnly,
        LaunchdDomain::Gui,
        true,
    )
    &&& source_is(
        s[4],
        "macos.launchd.system_daemons"@,
        seq!["/System/Library/LaunchDaemons"@, "/Library/Apple/System/Library/LaunchDaemons"@],
        PlatformStartupSourceKind::LaunchDaemon,
        PlatformStartupScope::System,
        PlatformStartupControlCapability::ViewOnly,
        LaunchdDomain::System,
        true,
    )
}

pub fn launchd_sources_for_home(home: Option<&str>) -> (r: Vec<LaunchdSource>)
    ensures
        launchd_sources_spec(
            match home {
                Some(h) => Some(h@),
                None => None,
            },
            r@,
        ),
{
    let mut user_paths: Vec<String> = Vec::new();
    match home {
        Some(h) => {
            user_paths.push(join_path(h, "Library/LaunchAgents"));
        },
        None => {},
    }
    let mut local_agents: Vec<String> = Vec::new();
    local_agents.push("/Library/LaunchAgents".to_string());
    let mut local_daemons: Vec<String> = Vec::new();
    local_daemons.push("/Library/LaunchDaemons".to_string());
    let mut system_agents: Vec<String> = Vec::new();
    system_agents.push("/System/Library/LaunchAgents".to_string());
    system_agents.push("/Library/Apple/System/Library/LaunchAgents".to_string());
    let mut system_daemons: Vec<String> = Vec::new();
    system_daemons.push("/System/Library/LaunchDaemons".to_string());
    system_daemons.push("/Library/Apple/System/Library/LaunchDaemons".to_string());
    let mut r: Vec<LaunchdSource> = Vec::new();
    r.push(
        LaunchdSource {
            source_id: "macos.launchd.user_agents",
            paths: user_paths,
            source_kind: PlatformStartupSourceKind::LaunchAgent,
            scope: PlatformStartupScope::CurrentUser,
            capability: PlatformStartupControlCapability::Toggleable,
            domain: LaunchdDomain::Gui,
            system_owned: false,
        },
    );
    r.push(
        LaunchdSource {
            source_id: "macos.launchd.local_agents",
            paths: local_agents,
            source_kind: PlatformStartupSourceKind::LaunchAgent,
            scope: PlatformStartupScope::Machine,
            capability: PlatformStartupControlCapability::ElevationRequired,
            domain: LaunchdDomain::Gui,
            system_owned: false,
        },
    );
    r.push(
        LaunchdSource {
            source_id: "macos.launchd.local_daemons",
            paths: local_daemons,
            source_kind: PlatformStartupSourceKind::LaunchDaemon,
            scope: PlatformStartupScope::Machine,
            capability: PlatformStartupControlCapability::ElevationRequired,
            domain: LaunchdDomain::System,
            system_owned: false,
        },
    );
    r.push(
        LaunchdSource {
            source_id: "macos.launchd.system_agents",
            paths: system_agents,
            source_kind: PlatformStartupSourceKind::LaunchAgent,
            scope: PlatformStartupScope::System,
            capability: PlatformStartupControlCapability::ViewOnly,
            domain: LaunchdDomain::Gui,
            system_owned: true,
        },
    );
    r.push(
        LaunchdSource {
            source_id: "macos.launchd.system_daemons",
            paths: system_daemons,
            source_kind: PlatformStartupSourceKind::LaunchDaemon,
            scope: PlatformStartupScope::System,
            capability: PlatformStartupControlCapability::ViewOnly,
            domain: LaunchdDomain::System,
            system_owned: true,
        },
    );
    assert(crate::plan::texts(r@[0].paths@) =~= match home {
        Some(h) => seq![path_join(h@, "Library/LaunchAgents"@)],
        None => seq![],
    });
    assert(crate::plan::texts(r@[1].paths@) =~= seq!["/Library/LaunchAgents"@]);
    assert(crate::plan::texts(r@[2].paths@) =~= seq!["/Library/LaunchDaemons"@]);
    assert(crate::plan::texts(r@[3].paths@) =~= seq![
        "/System/Library/LaunchAgents"@,
        "/Library/Apple/System/Library/LaunchAgents"@,
    ]);
    assert(crate::plan::texts(r@[4].paths@) =~= seq![
        "/System/Library/LaunchDaemons"@,
        "/Library/Apple/System/Library/LaunchDaemons"@,
    ]);
    r
}

/// The launchd sources for the current user's home directory.
pub fn launchd_sources() -> (r: Vec<LaunchdSource>)
    ensures
        exists|home: Option<Seq<char>>| launchd_sources_spec(home, r@),
{
    let home = home_directory();
    let r = match &home {
        Some(h) => launchd_sources_for_home(Some(h.as_str())),
        None => launchd_sources_for_home(None),
    };
    proof {
        let h = match home {
            Some(h) => Some(h@),
            None => None,
        };
        assert(launchd_sources_spec(h, r@));
    }
    r
}

} // verus!

verus! {

/// Who a startup item belongs to.
#[derive(Debug, Clone, PartialEq, Eq)]
pub struct PlatformStartupOwner {
    pub identity_key: Option<String>,
    pub name: Option<String>,
    pub publisher: Option<String>,
    pub summary: Option<String>,
    pub summary_source: PlatformStartupSummarySource,
    pub version: Option<String>,
    pub icon_path: Option<String>,
    pub confidence: PlatformStartupIdentityConfidence,
}

/// What a startup item runs.
#[derive(Debug, Clone, PartialEq, Eq)]
pub struct PlatformStartupTarget {
    pub kind: PlatformStartupTargetKind,
    pub identity_key: String,
    pub path: Option<String>,
    pub executable_name: Option<String>,
    pub arguments: Vec<String>,
}

/// One startup item as presented and later changed.
#[derive(Debug, Clone, PartialEq, Eq)]
pub struct PlatformStartupArtifact {
    pub provider_item_id: String,
    pub source_kind: PlatformStartupSourceKind,
    pub scope: PlatformStartupScope,
    pub triggers: Vec<PlatformStartupTrigger>,
    pub display_name: String,
    pub configuration_path: Option<String>,
    pub target: PlatformStartupTarget,
    pub owner: PlatformStartupOwner,
    pub configured_state: PlatformStartupConfiguredState,
    pub runtime_state: PlatformStartupRuntimeState,
    pub control_capability: PlatformStartupControlCapability,
    pub trust: PlatformStartupTrustState,
    pub modified_at_ms: Option<u64>,
    pub diagnostics: Vec<PlatformStartupDiagnosticCode>,
}

pub open spec fn text_of(v: Option<String>) -> Option<Seq<char>> {
    match v {
        Some(s) => Some(s@),
        None => None,
    }
}

pub open spec fn is_unresolved_owner(o: PlatformStartupOwner) -> bool {
    &&& o.identity_key is None
    &&& o.name is None
    &&& o.publisher is None
    &&& o.summary is None
    &&& o.summary_source == PlatformStartupSummarySource::Unavailable
    &&& o.version is None
    &&& o.icon_path is None
    &&& o.confidence == PlatformStartupIdentityConfidence::Unresolved
}

/// An owner about which nothing is known.
pub fn unresolved_owner() -> (o: PlatformStartupOwner)
    ensures
        is_unresolved_owner(o),
{
    PlatformStartupOwner {
        identity_key: None,
        name: None,
        publisher: None,
        summary: None,
        summary_source: PlatformStartupSummarySource::Unavailable,
        version: None,
        icon_path: None,
        confidence: PlatformStartupIdentityConfidence::Unresolved,
    }
}

/// What the job runs: its `Program`, else the first program argument.
pub open spec fn job_target(job: LaunchdJob) -> Option<Seq<char>> {
    match meaningful(job.program) {
        Some(p) => Some(p),
        None => if job.program_arguments@.len() > 0 {
            Some(job.program_arguments@[0]@)
        } else {
            None
        },
    }
}

pub fn launchd_target_path(job: &LaunchdJob) -> (r: Option<String>)
    ensures
        text_of(r) == job_target(*job),
{
    match meaningful_text(&job.program) {
        Some(p) => Some(p),
        None => if job.program_arguments.len() > 0 {
            Some(job.program_arguments[0].clone())
        } else {
            None
        },
    }
}

/// `Path::file_stem`: the file name without its extension.
pub open spec fn file_stem(p: Seq<char>) -> Option<Seq<char>> {
    match file_name(p) {
        Some(n) => if last_dot(n) > 0 {
            Some(n.take(last_dot(n)))
        } else {
            Some(n)
        },
        None => None,
    }
}

fn file_stem_text(p: &str) -> (r: Option<String>)
    ensures
        text_of(r) == file_stem(p@),
{
    let c = chars_of(p);
    let name = match file_name_chars(&c) {
        Some(n) => n,
        None => {
            return None;
        },
    };
    let mut j: usize = name.len();
    assert(name@.take(j as int) =~= name@);
    while j > 0 && name[j - 1] != '.'
        invariant
            j <= name@.len(),
            last_dot(name@) == last_dot(name@.take(j as int)),
        decreases j,
    {
        assert(name@.take(j as int).drop_last() =~= name@.take(j - 1));
        j = j - 1;
    }
    if j <= 1 {
        proof {
            if j == 1 {
                assert(name@.take(1).last() == '.');
            } else {
                assert(name@.take(0) =~= Seq::<char>::empty());
            }
        }
        return Some(string_from_chars(&name));
    }
    assert(name@.take(j as int).last() == '.');
    let stem = slice_chars(&name, 0, j - 1);
    assert(name@.subrange(0, j - 1) =~= name@.take(j - 1));
    Some(string_from_chars(&stem))
}

/// The owner and trust before the job's own association is applied: the
/// resolved owner of its target, or nobody (system trust for system-owned
/// sources) when it names no target.
pub open spec fn base_owner(
    resolved: Option<(PlatformStartupOwner, PlatformStartupTrustState)>,
    system_owned: bool,
) -> (Option<PlatformStartupOwner>, PlatformStartupTrustState) {
    match resolved {
        Some((o, t)) => (Some(o), t),
        None => (
            None,
            if system_owned {
                PlatformStartupTrustState::System
            } else {
                PlatformStartupTrustState::Unknown
            },
        ),
    }
}

/// The owner of the artifact: the base owner, grouped with the application
/// bundle the job declares (`bundle:<id>`, exact) when it declares one.
pub open spec fn artifact_owner(
    owner: PlatformStartupOwner,
    base: Option<PlatformStartupOwner>,
    association: Option<Seq<char>>,
) -> bool {
    &&& match base {
        Some(b) => {
            &&& owner.name == b.name
            &&& owner.publisher == b.publisher
            &&& owner.summary == b.summary
            &&& owner.summary_source == b.summary_source
            &&& owner.version == b.version
            &&& owner.icon_path == b.icon_path
            &&& association is None ==> owner.identity_key == b.identity_key && owner.confidence
                == b.confidence
        },
        None => {
            &&& owner.name is None
            &&& owner.publisher is None
            &&& owner.summary is None
            &&& owner.summary_source == PlatformStartupSummarySource::Unavailable
            &&& owner.version is None
            &&& owner.icon_path is None
            &&& association is None ==> owner.identity_key is None && owner.confidence
                == PlatformStartupIdentityConfidence::Unresolved
        },
    }
    &&& match association {
        Some(id) => text_of(owner.identity_key) == Some("bundle:"@ + id) && owner.confidence
            == PlatformStartupIdentityConfidence::Exact,
        None => true,
    }
}

/// The name shown: the owner's, else the label, else the property list's
/// file stem, else a generic name.
pub open spec fn display_name_of(owner_name: Option<Seq<char>>, label: Option<Seq<char>>, plist_path: Seq<char>) -> Seq<char> {
    match owner_name {
        Some(n) => n,
        None => match label {
            Some(l) => l,
            None => match file_stem(plist_path) {
                Some(s) => s,
                None => "launchd item"@,
            },
        },
    }
}

pub open spec fn diagnostics_of(label_missing: bool, target_missing: bool, state_unavailable: bool) -> Seq<
    PlatformStartupDiagnosticCode,
> {
    (if label_missing {
        seq![PlatformStartupDiagnosticCode::MissingIdentity]
    } else {
        seq![]
    }) + (if target_missing {
        seq![PlatformStartupDiagnosticCode::MissingTarget]
    } else {
        seq![]
    }) + (if state_unavailable {
        seq![PlatformStartupDiagnosticCode::StateUnavailable]
    } else {
        seq![]
    })
}

/// The artifact that a job read from `plist_path` presents. `presence`
/// tells whether its target exists (a job without target counts as missing),
/// `resolved` is its target's owner and trust.
pub open spec fn artifact_of(
    job: LaunchdJob,
    plist_path: Seq<char>,
    modified_at_ms: Option<u64>,
    source: LaunchdSource,
    overrides: Option<Seq<(String, bool)>>,
    presence: TargetPresence,
    resolved: Option<(PlatformStartupOwner, PlatformStartupTrustState)>,
    a: PlatformStartupArtifact,
) -> bool {
    let label = meaningful(job.label);
    let target = job_target(job);
    let target_missing = target is None || presence == TargetPresence::Missing;
    let (base, trust) = base_owner(resolved, source.system_owned);
    let args = job.program_arguments@;
    &&& a.provider_item_id@ == (match label {
        Some(l) => l,
        None => "missing-label"@,
    }) + ":"@ + plist_path
    &&& a.source_kind == source.source_kind
    &&& a.scope == source.scope
    &&& a.triggers@ == triggers_of(job, source.source_kind)
    &&& a.display_name@ == display_name_of(text_of(a.owner.name), label, plist_path)
    &&& text_of(a.configuration_path) == Some(plist_path)
    &&& a.target.kind == target_kind_of(target)
    &&& a.target.identity_key@ == match target {
        Some(t) => t,
        None => match label {
            Some(l) => l,
            None => plist_path,
        },
    }
    &&& text_of(a.target.path) == target
    &&& text_of(a.target.executable_name) == match target {
        Some(t) => file_name(t),
        None => None,
    }
    &&& crate::plan::texts(a.target.arguments@) == if args.len() == 0 {
        seq![]
    } else {
        crate::plan::texts(args).skip(1)
    }
    &&& artifact_owner(a.owner, base, associated_identifier(job.associated_bundle_identifiers))
    &&& a.configured_state == configured_state_of(job.disabled, label, overrides)
    &&& a.runtime_state == PlatformStartupRuntimeState::Unknown
    &&& a.control_capability == if label is Some {
        source.capability
    } else {
        PlatformStartupControlCapability::ViewOnly
    }
    &&& a.trust == trust
    &&& a.modified_at_ms == modified_at_ms
    &&& a.diagnostics@ == diagnostics_of(label is None, target_missing, overrides is None)
}

fn concat3(a: &str, b: &str, c: &str) -> (r: String)
    ensures
        r@ == a@ + b@ + c@,
{
    let mut s = String::new();
    push_str(&mut s, a);
    push_str(&mut s, b);
    push_str(&mut s, c);
    s
}

/// Builds the artifact of a launchd job (see `artifact_of`).
pub fn artifact_from_job(
    job: &LaunchdJob,
    plist_path: &str,
    modified_at_ms: Option<u64>,
    source: &LaunchdSource,
    overrides: Option<&Vec<(String, bool)>>,
    presence: TargetPresence,
    resolved: Option<(PlatformStartupOwner, PlatformStartupTrustState)>,
) -> (a: PlatformStartupArtifact)
    requires
        (job_target(*job) is Some) == (resolved is Some),
    ensures
        artifact_of(
            *job,
            plist_path@,
            modified_at_ms,
            *source,
            match overrides {
                Some(o) => Some(o@),
                None => None,
            },
            presence,
            resolved,
            a,
        ),
{
    let ghost resolved0 = resolved;
    let label = meaningful_text(&job.label);
    let target_path = launchd_target_path(job);
    let target_missing = target_path.is_none() || presence == TargetPresence::Missing;
    let (mut owner, trust) = match resolved {
        Some(pair) => pair,
        None => (
            unresolved_owner(),
            if source.system_owned {
                PlatformStartupTrustState::System
            } else {
                PlatformStartupTrustState::Unknown
            },
        ),
    };
    let association = associated_bundle_identifier(job);
    match &association {
        Some(id) => {
            owner.identity_key = Some(concat3("bundle:", id.as_str(), ""));
            owner.confidence = PlatformStartupIdentityConfidence::Exact;
            proof {
                reveal_strlit("");
                assert(("bundle:"@ + id@ + ""@) =~= "bundle:"@ + id@);
            }
        },
        None => {},
    }
    let display_name = match &owner.name {
        Some(n) => n.clone(),
        None => match &label {
            Some(l) => l.clone(),
            None => match file_stem_text(plist_path) {
                Some(s) => s,
                None => "launchd item".to_string(),
            },
        },
    };
    let mut diagnostics: Vec<PlatformStartupDiagnosticCode> = Vec::new();
    if label.is_none() {
        diagnostics.push(PlatformStartupDiagnosticCode::MissingIdentity);
    }
    if target_missing {
        diagnostics.push(PlatformStartupDiagnosticCode::MissingTarget);
    }
    if overrides.is_none() {
        diagnostics.push(PlatformStartupDiagnosticCode::StateUnavailable);
    }
    assert(diagnostics@ =~= diagnostics_of(label is None, target_missing, overrides is None));
    let state = configured_state(
        job.disabled,
        match &label {
            Some(l) => Some(l.as_str()),
            None => None,
        },
        overrides,
    );
    let target_identity = match &target_path {
        Some(t) => t.clone(),
        None => match &label {
            Some(l) => l.clone(),
            None => plist_path.to_string(),
        },
    };
    let provider_item_id = match &label {
        Some(l) => concat3(l.as_str(), ":", plist_path),
        None => concat3("missing-label", ":", plist_path),
    };
    let kind = target_kind(
        match &target_path {
            Some(t) => Some(t.as_str()),
            None => None,
        },
    );
    let executable_name = match &target_path {
        Some(t) => {
            let c = chars_of(t.as_str());
            match file_name_chars(&c) {
                Some(n) => Some(string_from_chars(&n)),
                None => None,
            }
        },
        None => None,
    };
    let mut arguments: Vec<String> = Vec::new();
    if job.program_arguments.len() > 0 {
        let mut k: usize = 1;
        assert(crate::plan::texts(job.program_arguments@).skip(1).take(0) =~= Seq::<Seq<char>>::empty());
        while k < job.program_arguments.len()
            invariant
                1 <= k <= job.program_arguments@.len(),
                crate::plan::texts(arguments@) == crate::plan::texts(job.program_arguments@).skip(1).take(k - 1),
            decreases job.program_arguments.len() - k,
        {
            let ghost before = arguments@;
            arguments.push(job.program_arguments[k].clone());
            assert(crate::plan::texts(arguments@) =~= crate::plan::texts(before).push(job.program_arguments@[k as int]@));
            assert(crate::plan::texts(job.program_arguments@).skip(1).take(k as int) =~= crate::plan::texts(
                job.program_arguments@,
            ).skip(1).take(k - 1).push(job.program_arguments@[k as int]@));
            k = k + 1;
        }
        assert(crate::plan::texts(job.program_arguments@).skip(1).take(k - 1) =~= crate::plan::texts(
            job.program_arguments@,
        ).skip(1));
    } else {
        assert(crate::plan::texts(arguments@) =~= Seq::<Seq<char>>::empty());
    }
    let capability = if label.is_some() {
        source.capability
    } else {
        PlatformStartupControlCapability::ViewOnly
    };
    let triggers = launchd_triggers(job, source.source_kind);
    PlatformStartupArtifact {
        provider_item_id,
        source_kind: source.source_kind,
        scope: source.scope,
        triggers,
        display_name,
        configuration_path: Some(plist_path.to_string()),
        target: PlatformStartupTarget {
            kind,
            identity_key: target_identity,
            path: target_path,
            executable_name,
            arguments,
        },
        owner,
        configured_state: state,
        runtime_state: PlatformStartupRuntimeState::Unknown,
        control_capability: capability,
        trust,
        modified_at_ms,
        diagnostics,
    }
}

} // verus!

verus! {

/// The coverage of one launchd source.
#[derive(Debug, Clone, PartialEq, Eq)]
pub struct PlatformStartupSourceResult {
    pub source_id: String,
    pub required: bool,
    pub status: PlatformStartupCoverageStatus,
    pub reason: Option<PlatformStartupCoverageReason>,
    pub items: Vec<PlatformStartupArtifact>,
    pub elapsed_ms: u64,
}

/// The issues a source starts with: an unavailable state when the
/// overrides could not be read.
pub fn initial_issues(overrides_available: bool) -> (r: Vec<ScanIssue>)
    ensures
        r@ == if overrides_available {
            seq![]
        } else {
            seq![ScanIssue::StateUnavailable]
        },
{
    let mut r: Vec<ScanIssue> = Vec::new();
    if !overrides_available {
        r.push(ScanIssue::StateUnavailable);
    }
    assert(r@ =~= if overrides_available {
        seq![]
    } else {
        seq![ScanIssue::StateUnavailable]
    });
    r
}

/// A finished source: partial (with the reason) when some issue was met,
/// complete otherwise.
pub fn source_result(
    source_id: &str,
    issues: &Vec<ScanIssue>,
    items: Vec<PlatformStartupArtifact>,
    elapsed_ms: u64,
) -> (r: PlatformStartupSourceResult)
    ensures
        r.source_id@ == source_id@,
        r.required,
        r.reason == coverage_reason_of(issues@),
        r.status == if coverage_reason_of(issues@) is Some {
            PlatformStartupCoverageStatus::Partial
        } else {
            PlatformStartupCoverageStatus::Complete
        },
        r.items@ == items@,
        r.elapsed_ms == elapsed_ms,
{
    let reason = coverage_reason(issues);
    PlatformStartupSourceResult {
        source_id: source_id.to_string(),
        required: true,
        status: if reason.is_some() {
            PlatformStartupCoverageStatus::Partial
        } else {
            PlatformStartupCoverageStatus::Complete
        },
        reason,
        items,
        elapsed_ms,
    }
}

/// A source whose reading was cancelled keeps the items read so far.
pub fn cancelled_source_result(source_id: &str, items: Vec<PlatformStartupArtifact>, elapsed_ms: u64) -> (r:
    PlatformStartupSourceResult)
    ensures
        r.source_id@ == source_id@,
        r.required,
        r.status == PlatformStartupCoverageStatus::Cancelled,
        r.reason == Some(PlatformStartupCoverageReason::Cancelled),
        r.items@ == items@,
        r.elapsed_ms == elapsed_ms,
{
    PlatformStartupSourceResult {
        source_id: source_id.to_string(),
        required: true,
        status: PlatformStartupCoverageStatus::Cancelled,
        reason: Some(PlatformStartupCoverageReason::Cancelled),
        items,
        elapsed_ms,
    }
}

/// The root of the external volume a path lies on (`/Volumes/<name>`).
pub open spec fn external_volume_root_of(p: Seq<char>) -> Option<Seq<char>> {
    let c = path_components(p);
    if c.len() >= 3 && c[0] == seq!['/'] && c[1] == "Volumes"@ {
        Some("/Volumes/"@ + c[2])
    } else {
        None
    }
}

pub fn external_volume_root(path: &str) -> (r: Option<String>)
    ensures
        text_of(r) == external_volume_root_of(path@),
{
    let c = chars_of(path);
    let parts = split_path(&c);
    if parts.len() < 3 {
        return None;
    }
    assert(rows(parts@)[0] == parts@[0]@ && rows(parts@)[1] == parts@[1]@ && rows(parts@)[2] == parts@[2]@);
    let root = parts[0].len() == 1 && parts[0][0] == '/';
    proof {
        if parts@[0]@ == seq!['/'] {
            assert(parts@[0]@[0] == '/');
        }
        if root {
            assert(parts@[0]@ =~= seq!['/']);
        }
    }
    if !root || !chars_are(&parts[1], "Volumes") {
        return None;
    }
    let mut s = String::new();
    push_str(&mut s, "/Volumes/");
    crate::text::push_chars(&mut s, &parts[2]);
    Some(s)
}

/// Whether a target exists: unknown for relative paths, for paths on an
/// external volume that is not mounted, and when the check failed.
pub open spec fn presence_of(path: Seq<char>, volume_mounted: Option<bool>, exists: Option<bool>) -> TargetPresence {
    if !(path.len() > 0 && path[0] == '/') || (external_volume_root_of(path) is Some && volume_mounted
        != Some(true)) {
        TargetPresence::Unknown
    } else {
        match exists {
            Some(true) => TargetPresence::Present,
            Some(false) => TargetPresence::Missing,
            None => TargetPresence::Unknown,
        }
    }
}

/// Decides a target's presence from the checks made on the filesystem:
/// whether its external volume root exists and whether it exists itself.
pub fn target_presence_from(path: &str, volume_mounted: Option<bool>, exists: Option<bool>) -> (r: TargetPresence)
    ensures
        r == presence_of(path@, volume_mounted, exists),
{
    let c = chars_of(path);
    let absolute = c.len() > 0 && c[0] == '/';
    if !absolute {
        return TargetPresence::Unknown;
    }
    if external_volume_root(path).is_some() && volume_mounted != Some(true) {
        return TargetPresence::Unknown;
    }
    match exists {
        Some(true) => TargetPresence::Present,
        Some(false) => TargetPresence::Missing,
        None => TargetPresence::Unknown,
    }
}

/// The outcome of a configured-state change or a removal.
#[derive(Debug, Clone, PartialEq, Eq)]
pub struct PlatformStartupChangeResult {
    pub previous_state: PlatformStartupConfiguredState,
    pub configured_state: PlatformStartupConfiguredState,
    pub verified: bool,
}

pub open spec fn may_change_source(source: LaunchdSource, privileged: bool) -> bool {
    if privileged {
        source.source_id@ == "macos.launchd.local_agents"@ || source.source_id@ == "macos.launchd.local_daemons"@
    } else {
        source.scope == PlatformStartupScope::CurrentUser
    }
}

pub open spec fn first_source_with_id(sources: Seq<LaunchdSource>, id: Seq<char>) -> int
    decreases sources.len(),
{
    if sources.len() == 0 {
        -1
    } else if first_source_with_id(sources.drop_last(), id) >= 0 {
        first_source_with_id(sources.drop_last(), id)
    } else if sources.last().source_id@ == id {
        sources.len() - 1
    } else {
        -1
    }
}

/// The source a change request names: unsupported when there is none,
/// access denied unless unprivileged callers change the user's own agents
/// and privileged ones the local agents or daemons.
pub fn select_change_source(sources: Vec<LaunchdSource>, source_id: &str, privileged: bool) -> (r: Result<
    LaunchdSource,
    PlatformError,
>)
    ensures
        match r {
            Ok(s) => {
                let i = first_source_with_id(sources@, source_id@);
                &&& i >= 0
                &&& s == sources@[i]
                &&& may_change_source(s, privileged)
            },
            Err(e) => {
                let i = first_source_with_id(sources@, source_id@);
                if i < 0 {
                    e.code == PlatformErrorCode::Unsupported && e.message@
                        == "launchd source is not available for configured-state changes"@
                } else {
                    !may_change_source(sources@[i], privileged) && e.code == PlatformErrorCode::AccessDenied
                        && e.message@ == "launchd item requires a privileged operation"@
                }
            },
        },
{
    let ghost all = sources@;
    let mut rest = sources;
    let mut i: usize = 0;
    let n = rest.len();
    assert(all.take(0) =~= Seq::<LaunchdSource>::empty());
    while i < n
        invariant
            i <= n,
            n == all.len(),
            rest@ == all.skip(i as int),
            all == sources@,
            first_source_with_id(all.take(i as int), source_id@) == -1,
        decreases n - i,
    {
        let s = rest.remove(0);
        assert(s == all[i as int]);
        assert(all.skip(i + 1) =~= all.skip(i as int).drop_first());
        assert(all.take(i + 1).drop_last() =~= all.take(i as int));
        assert(all.take(i + 1).last() == s);
        if crate::text::str_equal(s.source_id, source_id) {
            proof {
                lemma_first_source_prefix(all, source_id@, i + 1);
            }
            let allowed = if privileged {
                crate::text::str_equal(s.source_id, "macos.launchd.local_agents") || crate::text::str_equal(
                    s.source_id,
                    "macos.launchd.local_daemons",
                )
            } else {
                s.scope == PlatformStartupScope::CurrentUser
            };
            if !allowed {
                return Err(
                    PlatformError::new(
                        PlatformErrorCode::AccessDenied,
                        "launchd item requires a privileged operation",
                    ),
                );
            }
            return Ok(s);
        }
        i = i + 1;
    }
    assert(all.take(n as int) =~= all);
    Err(
        PlatformError::new(
            PlatformErrorCode::Unsupported,
            "launchd source is not available for configured-state changes",
        ),
    )
}

proof fn lemma_first_source_prefix(s: Seq<LaunchdSource>, id: Seq<char>, j: int)
    requires
        0 <= j <= s.len(),
        first_source_with_id(s.take(j), id) >= 0,
    ensures
        first_source_with_id(s, id) == first_source_with_id(s.take(j), id),
    decreases s.len() - j,
{
    if j < s.len() {
        assert(s.take(j + 1).drop_last() =~= s.take(j));
        lemma_first_source_prefix(s, id, j + 1);
    } else {
        assert(s.take(j) =~= s);
    }
}

/// The capability an item must have for the caller to change it.
pub open spec fn expected_capability(privileged: bool) -> PlatformStartupControlCapability {
    if privileged {
        PlatformStartupControlCapability::ElevationRequired
    } else {
        PlatformStartupControlCapability::Toggleable
    }
}

/// Before changing an item: it must be unchanged since preflight
/// (`unchanged`) and have the capability the caller's privilege expects.
pub fn check_change_preconditions(
    current: &PlatformStartupArtifact,
    unchanged: bool,
    privileged: bool,
) -> (r: Result<(), PlatformError>)
    ensures
        match r {
            Ok(()) => unchanged && current.control_capability == expected_capability(privileged),
            Err(e) => if !unchanged {
                e.code == PlatformErrorCode::ItemChanged && e.message@ == "launchd item changed after preflight"@
            } else {
                current.control_capability != expected_capability(privileged) && e.code
                    == PlatformErrorCode::Unsupported && e.message@ == "launchd item is not toggleable"@
            },
        },
{
    if !unchanged {
        return Err(PlatformError::item_changed("launchd item changed after preflight"));
    }
    let expected = if privileged {
        PlatformStartupControlCapability::ElevationRequired
    } else {
        PlatformStartupControlCapability::Toggleable
    };
    if current.control_capability != expected {
        return Err(PlatformError::new(PlatformErrorCode::Unsupported, "launchd item is not toggleable"));
    }
    Ok(())
}

pub open spec fn desired_configured(desired: PlatformStartupDesiredState) -> PlatformStartupConfiguredState {
    match desired {
        PlatformStartupDesiredState::Disabled => PlatformStartupConfiguredState::Disabled,
        _ => PlatformStartupConfiguredState::Enabled,
    }
}

/// The `launchctl` action and service target that move an item to the
/// desired state, or `None` when it is already there.
pub open spec fn launchctl_change_of(
    domain: LaunchdDomain,
    interactive_user_id: Option<u32>,
    effective_uid: u32,
    label: Seq<char>,
    current: PlatformStartupConfiguredState,
    desired: PlatformStartupDesiredState,
) -> Option<(Seq<char>, Seq<char>)> {
    if current == desired_configured(desired) {
        None
    } else {
        Some(
            (
                if desired == PlatformStartupDesiredState::Enabled {
                    "enable"@
                } else {
                    "disable"@
                },
                domain_target_text(domain, interactive_user_id, effective_uid) + "/"@ + label,
            ),
        )
    }
}

pub fn launchctl_change(
    domain: LaunchdDomain,
    interactive_user_id: Option<u32>,
    effective_uid: u32,
    label: &str,
    current: PlatformStartupConfiguredState,
    desired: PlatformStartupDesiredState,
) -> (r: Option<(String, String)>)
    requires
        desired != PlatformStartupDesiredState::Removed,
    ensures
        match r {
            Some((action, target)) => launchctl_change_of(
                domain,
                interactive_user_id,
                effective_uid,
                label@,
                current,
                desired,
            ) == Some((action@, target@)),
            None => launchctl_change_of(domain, interactive_user_id, effective_uid, label@, current, desired) is None,
        },
{
    let wanted = match desired {
        PlatformStartupDesiredState::Disabled => PlatformStartupConfiguredState::Disabled,
        _ => PlatformStartupConfiguredState::Enabled,
    };
    if current == wanted {
        return None;
    }
    let action = if desired == PlatformStartupDesiredState::Enabled {
        "enable".to_string()
    } else {
        "disable".to_string()
    };
    let mut target = launchd_domain_target(domain, interactive_user_id, effective_uid);
    push_str(&mut target, "/");
    push_str(&mut target, label);
    Some((action, target))
}

/// The result of a change: the state before, the state read back, and
/// whether that is the desired one.
pub fn change_result(
    previous: PlatformStartupConfiguredState,
    verified_state: PlatformStartupConfiguredState,
    desired: PlatformStartupDesiredState,
) -> (r: PlatformStartupChangeResult)
    requires
        desired != PlatformStartupDesiredState::Removed,
    ensures
        r.previous_state == previous,
        r.configured_state == verified_state,
        r.verified == (verified_state == desired_configured(desired)),
{
    let wanted = match desired {
        PlatformStartupDesiredState::Disabled => PlatformStartupConfiguredState::Disabled,
        _ => PlatformStartupConfiguredState::Enabled,
    };
    PlatformStartupChangeResult {
        previous_state: previous,
        configured_state: verified_state,
        verified: verified_state == wanted,
    }
}

/// `Path::parent` as components: the path without its last component,
/// unless that is the root (or there is none).
pub open spec fn parent_components(p: Seq<char>) -> Option<Seq<Seq<char>>> {
    let c = path_components(p);
    if c.len() > 0 && c.last() != seq!['/'] {
        Some(c.drop_last())
    } else {
        None
    }
}

/// A property list may be removed only when it is a regular file (not a
/// link) with the extension `plist`, directly inside one of the source's
/// directories.
pub open spec fn removable(source: LaunchdSource, path: Seq<char>, is_file: bool, is_symlink: bool) -> bool {
    &&& exists|k: int|
        0 <= k < source.paths@.len() && parent_components(path) == Some(
            path_components(#[trigger] source.paths@[k]@),
        )
    &&& is_property_list_path(path)
    &&& is_file
    &&& !is_symlink
}

pub fn check_removal_boundary(source: &LaunchdSource, path: &str, is_file: bool, is_symlink: bool) -> (r: Result<
    (),
    PlatformError,
>)
    ensures
        r is Ok <==> removable(*source, path@, is_file, is_symlink),
        r matches Err(e) ==> e.code == PlatformErrorCode::InvalidPath && e.message@
            == "launchd configuration is outside the removable source boundary"@,
{
    let c = chars_of(path);
    let mut parts = split_path(&c);
    let has_parent = parts.len() > 0 && !(parts[parts.len() - 1].len() == 1 && parts[parts.len() - 1][0] == '/');
    proof {
        if parts@.len() > 0 {
            let l = parts@[parts@.len() - 1]@;
            assert(rows(parts@).last() == l);
            if l == seq!['/'] {
                assert(l[0] == '/');
            }
            if l.len() == 1 && l[0] == '/' {
                assert(l =~= seq!['/']);
            }
        }
    }
    let mut inside = false;
    if has_parent {
        let ghost full = rows(parts@);
        parts.pop();
        assert(rows(parts@) =~= full.drop_last());
        let mut k: usize = 0;
        while k < source.paths.len() && !inside
            invariant
                k <= source.paths@.len(),
                rows(parts@) == parent_components(path@)->0,
                parent_components(path@) is Some,
                inside ==> exists|j: int|
                    0 <= j < source.paths@.len() && parent_components(path@) == Some(
                        path_components(#[trigger] source.paths@[j]@),
                    ),
                !inside ==> forall|j: int|
                    0 <= j < k ==> parent_components(path@) != Some(path_components(#[trigger] source.paths@[j]@)),
            decreases source.paths.len() - k,
        {
            let d = chars_of(source.paths[k].as_str());
            let dp = split_path(&d);
            if crate::paths::rows_equal(&parts, &dp) {
                inside = true;
                assert(parent_components(path@) == Some(path_components(source.paths@[k as int]@)));
            }
            k = k + 1;
        }
    } else {
        assert(parent_components(path@) is None);
    }
    let plist = match extension_chars(&c) {
        Some(e) => ascii_case_equal(&e, "plist"),
        None => false,
    };
    if !inside || !plist || !is_file || is_symlink {
        return Err(PlatformError::invalid_path("launchd configuration is outside the removable source boundary"));
    }
    Ok(())
}

} // verus!

verus! {

/// Among the standard launchd sources, an unprivileged caller may change
/// items of the user's own agents only, and a privileged one items of the
/// local agents and daemons only; system items are never changed.
pub proof fn law_changes_stay_within_their_privilege(home: Option<Seq<char>>, sources: Seq<LaunchdSource>, i: int)
    requires
        launchd_sources_spec(home, sources),
        0 <= i < sources.len(),
    ensures
        may_change_source(sources[i], false) <==> i == 0,
        may_change_source(sources[i], true) <==> (i == 1 || i == 2),
{
    reveal_strlit("macos.launchd.user_agents");
    reveal_strlit("macos.launchd.local_agents");
    reveal_strlit("macos.launchd.local_daemons");
    reveal_strlit("macos.launchd.system_agents");
    reveal_strlit("macos.launchd.system_daemons");
    assert("macos.launchd.system_agents"@[14] != "macos.launchd.local_agents"@[14]);
    assert("macos.launchd.system_daemons"@[14] != "macos.launchd.local_daemons"@[14]);
    assert("macos.launchd.system_agents"@[14] != "macos.launchd.local_daemons"@[14]);
    assert("macos.launchd.system_daemons"@[14] != "macos.launchd.local_agents"@[14]);
    assert("macos.launchd.user_agents"@[14] != "macos.launchd.local_agents"@[14]);
    assert("macos.launchd.user_agents"@[14] != "macos.launchd.local_daemons"@[14]);
}

} // verus!

verus! {

/// The depth of the innermost component that is an `.app` bundle name, 0
/// when there is none.
pub open spec fn innermost_app_depth(c: Seq<Seq<char>>) -> int
    decreases c.len(),
{
    if c.len() == 0 {
        0
    } else if is_normal_component(c.last()) && has_app_extension(c.last()) {
        c.len() as int
    } else {
        innermost_app_depth(c.drop_last())
    }
}

/// Components joined with `/`.
pub open spec fn slash_joined(c: Seq<Seq<char>>) -> Seq<char>
    decreases c.len(),
{
    if c.len() == 0 {
        seq![]
    } else if c.len() == 1 {
        c[0]
    } else {
        slash_joined(c.drop_last()) + seq!['/'] + c.last()
    }
}

/// The path that the components spell, the root written once.
pub open spec fn rendered_path(c: Seq<Seq<char>>) -> Seq<char> {
    if c.len() > 0 && c[0] == seq!['/'] {
        seq!['/'] + slash_joined(c.drop_first())
    } else {
        slash_joined(c)
    }
}

/// The innermost ancestor of `p` (`p` itself included) that is an `.app`
/// bundle.
pub open spec fn enclosing_bundle_of(p: Seq<char>) -> Option<Seq<char>> {
    let c = path_components(p);
    let k = innermost_app_depth(c);
    if k == 0 {
        None
    } else {
        Some(rendered_path(c.take(k)))
    }
}

proof fn lemma_innermost_app_depth(c: Seq<Seq<char>>)
    ensures
        0 <= innermost_app_depth(c) <= c.len(),
        innermost_app_depth(c) > 0 ==> is_normal_component(c[innermost_app_depth(c) - 1]) && has_app_extension(
            c[innermost_app_depth(c) - 1],
        ),
    decreases c.len(),
{
    if c.len() > 0 && !(is_normal_component(c.last()) && has_app_extension(c.last())) {
        lemma_innermost_app_depth(c.drop_last());
    }
}

fn join_rows(parts: &Vec<Vec<char>>, from: usize, to: usize) -> (r: Vec<char>)
    requires
        from <= to <= parts@.len(),
    ensures
        r@ == slash_joined(rows(parts@).subrange(from as int, to as int)),
{
    let mut r: Vec<char> = Vec::new();
    let mut i: usize = from;
    while i < to
        invariant
            from <= i <= to <= parts@.len(),
            r@ == slash_joined(rows(parts@).subrange(from as int, i as int)),
        decreases to - i,
    {
        let ghost before = r@;
        let ghost sub = rows(parts@).subrange(from as int, i + 1);
        assert(sub.drop_last() =~= rows(parts@).subrange(from as int, i as int));
        assert(sub.last() == parts@[i as int]@);
        if i > from {
            r.push('/');
        }
        let piece = &parts[i];
        let mut j: usize = 0;
        let ghost mid = r@;
        while j < piece.len()
            invariant
                j <= piece@.len(),
                r@ == mid + piece@.take(j as int),
            decreases piece.len() - j,
        {
            r.push(piece[j]);
            assert(piece@.take(j + 1) =~= piece@.take(j as int).push(piece@[j as int]));
            j = j + 1;
        }
        assert(piece@.take(j as int) =~= piece@);
        proof {
            if i == from {
                assert(sub.len() == 1);
                assert(before =~= Seq::<char>::empty());
                assert(r@ =~= sub[0]);
            } else {
                assert(r@ =~= before + seq!['/'] + sub.last());
            }
        }
        i = i + 1;
    }
    r
}

/// The innermost `.app` bundle that contains the target, or the target
/// itself when it is one.
pub fn enclosing_app_bundle(target: &str) -> (r: Option<String>)
    ensures
        text_of(r) == enclosing_bundle_of(target@),
{
    let p = chars_of(target);
    let parts = split_path(&p);
    let ghost c = path_components(target@);
    proof {
        lemma_innermost_app_depth(c);
    }
    let mut k: usize = parts.len();
    assert(c.take(k as int) =~= c);
    while k > 0 && !(crate::paths::is_normal(&parts[k - 1]) && app_extension(&parts[k - 1]))
        invariant
            k <= parts@.len(),
            rows(parts@) == c,
            innermost_app_depth(c) == innermost_app_depth(c.take(k as int)),
        decreases k,
    {
        assert(c.take(k as int).drop_last() =~= c.take(k - 1));
        assert(c.take(k as int).last() == parts@[k - 1]@);
        k = k - 1;
    }
    if k == 0 {
        assert(c.take(0) =~= Seq::<Seq<char>>::empty());
        return None;
    }
    assert(c.take(k as int).last() == parts@[k - 1]@);
    assert(innermost_app_depth(c) == k);
    let rooted = parts[0].len() == 1 && parts[0][0] == '/';
    let joined = if rooted {
        let mut v: Vec<char> = Vec::new();
        v.push('/');
        let rest = join_rows(&parts, 1, k);
        let mut j: usize = 0;
        while j < rest.len()
            invariant
                j <= rest@.len(),
                v@ == seq!['/'] + rest@.take(j as int),
            decreases rest.len() - j,
        {
            v.push(rest[j]);
            assert(rest@.take(j + 1) =~= rest@.take(j as int).push(rest@[j as int]));
            j = j + 1;
        }
        assert(rest@.take(j as int) =~= rest@);
        assert(c.take(k as int).drop_first() =~= rows(parts@).subrange(1, k as int));
        assert(c.take(k as int)[0] =~= seq!['/']);
        v
    } else {
        proof {
            if c.take(k as int)[0] == seq!['/'] {
                assert(parts@[0]@ == seq!['/']);
            }
        }
        assert(c.take(k as int) =~= rows(parts@).subrange(0, k as int));
        join_rows(&parts, 0, k)
    };
    Some(string_from_chars(&joined))
}

/// What a code-signature inspection of a target reported.
pub struct SignatureEvidence {
    pub team_id: Option<String>,
    pub publisher: Option<String>,
    pub trust: PlatformStartupTrustState,
}

/// The string values of a bundle's `Info.plist` (`None` when a key is
/// absent or not a string).
pub struct BundleInfo {
    pub identifier: Option<String>,
    pub display_name: Option<String>,
    pub bundle_name: Option<String>,
    pub short_version: Option<String>,
}

/// The owner of a target outside any bundle: known by its signing team
/// (strong) when signed, otherwise unresolved; named after the target file,
/// whose icon is the target itself when it exists.
pub open spec fn outside_bundle_owner(
    o: PlatformStartupOwner,
    target: Seq<char>,
    target_exists: bool,
    signature: SignatureEvidence,
) -> bool {
    &&& text_of(o.identity_key) == match signature.team_id {
        Some(t) => Some("team:"@ + t@),
        None => None,
    }
    &&& text_of(o.name) == file_name(target)
    &&& o.publisher == signature.publisher
    &&& o.summary is None
    &&& o.summary_source == PlatformStartupSummarySource::Unavailable
    &&& o.version is None
    &&& text_of(o.icon_path) == if target_exists {
        Some(target)
    } else {
        None
    }
    &&& o.confidence == if signature.team_id is Some {
        PlatformStartupIdentityConfidence::Strong
    } else {
        PlatformStartupIdentityConfidence::Unresolved
    }
}

pub fn owner_outside_bundle(target: &str, target_exists: bool, signature: SignatureEvidence) -> (r: (
    PlatformStartupOwner,
    PlatformStartupTrustState,
))
    ensures
        outside_bundle_owner(r.0, target@, target_exists, signature),
        r.1 == signature.trust,
{
    let identity_key = match &signature.team_id {
        Some(t) => {
            let mut k = "team:".to_string();
            push_str(&mut k, t.as_str());
            Some(k)
        },
        None => None,
    };
    let name = match file_name_chars(&chars_of(target)) {
        Some(n) => Some(string_from_chars(&n)),
        None => None,
    };
    let confidence = if signature.team_id.is_some() {
        PlatformStartupIdentityConfidence::Strong
    } else {
        PlatformStartupIdentityConfidence::Unresolved
    };
    (
        PlatformStartupOwner {
            identity_key,
            name,
            publisher: signature.publisher,
            summary: None,
            summary_source: PlatformStartupSummarySource::Unavailable,
            version: None,
            icon_path: if target_exists {
                Some(target.to_string())
            } else {
                None
            },
            confidence,
        },
        signature.trust,
    )
}

/// The owner of a target inside the bundle `bundle`: unresolved with
/// unknown trust when the bundle's metadata could not be read; otherwise
/// known by its bundle identifier (exact) or just by its bundle (strong),
/// named by its display name, bundle name or file stem, with the bundle's
/// version and the bundle as icon. Blank metadata values count as absent.
pub open spec fn bundle_owner(
    o: PlatformStartupOwner,
    trust: PlatformStartupTrustState,
    bundle: Seq<char>,
    info: Option<BundleInfo>,
    signature: SignatureEvidence,
) -> bool {
    match info {
        None => is_unresolved_owner(o) && trust == PlatformStartupTrustState::Unknown,
        Some(i) => {
            &&& text_of(o.identity_key) == match meaningful(i.identifier) {
                Some(id) => Some("bundle:"@ + id),
                None => None,
            }
            &&& text_of(o.name) == match meaningful(i.display_name) {
                Some(n) => Some(n),
                None => match meaningful(i.bundle_name) {
                    Some(n) => Some(n),
                    None => file_stem(bundle),
                },
            }
            &&& o.publisher == signature.publisher
            &&& o.summary is None
            &&& o.summary_source == PlatformStartupSummarySource::BundleMetadata
            &&& text_of(o.version) == meaningful(i.short_version)
            &&& text_of(o.icon_path) == Some(bundle)
            &&& o.confidence == if meaningful(i.identifier) is Some {
                PlatformStartupIdentityConfidence::Exact
            } else {
                PlatformStartupIdentityConfidence::Strong
            }
            &&& trust == signature.trust
        },
    }
}

pub fn owner_from_bundle(bundle: &str, info: Option<BundleInfo>, signature: SignatureEvidence) -> (r: (
    PlatformStartupOwner,
    PlatformStartupTrustState,
))
    ensures
        bundle_owner(r.0, r.1, bundle@, info, signature),
{
    let info = match info {
        Some(i) => i,
        None => {
            return (unresolved_owner(), PlatformStartupTrustState::Unknown);
        },
    };
    let identity_key = match meaningful_text(&info.identifier) {
        Some(id) => {
            let mut k = "bundle:".to_string();
            push_str(&mut k, id.as_str());
            Some(k)
        },
        None => None,
    };
    let name = match meaningful_text(&info.display_name) {
        Some(n) => Some(n),
        None => match meaningful_text(&info.bundle_name) {
            Some(n) => Some(n),
            None => file_stem_text(bundle),
        },
    };
    let confidence = if identity_key.is_some() {
        PlatformStartupIdentityConfidence::Exact
    } else {
        PlatformStartupIdentityConfidence::Strong
    };
    (
        PlatformStartupOwner {
            identity_key,
            name,
            publisher: signature.publisher,
            summary: None,
            summary_source: PlatformStartupSummarySource::BundleMetadata,
            version: meaningful_text(&info.short_version),
            icon_path: Some(bundle.to_string()),
            confidence,
        },
        signature.trust,
    )
}

/// How reading one launchd directory went.
#[derive(Debug, Clone, Copy, PartialEq, Eq, Structural)]
pub enum DirectoryListing {
    Listed,
    /// The directory does not exist: nothing to report.
    NotFound,
    PermissionDenied,
    Failed,
}

/// The coverage issue of a directory read: a missing directory is simply
/// empty, a refused one limits coverage by access, any other failure by
/// invalid data.
pub fn directory_issue(listing: DirectoryListing) -> (r: Option<ScanIssue>)
    ensures
        r == match listing {
            DirectoryListing::PermissionDenied => Some(ScanIssue::AccessDenied),
            DirectoryListing::Failed => Some(ScanIssue::InvalidData),
            _ => None::<ScanIssue>,
        },
{
    match listing {
        DirectoryListing::PermissionDenied => Some(ScanIssue::AccessDenied),
        DirectoryListing::Failed => Some(ScanIssue::InvalidData),
        _ => None,
    }
}

/// What became of one directory entry while reading a launchd source.
#[derive(Debug, Clone, Copy, PartialEq, Eq, Structural)]
pub enum PropertyListEntry {
    /// The entry itself could not be read.
    Unreadable,
    /// The name does not end in `.plist` (any ASCII case).
    NotPropertyList,
    /// Its metadata could not be read.
    MetadataUnreadable,
    /// It is a link or not a regular file.
    NotRegularFile,
    /// The property list did not parse.
    Unparsable,
    /// Its root is not a dictionary.
    NotDictionary,
    /// The dictionary names no label, program or program argument.
    NoIdentity,
    /// A launchd job.
    Job,
}

/// The coverage issue an entry records: entries that are not property
/// lists or not regular files are passed over silently; every entry that
/// should have been a job but could not be read as one limits coverage by
/// invalid data.
pub fn entry_issue(entry: PropertyListEntry) -> (r: Option<ScanIssue>)
    ensures
        r == match entry {
            PropertyListEntry::NotPropertyList | PropertyListEntry::NotRegularFile | PropertyListEntry::Job => None::<
                ScanIssue,
            >,
            _ => Some(ScanIssue::InvalidData),
        },
{
    match entry {
        PropertyListEntry::NotPropertyList | PropertyListEntry::NotRegularFile | PropertyListEntry::Job => None,
        _ => Some(ScanIssue::InvalidData),
    }
}

pub open spec fn is_property_list_path(p: Seq<char>) -> bool {
    match path_extension(p) {
        Some(e) => crate::paths::eq_ignore_ascii_case(e, "plist"@),
        None => false,
    }
}

/// Whether a path names a property list: its extension is `plist` in any
/// ASCII case.
pub fn is_property_list(path: &str) -> (r: bool)
    ensures
        r == is_property_list_path(path@),
{
    match extension_chars(&chars_of(path)) {
        Some(e) => ascii_case_equal(&e, "plist"),
        None => false,
    }
}

} // verus!

verus! {

proof fn lemma_value_of_first<V>(s: Seq<(String, V)>, k: Seq<char>, i: int)
    requires
        0 <= i < s.len(),
        s[i].0@ == k,
        forall|m: int| 0 <= m < i ==> s[m].0@ != k,
    ensures
        crate::text::value_of(s, k) == Some(s[i].1),
    decreases i,
{
    if i > 0 {
        assert(s.drop_first()[i - 1] == s[i]);
        assert forall|m: int| 0 <= m < i - 1 implies s.drop_first()[m].0@ != k by {
            assert(s.drop_first()[m] == s[m + 1]);
        }
        lemma_value_of_first(s.drop_first(), k, i - 1);
    }
}

/// When the launchd overrides hold the job's label, they decide its
/// configured state, whatever the property list's `Disabled` key says: an
/// override of `true` means disabled and one of `false` means enabled.
pub proof fn law_override_decides_configured_state(
    disabled: Option<bool>,
    label: Seq<char>,
    overrides: Seq<(String, bool)>,
    i: int,
)
    requires
        0 <= i < overrides.len(),
        overrides[i].0@ == label,
        forall|m: int| 0 <= m < i ==> overrides[m].0@ != label,
    ensures
        configured_state_of(disabled, Some(label), Some(overrides)) == if overrides[i].1 {
            PlatformStartupConfiguredState::Disabled
        } else {
            PlatformStartupConfiguredState::Enabled
        },
{
    lemma_value_of_first(overrides, label, i);
}

/// Without an override for the job, its property list decides: `Disabled`
/// true means disabled and false enabled; with no key, a job is enabled
/// when overrides were read and its state unknown when they were not.
pub proof fn law_property_list_decides_without_override(
    disabled: Option<bool>,
    label: Option<Seq<char>>,
    overrides: Option<Seq<(String, bool)>>,
)
    requires
        label is None || overrides is None || forall|m: int|
            0 <= m < overrides->0.len() ==> (#[trigger] overrides->0[m]).0@ != label->0,
    ensures
        configured_state_of(disabled, label, overrides) == match disabled {
            Some(true) => PlatformStartupConfiguredState::Disabled,
            Some(false) => PlatformStartupConfiguredState::Enabled,
            None => if overrides is Some {
                PlatformStartupConfiguredState::Enabled
            } else {
                PlatformStartupConfiguredState::Unknown
            },
        },
{
    if label is Some && overrides is Some {
        crate::text::lemma_value_of_absent(overrides->0, label->0);
    }
}

} // verus!
