//! Matching of running macOS processes against application close targets.
//!
//! The process snapshot (`/bin/ps`), the close requests (AppKit and signals)
//! and the polling loop run outside; this module parses the snapshot lines,
//! decides which processes belong to a target and assembles the results.
use vstd::prelude::*;

use crate::platform::{PlatformError, PlatformErrorCode};
use crate::paths::{
    app_extension, file_name, file_name_chars, has_app_extension, path_components, path_starts_with,
    rows, rows_equal, rows_prefix, split_path,
};
use crate::names::{dedup_ignoring_case, lemma_dedup_adjacent, sorted_by_lowercase, sorted_unique_ignoring_case};
use crate::plan::texts;
use crate::text::{
    char_is_space, chars_of, is_space, string_from_chars, trim, trim_chars, trim_end_char, trim_end_char_chars,
};

verus! {

/// One running process from a snapshot.
pub struct ProcessInstance {
    pub pid: i32,
    pub executable_path: String,
    pub display_name: String,
}

/// The identity of an application whose processes should be closed.
pub struct ApplicationProcessTarget {
    pub executable_names: Vec<String>,
    pub executable_paths: Vec<String>,
}

#[derive(Debug, Clone, Copy, PartialEq, Eq, Structural)]
pub enum ApplicationProcessCloseMode {
    Graceful,
    Force,
}

/// What closing one target achieved.
pub struct ApplicationProcessCloseResult {
    pub matched_process_count: u64,
    pub requested_process_count: u64,
    pub remaining_processes: Vec<String>,
}

/// Value of a run of ASCII digits.
pub open spec fn digits_value(s: Seq<char>) -> nat
    decreases s.len(),
{
    if s.len() == 0 {
        0
    } else {
        digits_value(s.drop_last()) * 10 + (s.last() as nat - '0' as nat) as nat
    }
}

pub open spec fn all_digits(s: Seq<char>) -> bool {
    forall|i: int| 0 <= i < s.len() ==> '0' <= #[trigger] s[i] <= '9'
}

/// `str::parse::<i32>`: an optional sign, then at least one ASCII digit,
/// within the range of `i32`.
pub open spec fn parsed_i32(s: Seq<char>) -> Option<int> {
    let signed = s.len() > 0 && (s[0] == '-' || s[0] == '+');
    let digits = if signed {
        s.drop_first()
    } else {
        s
    };
    if digits.len() == 0 || !all_digits(digits) {
        None
    } else {
        let n = if s[0] == '-' {
            -digits_value(digits)
        } else {
            digits_value(digits) as int
        };
        if i32::MIN <= n <= i32::MAX {
            Some(n)
        } else {
            None
        }
    }
}

/// Index of the first whitespace character, or -1.
pub open spec fn first_space(s: Seq<char>) -> int
    decreases s.len(),
{
    if s.len() == 0 {
        -1
    } else if first_space(s.drop_last()) >= 0 {
        first_space(s.drop_last())
    } else if is_space(s.last()) {
        s.len() - 1
    } else {
        -1
    }
}

/// The process a `ps -axo pid=,comm=` line describes: its pid, executable
/// path and display name (the path's file name, else the whole path).
pub open spec fn parsed_process(line: Seq<char>) -> Option<(int, Seq<char>, Seq<char>)> {
    let t = trim(line);
    let sep = first_space(t);
    if sep < 0 {
        None
    } else {
        match parsed_i32(t.take(sep)) {
            None => None,
            Some(pid) => {
                let exe = trim(t.skip(sep));
                if exe.len() == 0 {
                    None
                } else {
                    let name = match file_name(exe) {
                        Some(n) => n,
                        None => exe,
                    };
                    Some((pid, exe, name))
                }
            },
        }
    }
}

proof fn lemma_digits_grow(s: Seq<char>, i: int)
    requires
        0 <= i <= s.len(),
        all_digits(s),
    ensures
        digits_value(s.take(i)) <= digits_value(s),
    decreases s.len() - i,
{
    if i < s.len() {
        lemma_digits_grow(s, i + 1);
        assert(s.take(i + 1).drop_last() =~= s.take(i));
        assert('0' <= s[i] <= '9');
    } else {
        assert(s.take(i) =~= s);
    }
}

fn parse_i32_chars(s: &Vec<char>) -> (r: Option<i32>)
    ensures
        match r {
            Some(n) => parsed_i32(s@) == Some(n as int),
            None => parsed_i32(s@) is None,
        },
{
    let signed = s.len() > 0 && (s[0] == '-' || s[0] == '+');
    let start: usize = if signed {
        1
    } else {
        0
    };
    let ghost digits = if signed {
        s@.drop_first()
    } else {
        s@
    };
    assert(digits =~= s@.skip(start as int));
    if s.len() <= start {
        return None;
    }
    let cap: u64 = 0x1_0000_0000;
    let mut v: u64 = 0;
    let mut i: usize = start;
    assert(digits.take(0) =~= Seq::<char>::empty());
    while i < s.len()
        invariant
            start <= i <= s@.len(),
            digits =~= s@.skip(start as int),
            signed == (s@.len() > 0 && (s@[0] == '-' || s@[0] == '+')),
            digits == if signed {
                s@.drop_first()
            } else {
                s@
            },
            cap == 0x1_0000_0000,
            all_digits(digits.take(i - start)),
            v == if digits_value(digits.take(i - start)) < cap {
                digits_value(digits.take(i - start))
            } else {
                cap as nat
            },
        decreases s.len() - i,
    {
        let c = s[i];
        if !('0' <= c && c <= '9') {
            assert(digits[i - start] == c);
            assert(!all_digits(digits));
            return None;
        }
        let d = (c as u32 - '0' as u32) as u64;
        let ghost before = digits.take(i - start);
        assert(digits.take(i + 1 - start).drop_last() =~= before);
        assert(digits.take(i + 1 - start).last() == c);
        assert(digits_value(digits.take(i + 1 - start)) == digits_value(before) * 10 + d);
        let next = v * 10 + d;
        v = if next < cap {
            next
        } else {
            cap
        };
        i = i + 1;
    }
    assert(digits.take(s.len() - start) =~= digits);
    if s[0] == '-' {
        if v <= 0x8000_0000 {
            let n: i64 = 0 - (v as i64);
            Some(n as i32)
        } else {
            None
        }
    } else {
        if v <= 0x7fff_ffff {
            Some(v as i32)
        } else {
            None
        }
    }
}

/// Parses one line of `ps -axo pid=,comm=` output.
pub fn parse_process_line(line: &str) -> (r: Option<ProcessInstance>)
    ensures
        match r {
            Some(p) => parsed_process(line@) == Some(
                (p.pid as int, p.executable_path@, p.display_name@),
            ),
            None => parsed_process(line@) is None,
        },
{
    let all = chars_of(line);
    let t = trim_chars(&all);
    let mut sep: usize = 0;
    while sep < t.len() && !char_is_space(t[sep])
        invariant
            sep <= t@.len(),
            first_space(t@.take(sep as int)) == -1,
        decreases t.len() - sep,
    {
        assert(t@.take(sep + 1).drop_last() =~= t@.take(sep as int));
        sep = sep + 1;
    }
    proof {
        lemma_first_space(t@, sep as int);
    }
    if sep == t.len() {
        return None;
    }
    let mut head: Vec<char> = Vec::new();
    let mut k: usize = 0;
    while k < sep
        invariant
            k <= sep < t@.len(),
            head@ == t@.take(k as int),
        decreases sep - k,
    {
        head.push(t[k]);
        assert(t@.take(k + 1) =~= t@.take(k as int).push(t@[k as int]));
        k = k + 1;
    }
    let pid = match parse_i32_chars(&head) {
        Some(pid) => pid,
        None => {
            return None;
        },
    };
    let mut tail: Vec<char> = Vec::new();
    let mut m: usize = sep;
    while m < t.len()
        invariant
            sep <= m <= t@.len(),
            tail@ == t@.subrange(sep as int, m as int),
        decreases t.len() - m,
    {
        tail.push(t[m]);
        assert(t@.subrange(sep as int, m + 1) =~= t@.subrange(sep as int, m as int).push(t@[m as int]));
        m = m + 1;
    }
    assert(t@.subrange(sep as int, t@.len() as int) =~= t@.skip(sep as int));
    let exe = trim_chars(&tail);
    if exe.len() == 0 {
        return None;
    }
    let name = match file_name_chars(&exe) {
        Some(n) => n,
        None => exe.clone(),
    };
    Some(
        ProcessInstance {
            pid,
            executable_path: string_from_chars(&exe),
            display_name: string_from_chars(&name),
        },
    )
}

proof fn lemma_first_space(s: Seq<char>, k: int)
    requires
        0 <= k <= s.len(),
        first_space(s.take(k)) == -1,
        k == s.len() || is_space(s[k]),
    ensures
        first_space(s) == if k == s.len() {
            -1
        } else {
            k
        },
{
    if k < s.len() {
        assert(s.take(k + 1).drop_last() =~= s.take(k));
        assert(first_space(s.take(k + 1)) == k);
        lemma_first_space_prefix(s, k + 1);
    } else {
        assert(s.take(k) =~= s);
    }
}

proof fn lemma_first_space_prefix(s: Seq<char>, j: int)
    requires
        0 <= j <= s.len(),
        first_space(s.take(j)) >= 0,
    ensures
        first_space(s) == first_space(s.take(j)),
    decreases s.len() - j,
{
    if j < s.len() {
        assert(s.take(j + 1).drop_last() =~= s.take(j));
        lemma_first_space_prefix(s, j + 1);
    } else {
        assert(s.take(j) =~= s);
    }
}

} // verus!

verus! {

/// What `str::to_lowercase` returns for a text (full Unicode lower-casing).
pub uninterp spec fn unicode_lowercase(s: Seq<char>) -> Seq<char>;

/// Unicode lower-casing of a text (`str::to_lowercase`). Trusted: the result
/// is the standard library's lower-casing of `s`, named `unicode_lowercase`,
/// and a text of ASCII characters only is lower-cased character by character
/// in ASCII (each of `A`..`Z` maps to its lowercase letter, every other ASCII
/// character to itself), as Unicode's lowercase mapping gives it.
#[verifier::external_body]
fn lowercase(s: &str) -> (r: String)
    ensures
        r@ == unicode_lowercase(s@),
        (forall|i: int| 0 <= i < s@.len() ==> (#[trigger] s@[i]) as u32 <= 0x7f) ==> r@ == s@.map_values(
            |c: char| crate::text::ascii_lower(c),
        ),
{
    s.to_lowercase()
}

/// How a process or target name is compared: the file name of the trimmed
/// text (empty when it has none), lower-cased.
pub open spec fn normalized_name(name: Seq<char>) -> Seq<char> {
    unicode_lowercase(
        match file_name(trim(name)) {
            Some(n) => n,
            None => seq![],
        },
    )
}

pub fn normalize_name(name: &str) -> (r: String)
    ensures
        r@ == normalized_name(name@),
{
    let all = chars_of(name);
    let t = trim_chars(&all);
    let base = match file_name_chars(&t) {
        Some(n) => string_from_chars(&n),
        None => String::new(),
    };
    lowercase(base.as_str())
}

/// A path without trailing separators.
pub open spec fn normalized_path(path: Seq<char>) -> Seq<char> {
    trim_end_char(path, '/')
}

pub fn normalize_path(path: &str) -> (r: Vec<char>)
    ensures
        r@ == normalized_path(path@),
{
    let all = chars_of(path);
    trim_end_char_chars(&all, '/')
}

pub open spec fn contents_component() -> Seq<char> {
    seq!['C', 'o', 'n', 't', 'e', 'n', 't', 's']
}

/// A process belongs to a (normalized) target path when its normalized
/// executable is that path, or when the target is an application bundle
/// (extension `app`) and the executable lies below its `Contents`.
pub open spec fn process_matches_path_spec(executable: Seq<char>, target: Seq<char>) -> bool {
    let e = normalized_path(executable);
    path_components(e) == path_components(target) || (match file_name(target) {
        Some(n) => has_app_extension(n),
        None => false,
    } && path_starts_with(e, path_components(target).push(contents_component())))
}

pub fn process_matches_path(process: &ProcessInstance, target_path: &Vec<char>) -> (r: bool)
    ensures
        r == process_matches_path_spec(process.executable_path@, target_path@),
{
    let executable = normalize_path(process.executable_path.as_str());
    let exe_parts = split_path(&executable);
    let mut target_parts = split_path(target_path);
    if rows_equal(&exe_parts, &target_parts) {
        return true;
    }
    let is_bundle = match file_name_chars(target_path) {
        Some(n) => app_extension(&n),
        None => false,
    };
    if !is_bundle {
        return false;
    }
    let mut contents: Vec<char> = Vec::new();
    contents.push('C');
    contents.push('o');
    contents.push('n');
    contents.push('t');
    contents.push('e');
    contents.push('n');
    contents.push('t');
    contents.push('s');
    assert(contents@ =~= contents_component());
    let ghost before = target_parts@;
    target_parts.push(contents);
    assert(rows(target_parts@) =~= rows(before).push(contents_component()));
    rows_prefix(&exe_parts, &target_parts)
}

/// The bundle name of a component `<name>.app`.
pub open spec fn bundle_stem(c: Seq<char>) -> Option<Seq<char>> {
    if c.len() >= 4 && c.skip(c.len() - 4) == seq!['.', 'a', 'p', 'p'] {
        Some(c.take(c.len() - 4))
    } else {
        None
    }
}

/// Some component `<name>.app` of the executable path has a normalized
/// name among `names`.
pub open spec fn runs_inside_named_bundle(executable: Seq<char>, names: Seq<Seq<char>>) -> bool {
    exists|i: int|
        #![trigger path_components(executable)[i]]
        0 <= i < path_components(executable).len() && match bundle_stem(path_components(executable)[i]) {
            Some(stem) => names.contains(normalized_name(stem)),
            None => false,
        }
}

fn contains_text(values: &Vec<Vec<char>>, x: &Vec<char>) -> (r: bool)
    ensures
        r == rows(values@).contains(x@),
{
    let mut i: usize = 0;
    while i < values.len()
        invariant
            i <= values@.len(),
            forall|j: int| 0 <= j < i ==> #[trigger] rows(values@)[j] != x@,
        decreases values.len() - i,
    {
        if crate::text::chars_equal(&values[i], x) {
            assert(rows(values@)[i as int] == x@);
            return true;
        }
        i = i + 1;
    }
    false
}

fn bundle_stem_of(c: &Vec<char>) -> (r: Option<Vec<char>>)
    ensures
        match r {
            Some(stem) => bundle_stem(c@) == Some(stem@),
            None => bundle_stem(c@) is None,
        },
{
    let n = c.len();
    if n < 4 {
        return None;
    }
    let suffix = c[n - 4] == '.' && c[n - 3] == 'a' && c[n - 2] == 'p' && c[n - 1] == 'p';
    let ghost tail = c@.skip(n - 4);
    assert(tail[0] == c@[n - 4] && tail[1] == c@[n - 3] && tail[2] == c@[n - 2] && tail[3] == c@[n - 1]);
    if !suffix {
        proof {
            if tail == seq!['.', 'a', 'p', 'p'] {
                assert(tail[0] == '.' && tail[1] == 'a' && tail[2] == 'p' && tail[3] == 'p');
            }
        }
        return None;
    }
    assert(tail =~= seq!['.', 'a', 'p', 'p']);
    let mut stem: Vec<char> = Vec::new();
    let mut i: usize = 0;
    while i < n - 4
        invariant
            n == c@.len(),
            n >= 4,
            i <= n - 4,
            stem@ == c@.take(i as int),
        decreases n - 4 - i,
    {
        stem.push(c[i]);
        assert(c@.take(i + 1) =~= c@.take(i as int).push(c@[i as int]));
        i = i + 1;
    }
    Some(stem)
}

pub fn process_runs_inside_named_bundle(process: &ProcessInstance, names: &Vec<Vec<char>>) -> (r: bool)
    ensures
        r == runs_inside_named_bundle(process.executable_path@, rows(names@)),
{
    let path = chars_of(process.executable_path.as_str());
    let parts = split_path(&path);
    let ghost comps = path_components(process.executable_path@);
    let mut i: usize = 0;
    while i < parts.len()
        invariant
            i <= parts@.len(),
            rows(parts@) == comps,
            comps == path_components(process.executable_path@),
            forall|j: int|
                0 <= j < i ==> match bundle_stem(#[trigger] comps[j]) {
                    Some(stem) => !rows(names@).contains(normalized_name(stem)),
                    None => true,
                },
        decreases parts.len() - i,
    {
        assert(comps[i as int] == parts@[i as int]@);
        match bundle_stem_of(&parts[i]) {
            Some(stem) => {
                let text = string_from_chars(&stem);
                let normalized = normalize_name(text.as_str());
                let probe = chars_of(normalized.as_str());
                if contains_text(names, &probe) {
                    return true;
                }
            },
            None => {},
        }
        i = i + 1;
    }
    false
}

} // verus!

verus! {

pub open spec fn target_names(target: ApplicationProcessTarget) -> Seq<Seq<char>> {
    target.executable_names@.map_values(|n: String| normalized_name(n@))
}

pub open spec fn target_paths(target: ApplicationProcessTarget) -> Seq<Seq<char>> {
    target.executable_paths@.map_values(|p: String| normalized_path(p@))
}

/// A process other than this one belongs to the target: by one of its exact
/// paths when it has any, else by name or by the bundle that contains it.
pub open spec fn process_selected(process: ProcessInstance, target: ApplicationProcessTarget, own_pid: i32) -> bool {
    process.pid != own_pid && if target.executable_paths@.len() == 0 {
        target_names(target).contains(normalized_name(process.display_name@))
            || runs_inside_named_bundle(process.executable_path@, target_names(target))
    } else {
        exists|j: int|
            0 <= j < target_paths(target).len() && #[trigger] process_matches_path_spec(
                process.executable_path@,
                target_paths(target)[j],
            )
    }
}

/// The snapshot processes that belong to the target, in snapshot order.
pub open spec fn selected_processes(
    snapshot: Seq<ProcessInstance>,
    target: ApplicationProcessTarget,
    own_pid: i32,
) -> Seq<ProcessInstance>
    decreases snapshot.len(),
{
    if snapshot.len() == 0 {
        seq![]
    } else {
        let r = selected_processes(snapshot.drop_last(), target, own_pid);
        if process_selected(snapshot.last(), target, own_pid) {
            r.push(snapshot.last())
        } else {
            r
        }
    }
}

pub fn copy_process(p: &ProcessInstance) -> (q: ProcessInstance)
    ensures
        q == *p,
{
    ProcessInstance {
        pid: p.pid,
        executable_path: p.executable_path.clone(),
        display_name: p.display_name.clone(),
    }
}

fn normalized_target_names(target: &ApplicationProcessTarget) -> (names: Vec<Vec<char>>)
    ensures
        rows(names@) == target_names(*target),
{
    let mut names: Vec<Vec<char>> = Vec::new();
    let mut i: usize = 0;
    while i < target.executable_names.len()
        invariant
            i <= target.executable_names@.len(),
            rows(names@) == target_names(*target).take(i as int),
        decreases target.executable_names.len() - i,
    {
        let n = normalize_name(target.executable_names[i].as_str());
        let ghost before = names@;
        names.push(chars_of(n.as_str()));
        assert(rows(names@) =~= rows(before).push(n@));
        assert(target_names(*target).take(i + 1) =~= target_names(*target).take(i as int).push(n@));
        i = i + 1;
    }
    assert(target_names(*target).take(i as int) =~= target_names(*target));
    names
}

fn normalized_target_paths(target: &ApplicationProcessTarget) -> (paths: Vec<Vec<char>>)
    ensures
        rows(paths@) == target_paths(*target),
{
    let mut paths: Vec<Vec<char>> = Vec::new();
    let mut i: usize = 0;
    while i < target.executable_paths.len()
        invariant
            i <= target.executable_paths@.len(),
            rows(paths@) == target_paths(*target).take(i as int),
        decreases target.executable_paths.len() - i,
    {
        let p = normalize_path(target.executable_paths[i].as_str());
        let ghost before = paths@;
        let ghost pv = p@;
        paths.push(p);
        assert(rows(paths@) =~= rows(before).push(pv));
        assert(target_paths(*target).take(i + 1) =~= target_paths(*target).take(i as int).push(pv));
        i = i + 1;
    }
    assert(target_paths(*target).take(i as int) =~= target_paths(*target));
    paths
}

fn is_selected(
    process: &ProcessInstance,
    target: &ApplicationProcessTarget,
    names: &Vec<Vec<char>>,
    paths: &Vec<Vec<char>>,
    own_pid: i32,
) -> (r: bool)
    requires
        rows(names@) == target_names(*target),
        rows(paths@) == target_paths(*target),
    ensures
        r == process_selected(*process, *target, own_pid),
{
    if process.pid == own_pid {
        return false;
    }
    if target.executable_paths.len() == 0 {
        let n = normalize_name(process.display_name.as_str());
        let probe = chars_of(n.as_str());
        contains_text(names, &probe) || process_runs_inside_named_bundle(process, names)
    } else {
        let mut j: usize = 0;
        while j < paths.len()
            invariant
                j <= paths@.len(),
                rows(paths@) == target_paths(*target),
                process.pid != own_pid,
                target.executable_paths@.len() > 0,
                forall|m: int|
                    0 <= m < j ==> !#[trigger] process_matches_path_spec(
                        process.executable_path@,
                        target_paths(*target)[m],
                    ),
            decreases paths.len() - j,
        {
            assert(target_paths(*target)[j as int] == paths@[j as int]@);
            if process_matches_path(process, &paths[j]) {
                assert(process_matches_path_spec(process.executable_path@, target_paths(*target)[j as int]));
                return true;
            }
            j = j + 1;
        }
        false
    }
}

/// The processes of a snapshot that belong to the target, excluding the
/// process `own_pid` (the caller itself).
pub fn matching_processes_in_snapshot(
    target: &ApplicationProcessTarget,
    snapshot: &Vec<ProcessInstance>,
    own_pid: i32,
) -> (r: Vec<ProcessInstance>)
    ensures
        r@ == selected_processes(snapshot@, *target, own_pid),
{
    let names = normalized_target_names(target);
    let paths = normalized_target_paths(target);
    let mut out: Vec<ProcessInstance> = Vec::new();
    let mut i: usize = 0;
    while i < snapshot.len()
        invariant
            i <= snapshot@.len(),
            rows(names@) == target_names(*target),
            rows(paths@) == target_paths(*target),
            out@ == selected_processes(snapshot@.take(i as int), *target, own_pid),
        decreases snapshot.len() - i,
    {
        assert(snapshot@.take(i + 1).drop_last() =~= snapshot@.take(i as int));
        assert(snapshot@.take(i + 1).last() == snapshot@[i as int]);
        if is_selected(&snapshot[i], target, &names, &paths, own_pid) {
            out.push(copy_process(&snapshot[i]));
        }
        i = i + 1;
    }
    assert(snapshot@.take(i as int) =~= snapshot@);
    out
}

} // verus!

verus! {

pub open spec fn display_names(processes: Seq<ProcessInstance>) -> Seq<Seq<char>> {
    processes.map_values(|p: ProcessInstance| p.display_name@)
}

/// The remaining process names as reported: sorted ignoring ASCII case,
/// each case-insensitive name once (its first occurrence).
pub open spec fn unique_names(processes: Seq<ProcessInstance>) -> Seq<Seq<char>> {
    dedup_ignoring_case(sorted_by_lowercase(display_names(processes)))
}

/// The display names of the processes, sorted and deduplicated ignoring
/// ASCII case.
pub fn unique_display_names(processes: &Vec<ProcessInstance>) -> (r: Vec<String>)
    ensures
        r@.map_values(|s: String| s@) == unique_names(processes@),
{
    let mut names: Vec<String> = Vec::new();
    let mut i: usize = 0;
    while i < processes.len()
        invariant
            i <= processes@.len(),
            texts(names@) == display_names(processes@.take(i as int)),
        decreases processes.len() - i,
    {
        let ghost before = texts(names@);
        names.push(processes[i].display_name.clone());
        assert(texts(names@) =~= before.push(processes@[i as int].display_name@));
        assert(display_names(processes@.take(i + 1)) =~= display_names(processes@.take(i as int)).push(
            processes@[i as int].display_name@,
        ));
        i = i + 1;
    }
    assert(processes@.take(i as int) =~= processes@);
    sorted_unique_ignoring_case(&names)
}

} // verus!

verus! {

pub open spec fn no_identity_message() -> Seq<char> {
    "application process target contains no identity"@
}

/// A target must name at least one executable or path.
pub fn validate_target(target: &ApplicationProcessTarget) -> (r: Result<(), PlatformError>)
    ensures
        r is Err <==> (target.executable_names@.len() == 0 && target.executable_paths@.len() == 0),
        r matches Err(e) ==> e.code == PlatformErrorCode::OperationFailed && e.message@ == no_identity_message(),
{
    if target.executable_names.len() == 0 && target.executable_paths.len() == 0 {
        return Err(PlatformError::operation_failed("application process target contains no identity"));
    }
    Ok(())
}

/// Every target was rejected before any process was inspected.
pub fn all_invalid(validation_errors: &Vec<Option<PlatformError>>) -> (r: bool)
    ensures
        r == forall|i: int| 0 <= i < validation_errors@.len() ==> (#[trigger] validation_errors@[i]) is Some,
{
    let mut i: usize = 0;
    while i < validation_errors.len()
        invariant
            i <= validation_errors@.len(),
            forall|j: int| 0 <= j < i ==> (#[trigger] validation_errors@[j]) is Some,
        decreases validation_errors.len() - i,
    {
        if validation_errors[i].is_none() {
            return false;
        }
        i = i + 1;
    }
    true
}

/// When a snapshot fails, each target reports its own validation error or
/// else the snapshot error.
pub fn snapshot_error_results(
    validation_errors: &Vec<Option<PlatformError>>,
    snapshot_error: &PlatformError,
) -> (r: Vec<Result<ApplicationProcessCloseResult, PlatformError>>)
    ensures
        r@.len() == validation_errors@.len(),
        forall|i: int|
            0 <= i < r@.len() ==> (#[trigger] r@[i]) == Err::<ApplicationProcessCloseResult, PlatformError>(
                match validation_errors@[i] {
                    Some(e) => e,
                    None => *snapshot_error,
                },
            ),
{
    let mut r: Vec<Result<ApplicationProcessCloseResult, PlatformError>> = Vec::new();
    let mut i: usize = 0;
    while i < validation_errors.len()
        invariant
            i <= validation_errors@.len(),
            r@.len() == i,
            forall|j: int|
                0 <= j < i ==> (#[trigger] r@[j]) == Err::<ApplicationProcessCloseResult, PlatformError>(
                    match validation_errors@[j] {
                        Some(e) => e,
                        None => *snapshot_error,
                    },
                ),
        decreases validation_errors.len() - i,
    {
        let e = match &validation_errors[i] {
            Some(e) => e.copy(),
            None => snapshot_error.copy(),
        };
        r.push(Err(e));
        i = i + 1;
    }
    r
}

/// A process may be signalled only when it is not this process and its live
/// executable (`current_path`, read just before) is still the snapshot's.
pub open spec fn may_signal_spec(process: ProcessInstance, own_pid: i32, current_path: Option<Seq<char>>) -> bool {
    process.pid > 0 && process.pid != own_pid && match current_path {
        Some(p) => path_components(normalized_path(p)) == path_components(
            normalized_path(process.executable_path@),
        ),
        None => false,
    }
}

pub fn can_signal_process(process: &ProcessInstance, own_pid: i32, current_path: Option<&str>) -> (r: bool)
    ensures
        r == may_signal_spec(
            *process,
            own_pid,
            match current_path {
                Some(p) => Some(p@),
                None => None,
            },
        ),
{
    if process.pid <= 0 || process.pid == own_pid {
        return false;
    }
    match current_path {
        Some(p) => {
            let live = normalize_path(p);
            let recorded = normalize_path(process.executable_path.as_str());
            let a = split_path(&live);
            let b = split_path(&recorded);
            rows_equal(&a, &b)
        },
        None => false,
    }
}

/// The matched processes of all targets, target after target.
pub open spec fn flattened(matched: Seq<Vec<ProcessInstance>>) -> Seq<ProcessInstance>
    decreases matched.len(),
{
    if matched.len() == 0 {
        seq![]
    } else {
        flattened(matched.drop_last()) + matched.last()@
    }
}

pub open spec fn has_pid(s: Seq<ProcessInstance>, pid: i32) -> bool {
    exists|i: int| 0 <= i < s.len() && (#[trigger] s[i]).pid == pid
}

/// The first process of each pid, in order: each pid is asked to close once.
pub open spec fn first_per_pid(s: Seq<ProcessInstance>) -> Seq<ProcessInstance>
    decreases s.len(),
{
    if s.len() == 0 {
        seq![]
    } else {
        let r = first_per_pid(s.drop_last());
        if has_pid(r, s.last().pid) {
            r
        } else {
            r.push(s.last())
        }
    }
}

fn contains_pid(s: &Vec<ProcessInstance>, pid: i32) -> (r: bool)
    ensures
        r == has_pid(s@, pid),
{
    let mut i: usize = 0;
    while i < s.len()
        invariant
            i <= s@.len(),
            forall|j: int| 0 <= j < i ==> (#[trigger] s@[j]).pid != pid,
        decreases s.len() - i,
    {
        if s[i].pid == pid {
            return true;
        }
        i = i + 1;
    }
    false
}

/// The processes to ask to close: the first matched process of each pid.
pub fn processes_to_request(matched: &Vec<Vec<ProcessInstance>>) -> (r: Vec<ProcessInstance>)
    ensures
        r@ == first_per_pid(flattened(matched@)),
{
    let mut out: Vec<ProcessInstance> = Vec::new();
    let mut i: usize = 0;
    while i < matched.len()
        invariant
            i <= matched@.len(),
            out@ == first_per_pid(flattened(matched@.take(i as int))),
        decreases matched.len() - i,
    {
        let ghost done = flattened(matched@.take(i as int));
        assert(matched@.take(i + 1).drop_last() =~= matched@.take(i as int));
        assert(flattened(matched@.take(i + 1)) == done + matched@[i as int]@);
        let group = &matched[i];
        let mut k: usize = 0;
        assert(done + group@.take(0) =~= done);
        while k < group.len()
            invariant
                k <= group@.len(),
                out@ == first_per_pid(done + group@.take(k as int)),
            decreases group.len() - k,
        {
            let ghost s = done + group@.take(k + 1);
            assert(s.drop_last() =~= done + group@.take(k as int));
            assert(s.last() == group@[k as int]);
            if !contains_pid(&out, group[k].pid) {
                out.push(copy_process(&group[k]));
            }
            k = k + 1;
        }
        assert(group@.take(k as int) =~= group@);
        i = i + 1;
    }
    assert(matched@.take(i as int) =~= matched@);
    out
}

/// Whether some valid target still has a matching process in the snapshot.
pub open spec fn any_remaining_spec(
    targets: Seq<ApplicationProcessTarget>,
    validation_errors: Seq<Option<PlatformError>>,
    snapshot: Seq<ProcessInstance>,
    own_pid: i32,
) -> bool {
    exists|i: int|
        0 <= i < targets.len() && i < validation_errors.len() && (#[trigger] validation_errors[i]) is None
            && selected_processes(snapshot, targets[i], own_pid).len() > 0
}

pub fn any_remaining(
    targets: &Vec<ApplicationProcessTarget>,
    validation_errors: &Vec<Option<PlatformError>>,
    snapshot: &Vec<ProcessInstance>,
    own_pid: i32,
) -> (r: bool)
    ensures
        r == any_remaining_spec(targets@, validation_errors@, snapshot@, own_pid),
{
    let mut i: usize = 0;
    while i < targets.len() && i < validation_errors.len()
        invariant
            i <= targets@.len(),
            forall|j: int|
                0 <= j < i && j < validation_errors@.len() ==> !((#[trigger] validation_errors@[j]) is None
                    && selected_processes(snapshot@, targets@[j], own_pid).len() > 0),
        decreases targets.len() - i,
    {
        if validation_errors[i].is_none() {
            let found = matching_processes_in_snapshot(&targets[i], snapshot, own_pid);
            if found.len() > 0 {
                assert(validation_errors@[i as int] is None);
                return true;
            }
        }
        i = i + 1;
    }
    false
}

/// Whether the close request for `pid` was accepted; a pid never asked
/// counts as not requested.
pub open spec fn request_accepted(requests: Seq<(i32, bool)>, pid: i32) -> bool
    decreases requests.len(),
{
    if requests.len() == 0 {
        false
    } else if requests[0].0 == pid {
        requests[0].1
    } else {
        request_accepted(requests.drop_first(), pid)
    }
}

pub open spec fn requested_count(matched: Seq<ProcessInstance>, requests: Seq<(i32, bool)>) -> nat
    decreases matched.len(),
{
    if matched.len() == 0 {
        0
    } else {
        requested_count(matched.drop_last(), requests) + if request_accepted(
            requests,
            matched.last().pid,
        ) {
            1nat
        } else {
            0nat
        }
    }
}

fn lookup_request(requests: &Vec<(i32, bool)>, pid: i32) -> (r: bool)
    ensures
        r == request_accepted(requests@, pid),
{
    let mut i: usize = 0;
    assert(requests@.skip(0) =~= requests@);
    while i < requests.len()
        invariant
            i <= requests@.len(),
            request_accepted(requests@, pid) == request_accepted(requests@.skip(i as int), pid),
        decreases requests.len() - i,
    {
        let ghost rest = requests@.skip(i as int);
        assert(rest[0] == requests@[i as int]);
        if requests[i].0 == pid {
            return requests[i].1;
        }
        assert(rest.drop_first() =~= requests@.skip(i + 1));
        i = i + 1;
    }
    assert(requests@.skip(i as int) =~= Seq::<(i32, bool)>::empty());
    false
}

/// The outcome reported for one valid target.
pub open spec fn close_outcome(
    matched: Seq<ProcessInstance>,
    requests: Seq<(i32, bool)>,
    remaining: Seq<ProcessInstance>,
    result: ApplicationProcessCloseResult,
) -> bool {
    &&& result.matched_process_count == matched.len()
    &&& result.requested_process_count == requested_count(matched, requests)
    &&& result.remaining_processes@.map_values(|s: String| s@) == unique_names(remaining)
}

/// Per target: its validation error, or how many processes matched at
/// first, how many of them were asked to close with success, and the names
/// still running in the final snapshot.
pub fn close_results(
    targets: &Vec<ApplicationProcessTarget>,
    validation_errors: &Vec<Option<PlatformError>>,
    matched: &Vec<Vec<ProcessInstance>>,
    requests: &Vec<(i32, bool)>,
    final_snapshot: &Vec<ProcessInstance>,
    own_pid: i32,
) -> (r: Vec<Result<ApplicationProcessCloseResult, PlatformError>>)
    requires
        validation_errors@.len() == targets@.len(),
        matched@.len() == targets@.len(),
    ensures
        r@.len() == targets@.len(),
        forall|i: int|
            0 <= i < r@.len() ==> match validation_errors@[i] {
                Some(e) => #[trigger] r@[i] == Err::<ApplicationProcessCloseResult, PlatformError>(e),
                None => r@[i] matches Ok(result) && close_outcome(
                    matched@[i]@,
                    requests@,
                    selected_processes(final_snapshot@, targets@[i], own_pid),
                    result,
                ),
            },
{
    let mut r: Vec<Result<ApplicationProcessCloseResult, PlatformError>> = Vec::new();
    let mut i: usize = 0;
    while i < targets.len()
        invariant
            i <= targets@.len(),
            validation_errors@.len() == targets@.len(),
            matched@.len() == targets@.len(),
            r@.len() == i,
            forall|j: int|
                0 <= j < i ==> match validation_errors@[j] {
                    Some(e) => #[trigger] r@[j] == Err::<ApplicationProcessCloseResult, PlatformError>(e),
                    None => r@[j] matches Ok(result) && close_outcome(
                        matched@[j]@,
                        requests@,
                        selected_processes(final_snapshot@, targets@[j], own_pid),
                        result,
                    ),
                },
        decreases targets.len() - i,
    {
        match &validation_errors[i] {
            Some(e) => {
                r.push(Err(e.copy()));
            },
            None => {
                let group = &matched[i];
                let mut requested: u64 = 0;
                let mut k: usize = 0;
                while k < group.len()
                    invariant
                        k <= group@.len(),
                        requested as nat == requested_count(group@.take(k as int), requests@),
                        requested <= k,
                    decreases group.len() - k,
                {
                    assert(group@.take(k + 1).drop_last() =~= group@.take(k as int));
                    if lookup_request(requests, group[k].pid) {
                        requested = requested + 1;
                    }
                    k = k + 1;
                }
                assert(group@.take(k as int) =~= group@);
                let remaining = matching_processes_in_snapshot(&targets[i], final_snapshot, own_pid);
                let names = unique_display_names(&remaining);
                r.push(
                    Ok(
                        ApplicationProcessCloseResult {
                            matched_process_count: group.len() as u64,
                            requested_process_count: requested,
                            remaining_processes: names,
                        },
                    ),
                );
            },
        }
        i = i + 1;
    }
    r
}

} // verus!

verus! {

/// A line without the `\r` of a `\r\n` ending.
pub open spec fn without_cr(s: Seq<char>) -> Seq<char> {
    if s.len() > 0 && s.last() == '\r' {
        s.drop_last()
    } else {
        s
    }
}

/// The lines of a text as `str::lines` yields them: split at `\n`, a `\r`
/// before the `\n` removed, and no empty line after a final `\n`.
pub open spec fn text_lines(s: Seq<char>) -> Seq<Seq<char>> {
    let segs = crate::paths::split_on(s, '\n');
    segs.take(segs.len() - 1).map_values(|l: Seq<char>| without_cr(l)) + if segs.last().len() > 0 {
        seq![segs.last()]
    } else {
        seq![]
    }
}

/// The processes that the lines describe, skipping lines that do not parse.
pub open spec fn parsed_processes(lines: Seq<Seq<char>>) -> Seq<(int, Seq<char>, Seq<char>)>
    decreases lines.len(),
{
    if lines.len() == 0 {
        seq![]
    } else {
        let r = parsed_processes(lines.drop_last());
        match parsed_process(lines.last()) {
            Some(p) => r.push(p),
            None => r,
        }
    }
}

pub open spec fn process_views(s: Seq<ProcessInstance>) -> Seq<(int, Seq<char>, Seq<char>)> {
    s.map_values(|p: ProcessInstance| (p.pid as int, p.executable_path@, p.display_name@))
}

proof fn lemma_parsed_processes_push(lines: Seq<Seq<char>>, l: Seq<char>)
    ensures
        parsed_processes(lines.push(l)) == match parsed_process(l) {
            Some(p) => parsed_processes(lines).push(p),
            None => parsed_processes(lines),
        },
{
    assert(lines.push(l).drop_last() =~= lines);
}

fn add_parsed(out: &mut Vec<ProcessInstance>, line: &Vec<char>, Ghost(done): Ghost<Seq<Seq<char>>>)
    requires
        process_views(old(out)@) == parsed_processes(done),
    ensures
        process_views(final(out)@) == parsed_processes(done.push(line@)),
{
    proof {
        lemma_parsed_processes_push(done, line@);
    }
    let text = string_from_chars(line);
    match parse_process_line(text.as_str()) {
        Some(p) => {
            let ghost before = out@;
            out.push(p);
            assert(process_views(out@) =~= process_views(before).push(
                (p.pid as int, p.executable_path@, p.display_name@),
            ));
        },
        None => {},
    }
}

/// The processes of a `ps -axo pid=,comm=` listing, line by line.
pub fn parse_process_snapshot(text: &str) -> (r: Vec<ProcessInstance>)
    ensures
        process_views(r@) == parsed_processes(text_lines(text@)),
{
    let all = chars_of(text);
    let mut out: Vec<ProcessInstance> = Vec::new();
    let mut cur: Vec<char> = Vec::new();
    let ghost mut done: Seq<Seq<char>> = seq![];
    let mut i: usize = 0;
    assert(all@.take(0) =~= Seq::<char>::empty());
    while i < all.len()
        invariant
            i <= all@.len(),
            crate::paths::split_on(all@.take(i as int), '\n').len() >= 1,
            done == crate::paths::split_on(all@.take(i as int), '\n').drop_last().map_values(
                |l: Seq<char>| without_cr(l),
            ),
            cur@ == crate::paths::split_on(all@.take(i as int), '\n').last(),
            process_views(out@) == parsed_processes(done),
        decreases all.len() - i,
    {
        let ghost before = crate::paths::split_on(all@.take(i as int), '\n');
        let c = all[i];
        assert(all@.take(i + 1).drop_last() =~= all@.take(i as int));
        assert(all@.take(i + 1).last() == c);
        if c == '\n' {
            let mut line = cur;
            if line.len() > 0 && line[line.len() - 1] == '\r' {
                line.pop();
            }
            assert(line@ == without_cr(before.last()));
            add_parsed(&mut out, &line, Ghost(done));
            proof {
                done = done.push(line@);
                assert(before.push(seq![]).drop_last() =~= before);
                assert(done =~= before.map_values(|l: Seq<char>| without_cr(l)));
                assert(before =~= before.drop_last().push(before.last()));
            }
            cur = Vec::new();
        } else {
            let ghost after = before.update(before.len() - 1, before.last().push(c));
            assert(after.drop_last() =~= before.drop_last());
            cur.push(c);
        }
        i = i + 1;
    }
    assert(all@.take(i as int) =~= all@);
    let ghost segs = crate::paths::split_on(all@, '\n');
    assert(segs.take(segs.len() - 1) =~= segs.drop_last());
    if cur.len() > 0 {
        add_parsed(&mut out, &cur, Ghost(done));
        assert(text_lines(text@) =~= done.push(cur@));
    } else {
        assert(text_lines(text@) =~= done);
    }
    out
}

} // verus!

verus! {

proof fn lemma_selected_subset(snapshot: Seq<ProcessInstance>, target: ApplicationProcessTarget, own_pid: i32)
    ensures
        forall|i: int|
            0 <= i < selected_processes(snapshot, target, own_pid).len() ==> process_selected(
                #[trigger] selected_processes(snapshot, target, own_pid)[i],
                target,
                own_pid,
            ),
    decreases snapshot.len(),
{
    if snapshot.len() > 0 {
        lemma_selected_subset(snapshot.drop_last(), target, own_pid);
        let r = selected_processes(snapshot.drop_last(), target, own_pid);
        assert forall|i: int|
            0 <= i < selected_processes(snapshot, target, own_pid).len() implies process_selected(
            #[trigger] selected_processes(snapshot, target, own_pid)[i],
            target,
            own_pid,
        ) by {
            if i < r.len() {
                assert(selected_processes(snapshot, target, own_pid)[i] == r[i]);
            }
        }
    }
}

/// A close target never matches the process that asks to close it.
pub proof fn law_matching_never_includes_the_caller(
    snapshot: Seq<ProcessInstance>,
    target: ApplicationProcessTarget,
    own_pid: i32,
)
    ensures
        forall|i: int|
            0 <= i < selected_processes(snapshot, target, own_pid).len() ==> (#[trigger] selected_processes(
                snapshot,
                target,
                own_pid,
            )[i]).pid != own_pid,
{
    lemma_selected_subset(snapshot, target, own_pid);
}

/// Once a target names exact executable paths, its executable names no
/// longer take part: two targets with the same paths select the same
/// processes, whatever names they carry.
pub proof fn law_exact_paths_disable_name_matching(
    snapshot: Seq<ProcessInstance>,
    target: ApplicationProcessTarget,
    other: ApplicationProcessTarget,
    own_pid: i32,
)
    requires
        target.executable_paths@.len() > 0,
        target.executable_paths@ == other.executable_paths@,
    ensures
        selected_processes(snapshot, target, own_pid) == selected_processes(snapshot, other, own_pid),
    decreases snapshot.len(),
{
    assert(target_paths(target) == target_paths(other));
    if snapshot.len() > 0 {
        law_exact_paths_disable_name_matching(snapshot.drop_last(), target, other, own_pid);
        assert(process_selected(snapshot.last(), target, own_pid) == process_selected(snapshot.last(), other, own_pid));
    }
}

/// An application bundle target matches every process whose executable
/// lies below the bundle's `Contents` directory.
pub proof fn law_bundle_target_covers_its_contents(executable: Seq<char>, target: Seq<char>)
    requires
        file_name(target) matches Some(n) && has_app_extension(n),
        path_starts_with(
            normalized_path(executable),
            path_components(target).push(contents_component()),
        ),
    ensures
        process_matches_path_spec(executable, target),
{
}

/// The reported names never repeat one name twice in a row, ignoring
/// ASCII case.
pub proof fn law_remaining_names_do_not_repeat(processes: Seq<ProcessInstance>)
    ensures
        forall|i: int|
            0 <= i < unique_names(processes).len() - 1 ==> !crate::paths::eq_ignore_ascii_case(
                #[trigger] unique_names(processes)[i],
                unique_names(processes)[i + 1],
            ),
{
    lemma_dedup_adjacent(sorted_by_lowercase(display_names(processes)));
}

} // verus!

verus! {

proof fn lemma_selected_processes_keep(snapshot: Seq<ProcessInstance>, target: ApplicationProcessTarget, own_pid: i32, i: int)
    requires
        0 <= i < snapshot.len(),
        process_selected(snapshot[i], target, own_pid),
    ensures
        selected_processes(snapshot, target, own_pid).contains(snapshot[i]),
    decreases snapshot.len(),
{
    let r = selected_processes(snapshot.drop_last(), target, own_pid);
    if i == snapshot.len() - 1 {
        assert(selected_processes(snapshot, target, own_pid) == r.push(snapshot.last()));
        assert(r.push(snapshot.last())[r.len() as int] == snapshot[i]);
    } else {
        assert(snapshot.drop_last()[i] == snapshot[i]);
        lemma_selected_processes_keep(snapshot.drop_last(), target, own_pid, i);
        let k = choose|k: int| 0 <= k < r.len() && r[k] == snapshot[i];
        if process_selected(snapshot.last(), target, own_pid) {
            assert(r.push(snapshot.last())[k] == snapshot[i]);
        }
    }
}

/// A process other than the caller whose executable path, with trailing
/// slashes trimmed, names the same location as one of the target's exact
/// executable paths (trimmed the same way) is among the matches, whether or
/// not it lies inside an application bundle.
pub proof fn law_exact_executable_path_is_matched(
    snapshot: Seq<ProcessInstance>,
    target: ApplicationProcessTarget,
    own_pid: i32,
    i: int,
    j: int,
)
    requires
        0 <= i < snapshot.len(),
        0 <= j < target.executable_paths@.len(),
        snapshot[i].pid != own_pid,
        path_components(trim_end_char(snapshot[i].executable_path@, '/')) == path_components(
            trim_end_char(target.executable_paths@[j]@, '/'),
        ),
    ensures
        selected_processes(snapshot, target, own_pid).contains(snapshot[i]),
{
    assert(target_paths(target)[j] == trim_end_char(target.executable_paths@[j]@, '/'));
    assert(process_matches_path_spec(snapshot[i].executable_path@, target_paths(target)[j]));
    lemma_selected_processes_keep(snapshot, target, own_pid, i);
}

} // verus!
