//! Grouping the processes that block cleanup rules, for the application
//! icons shown beside a scan: one group per process name (ASCII case
//! ignored, the first spelling kept), holding the application identifiers of
//! every rule that process blocks, each identifier once (ASCII case ignored).
use vstd::prelude::*;

use crate::models::{CleanupApplicationIcon, ScanRuleResult};
use crate::paths::{eq_ignore_ascii_case, str_eq_ignore_ascii_case};
use crate::plan::texts;
use crate::names::{dedup_ignoring_case, sorted_by_lowercase, sorted_unique_ignoring_case};
use crate::text::str_equal;

verus! {

/// Index of the first text equal to `x` with ASCII case ignored, or -1.
pub open spec fn ci_index(s: Seq<Seq<char>>, x: Seq<char>) -> int
    decreases s.len(),
{
    if s.len() == 0 {
        -1
    } else if eq_ignore_ascii_case(s[0], x) {
        0
    } else {
        let r = ci_index(s.drop_first(), x);
        if r < 0 {
            -1
        } else {
            r + 1
        }
    }
}

proof fn lemma_ci_index(s: Seq<Seq<char>>, x: Seq<char>)
    ensures
        -1 <= ci_index(s, x) < s.len(),
        ci_index(s, x) >= 0 ==> eq_ignore_ascii_case(s[ci_index(s, x)], x),
        ci_index(s, x) < 0 ==> forall|j: int| 0 <= j < s.len() ==> !eq_ignore_ascii_case(#[trigger] s[j], x),
        ci_index(s, x) >= 0 ==> forall|j: int| 0 <= j < ci_index(s, x) ==> !eq_ignore_ascii_case(#[trigger] s[j], x),
    decreases s.len(),
{
    if s.len() > 0 && !eq_ignore_ascii_case(s[0], x) {
        lemma_ci_index(s.drop_first(), x);
        assert forall|j: int| 1 <= j < s.len() implies s[j] == s.drop_first()[j - 1] by {}
    }
}

/// An identifier added to a group unless an equal one (ASCII case ignored)
/// is already there.
pub open spec fn with_identifier(ids: Seq<Seq<char>>, id: Seq<char>) -> Seq<Seq<char>> {
    if ci_index(ids, id) >= 0 {
        ids
    } else {
        ids.push(id)
    }
}

pub open spec fn with_identifiers(ids: Seq<Seq<char>>, incoming: Seq<Seq<char>>) -> Seq<Seq<char>>
    decreases incoming.len(),
{
    if incoming.len() == 0 {
        ids
    } else {
        with_identifier(with_identifiers(ids, incoming.drop_last()), incoming.last())
    }
}

/// The names of the groups.
pub open spec fn group_names(groups: Seq<(Seq<char>, Seq<Seq<char>>)>) -> Seq<Seq<char>> {
    groups.map_values(|g: (Seq<char>, Seq<Seq<char>>)| g.0)
}

/// A running process of a rule joins the group of its name (ASCII case
/// ignored), which is created under this spelling when there is none, and
/// the group gains the rule's identifiers.
pub open spec fn with_process(
    groups: Seq<(Seq<char>, Seq<Seq<char>>)>,
    name: Seq<char>,
    ids: Seq<Seq<char>>,
) -> Seq<(Seq<char>, Seq<Seq<char>>)> {
    let i = ci_index(group_names(groups), name);
    if i >= 0 {
        groups.update(i, (groups[i].0, with_identifiers(groups[i].1, ids)))
    } else {
        groups.push((name, with_identifiers(seq![], ids)))
    }
}

pub open spec fn with_processes(
    groups: Seq<(Seq<char>, Seq<Seq<char>>)>,
    names: Seq<Seq<char>>,
    ids: Seq<Seq<char>>,
) -> Seq<(Seq<char>, Seq<Seq<char>>)>
    decreases names.len(),
{
    if names.len() == 0 {
        groups
    } else {
        with_process(with_processes(groups, names.drop_last(), ids), names.last(), ids)
    }
}

/// The application identifiers recorded for a rule: those of the first
/// entry with its ID, none when there is no entry.
pub open spec fn identifiers_for(by_rule: Seq<(String, Vec<String>)>, rule_id: Seq<char>) -> Seq<Seq<char>>
    decreases by_rule.len(),
{
    if by_rule.len() == 0 {
        seq![]
    } else if by_rule[0].0@ == rule_id {
        texts(by_rule[0].1@)
    } else {
        identifiers_for(by_rule.drop_first(), rule_id)
    }
}

/// The process groups of a scan, rule after rule.
pub open spec fn process_groups(rules: Seq<ScanRuleResult>, by_rule: Seq<(String, Vec<String>)>) -> Seq<
    (Seq<char>, Seq<Seq<char>>),
>
    decreases rules.len(),
{
    if rules.len() == 0 {
        seq![]
    } else {
        let r = rules.last();
        with_processes(
            process_groups(rules.drop_last(), by_rule),
            texts(r.running_processes@),
            identifiers_for(by_rule, r.rule_id@),
        )
    }
}

/// One group of processes sharing a name.
pub struct ApplicationProcessGroup {
    pub process_name: String,
    pub identifiers: Vec<String>,
}

pub open spec fn group_view(g: ApplicationProcessGroup) -> (Seq<char>, Seq<Seq<char>>) {
    (g.process_name@, texts(g.identifiers@))
}

pub open spec fn groups_view(v: Seq<ApplicationProcessGroup>) -> Seq<(Seq<char>, Seq<Seq<char>>)> {
    v.map_values(|g: ApplicationProcessGroup| group_view(g))
}

fn ci_find(s: &Vec<String>, x: &str) -> (r: Option<usize>)
    ensures
        match r {
            Some(i) => i as int == ci_index(texts(s@), x@),
            None => ci_index(texts(s@), x@) < 0,
        },
{
    proof {
        lemma_ci_index(texts(s@), x@);
    }
    let mut j: usize = 0;
    while j < s.len()
        invariant
            j <= s@.len(),
            forall|k: int| 0 <= k < j ==> !eq_ignore_ascii_case(#[trigger] texts(s@)[k], x@),
            -1 <= ci_index(texts(s@), x@) < s@.len(),
            ci_index(texts(s@), x@) < 0 ==> forall|k: int| 0 <= k < s@.len() ==> !eq_ignore_ascii_case(#[trigger] texts(s@)[k], x@),
            ci_index(texts(s@), x@) >= 0 ==> eq_ignore_ascii_case(texts(s@)[ci_index(texts(s@), x@)], x@),
            ci_index(texts(s@), x@) >= 0 ==> forall|k: int|
                0 <= k < ci_index(texts(s@), x@) ==> !eq_ignore_ascii_case(#[trigger] texts(s@)[k], x@),
        decreases s.len() - j,
    {
        assert(texts(s@)[j as int] == s@[j as int]@);
        if str_eq_ignore_ascii_case(s[j].as_str(), x) {
            return Some(j);
        }
        j = j + 1;
    }
    None
}

fn group_find(groups: &Vec<ApplicationProcessGroup>, x: &str) -> (r: Option<usize>)
    ensures
        match r {
            Some(i) => i < groups@.len() && i as int == ci_index(group_names(groups_view(groups@)), x@),
            None => ci_index(group_names(groups_view(groups@)), x@) < 0,
        },
{
    let ghost names = group_names(groups_view(groups@));
    proof {
        lemma_ci_index(names, x@);
    }
    let mut j: usize = 0;
    while j < groups.len()
        invariant
            names == group_names(groups_view(groups@)),
            names.len() == groups@.len(),
            j <= groups@.len(),
            forall|k: int| 0 <= k < j ==> !eq_ignore_ascii_case(#[trigger] names[k], x@),
            -1 <= ci_index(names, x@) < names.len(),
            ci_index(names, x@) < 0 ==> forall|k: int| 0 <= k < names.len() ==> !eq_ignore_ascii_case(#[trigger] names[k], x@),
            ci_index(names, x@) >= 0 ==> eq_ignore_ascii_case(names[ci_index(names, x@)], x@),
            ci_index(names, x@) >= 0 ==> forall|k: int| 0 <= k < ci_index(names, x@) ==> !eq_ignore_ascii_case(#[trigger] names[k], x@),
        decreases groups.len() - j,
    {
        assert(names[j as int] == groups@[j as int].process_name@);
        if str_eq_ignore_ascii_case(groups[j].process_name.as_str(), x) {
            return Some(j);
        }
        j = j + 1;
    }
    None
}

/// Adds identifiers to a group, each unless an equal one is there.
fn add_identifiers(ids: &mut Vec<String>, incoming: &Vec<String>)
    ensures
        texts(final(ids)@) == with_identifiers(texts(old(ids)@), texts(incoming@)),
{
    let ghost start = texts(ids@);
    let mut k: usize = 0;
    while k < incoming.len()
        invariant
            k <= incoming@.len(),
            texts(ids@) == with_identifiers(start, texts(incoming@).take(k as int)),
        decreases incoming.len() - k,
    {
        assert(texts(incoming@).take(k + 1).drop_last() =~= texts(incoming@).take(k as int));
        let ghost before = texts(ids@);
        match ci_find(ids, incoming[k].as_str()) {
            Some(_) => {},
            None => {
                ids.push(incoming[k].clone());
                assert(texts(ids@) =~= before.push(incoming@[k as int]@));
            },
        }
        k = k + 1;
    }
    assert(texts(incoming@).take(incoming@.len() as int) =~= texts(incoming@));
}

fn lookup_identifiers(by_rule: &Vec<(String, Vec<String>)>, rule_id: &str) -> (r: Option<usize>)
    ensures
        match r {
            Some(i) => i < by_rule@.len() && texts(by_rule@[i as int].1@) == identifiers_for(by_rule@, rule_id@),
            None => identifiers_for(by_rule@, rule_id@) == Seq::<Seq<char>>::empty(),
        },
{
    assert(by_rule@.skip(0) =~= by_rule@);
    let mut j: usize = 0;
    while j < by_rule.len()
        invariant
            j <= by_rule@.len(),
            identifiers_for(by_rule@, rule_id@) == identifiers_for(by_rule@.skip(j as int), rule_id@),
        decreases by_rule.len() - j,
    {
        assert(by_rule@.skip(j as int).drop_first() =~= by_rule@.skip(j + 1));
        assert(by_rule@.skip(j as int)[0] == by_rule@[j as int]);
        if str_equal(by_rule[j].0.as_str(), rule_id) {
            return Some(j);
        }
        j = j + 1;
    }
    None
}

/// The process groups of the rules of a scan (see `process_groups`);
/// `identifiers_by_rule` pairs rule IDs with their application identifiers.
pub fn application_process_groups(
    rules: &Vec<ScanRuleResult>,
    identifiers_by_rule: &Vec<(String, Vec<String>)>,
) -> (groups: Vec<ApplicationProcessGroup>)
    ensures
        groups_view(groups@) == process_groups(rules@, identifiers_by_rule@),
{
    let mut groups: Vec<ApplicationProcessGroup> = Vec::new();
    let empty: Vec<String> = Vec::new();
    let mut i: usize = 0;
    while i < rules.len()
        invariant
            i <= rules@.len(),
            empty@.len() == 0,
            groups_view(groups@) == process_groups(rules@.take(i as int), identifiers_by_rule@),
        decreases rules.len() - i,
    {
        let rule = &rules[i];
        assert(rules@.take(i + 1).drop_last() =~= rules@.take(i as int));
        assert(rules@.take(i + 1).last() == rules@[i as int]);
        let ids = match lookup_identifiers(identifiers_by_rule, rule.rule_id.as_str()) {
            Some(j) => &identifiers_by_rule[j].1,
            None => &empty,
        };
        assert(texts(ids@) =~= identifiers_for(identifiers_by_rule@, rule.rule_id@));
        let ghost base = groups_view(groups@);
        let names = &rule.running_processes;
        let mut k: usize = 0;
        while k < names.len()
            invariant
                k <= names@.len(),
                groups_view(groups@) == with_processes(base, texts(names@).take(k as int), texts(ids@)),
            decreases names.len() - k,
        {
            assert(texts(names@).take(k + 1).drop_last() =~= texts(names@).take(k as int));
            let ghost before = groups_view(groups@);
            match group_find(&groups, names[k].as_str()) {
                Some(g) => {
                    add_identifiers(&mut groups[g].identifiers, ids);
                    assert(groups_view(groups@) =~= before.update(
                        g as int,
                        (before[g as int].0, with_identifiers(before[g as int].1, texts(ids@))),
                    ));
                },
                None => {
                    let mut fresh: Vec<String> = Vec::new();
                    assert(texts(fresh@) =~= Seq::<Seq<char>>::empty());
                    add_identifiers(&mut fresh, ids);
                    groups.push(ApplicationProcessGroup { process_name: names[k].clone(), identifiers: fresh });
                    assert(groups_view(groups@) =~= before.push(
                        (names@[k as int]@, with_identifiers(seq![], texts(ids@))),
                    ));
                },
            }
            k = k + 1;
        }
        assert(texts(names@).take(names@.len() as int) =~= texts(names@));
        i = i + 1;
    }
    assert(rules@.take(rules@.len() as int) =~= rules@);
    groups
}

/// No two texts are equal with ASCII case ignored.
pub open spec fn ci_distinct(s: Seq<Seq<char>>) -> bool {
    forall|i: int, j: int| 0 <= i < j < s.len() ==> !eq_ignore_ascii_case(#[trigger] s[i], #[trigger] s[j])
}

proof fn lemma_with_identifiers_distinct(ids: Seq<Seq<char>>, incoming: Seq<Seq<char>>)
    requires
        ci_distinct(ids),
    ensures
        ci_distinct(with_identifiers(ids, incoming)),
    decreases incoming.len(),
{
    if incoming.len() > 0 {
        lemma_with_identifiers_distinct(ids, incoming.drop_last());
        let p = with_identifiers(ids, incoming.drop_last());
        lemma_ci_index(p, incoming.last());
        let q = with_identifier(p, incoming.last());
        assert forall|i: int, j: int| 0 <= i < j < q.len() implies !eq_ignore_ascii_case(#[trigger] q[i], #[trigger] q[j]) by {
            if j == p.len() {
                assert(q[i] == p[i]);
            }
        }
    }
}

proof fn lemma_with_processes_distinct(
    groups: Seq<(Seq<char>, Seq<Seq<char>>)>,
    names: Seq<Seq<char>>,
    ids: Seq<Seq<char>>,
)
    requires
        ci_distinct(group_names(groups)),
        forall|g: int| 0 <= g < groups.len() ==> ci_distinct(#[trigger] groups[g].1),
    ensures
        ci_distinct(group_names(with_processes(groups, names, ids))),
        forall|g: int|
            0 <= g < with_processes(groups, names, ids).len() ==> ci_distinct(
                #[trigger] with_processes(groups, names, ids)[g].1,
            ),
    decreases names.len(),
{
    if names.len() > 0 {
        lemma_with_processes_distinct(groups, names.drop_last(), ids);
        let p = with_processes(groups, names.drop_last(), ids);
        let x = names.last();
        let pn = group_names(p);
        lemma_ci_index(pn, x);
        let q = with_process(p, x, ids);
        let qn = group_names(q);
        let c = ci_index(pn, x);
        if c >= 0 {
            lemma_with_identifiers_distinct(p[c].1, ids);
            assert(qn =~= pn);
        } else {
            lemma_with_identifiers_distinct(seq![], ids);
            assert(qn =~= pn.push(x));
            assert forall|i: int, j: int| 0 <= i < j < qn.len() implies !eq_ignore_ascii_case(#[trigger] qn[i], #[trigger] qn[j]) by {
                if j == pn.len() {
                    assert(qn[i] == pn[i]);
                }
            }
        }
        assert forall|g: int| 0 <= g < q.len() implies ci_distinct(#[trigger] q[g].1) by {
            if c >= 0 && g == c {
            } else if c < 0 && g == p.len() {
            } else {
                assert(q[g] == p[g]);
            }
        }
    }
}

/// Every process name has one group (ASCII case ignored), and no group
/// lists an application identifier twice (ASCII case ignored).
pub proof fn law_process_groups_are_distinct(rules: Seq<ScanRuleResult>, by_rule: Seq<(String, Vec<String>)>)
    ensures
        ci_distinct(group_names(process_groups(rules, by_rule))),
        forall|g: int|
            0 <= g < process_groups(rules, by_rule).len() ==> ci_distinct(#[trigger] process_groups(rules, by_rule)[g].1),
    decreases rules.len(),
{
    if rules.len() > 0 {
        law_process_groups_are_distinct(rules.drop_last(), by_rule);
        let r = rules.last();
        lemma_with_processes_distinct(
            process_groups(rules.drop_last(), by_rule),
            texts(r.running_processes@),
            identifiers_for(by_rule, r.rule_id@),
        );
    } else {
        assert(group_names(seq![]) =~= Seq::<Seq<char>>::empty());
    }
}

/// Where the icon of a process group may be found: among the running
/// processes, among the installed applications by process name, and among
/// them by the group's identifiers.
pub struct IconLookup {
    pub running_process: Option<String>,
    pub process: Option<String>,
    pub identifiers: Option<String>,
}

/// The first lookup that found an icon, in the order above.
pub open spec fn icon_of(l: IconLookup) -> Option<String> {
    match l.running_process {
        Some(p) => Some(p),
        None => match l.process {
            Some(p) => Some(p),
            None => l.identifiers,
        },
    }
}

/// The icons of the groups that have one, in group order.
pub open spec fn icons_of(groups: Seq<ApplicationProcessGroup>, lookups: Seq<IconLookup>) -> Seq<(Seq<char>, Seq<char>)>
    decreases groups.len(),
{
    if groups.len() == 0 || lookups.len() < groups.len() {
        seq![]
    } else {
        let before = icons_of(groups.drop_last(), lookups.take(groups.len() - 1));
        match icon_of(lookups[groups.len() - 1]) {
            Some(p) => before.push((groups.last().process_name@, p@)),
            None => before,
        }
    }
}

/// Icons for the process groups; `lookups` holds one lookup per group.
pub fn application_icons(groups: Vec<ApplicationProcessGroup>, lookups: Vec<IconLookup>) -> (icons: Vec<
    CleanupApplicationIcon,
>)
    requires
        lookups@.len() == groups@.len(),
    ensures
        icons@.map_values(|i: CleanupApplicationIcon| (i.process_name@, i.icon_path@)) == icons_of(groups@, lookups@),
{
    let ghost gs = groups@;
    let ghost ls = lookups@;
    let mut icons: Vec<CleanupApplicationIcon> = Vec::new();
    let mut lookups = lookups;
    let n = groups.len();
    for group in it: groups.into_iter()
        invariant
            it.seq() == gs,
            n == gs.len(),
            ls.len() == n,
            lookups@.len() == n - it.index(),
            lookups@ == ls.skip(it.index() as int),
            icons@.map_values(|i: CleanupApplicationIcon| (i.process_name@, i.icon_path@)) == icons_of(
                gs.take(it.index() as int),
                ls.take(it.index() as int),
            ),
    {
        let ghost idx = it.index();
        assert(gs.take(idx + 1).drop_last() =~= gs.take(idx as int));
        assert(ls.take(idx + 1).take(idx as int) =~= ls.take(idx as int));
        assert(ls.take(idx + 1)[idx as int] == ls[idx as int]);
        let lookup = lookups.remove(0);
        assert(lookups@ =~= ls.skip(idx + 1));
        let ghost before = icons@.map_values(|i: CleanupApplicationIcon| (i.process_name@, i.icon_path@));
        let found = match lookup.running_process {
            Some(p) => Some(p),
            None => match lookup.process {
                Some(p) => Some(p),
                None => lookup.identifiers,
            },
        };
        match found {
            Some(path) => {
                let ghost pair = (group.process_name@, path@);
                icons.push(CleanupApplicationIcon { process_name: group.process_name, icon_path: path });
                assert(icons@.map_values(|i: CleanupApplicationIcon| (i.process_name@, i.icon_path@)) =~= before.push(pair));
            },
            None => {},
        }
    }
    assert(gs.take(n as int) =~= gs);
    assert(ls.take(n as int) =~= ls);
    icons
}

/// A condition of a rule's applicability.
pub enum ApplicabilityProbe {
    /// One of these applications is installed.
    ApplicationInstalled(Vec<String>),
    /// The application is installed in a version within the bounds.
    ApplicationVersion { identifier: String, minimum: Option<String>, maximum_exclusive: Option<String> },
    AnyOf(Vec<ApplicabilityProbe>),
    AllOf(Vec<ApplicabilityProbe>),
    Not(Box<ApplicabilityProbe>),
    AnyRootExists,
    PathExists(String),
    ExecutableAvailable(String),
    SystemVersion { minimum: Option<String>, maximum_exclusive: Option<String> },
    FileSystemIn(Vec<String>),
    CapabilityAvailable(String),
    ProcessRunning(Vec<String>),
}

/// The application identifiers a probe names positively, in order: a
/// negated probe names what must not own the rule, so it contributes none.
pub open spec fn probe_identifiers(p: ApplicabilityProbe) -> Seq<Seq<char>>
    decreases p,
{
    match p {
        ApplicabilityProbe::ApplicationInstalled(values) => texts(values@),
        ApplicabilityProbe::ApplicationVersion { identifier, .. } => seq![identifier@],
        ApplicabilityProbe::AnyOf(items) => list_identifiers(items@),
        ApplicabilityProbe::AllOf(items) => list_identifiers(items@),
        _ => seq![],
    }
}

pub open spec fn list_identifiers(items: Seq<ApplicabilityProbe>) -> Seq<Seq<char>>
    decreases items,
{
    if items.len() == 0 {
        seq![]
    } else {
        list_identifiers(items.drop_last()) + probe_identifiers(items.last())
    }
}

/// The number of probes in a probe tree.
pub open spec fn probe_size(p: ApplicabilityProbe) -> nat
    decreases p,
{
    match p {
        ApplicabilityProbe::AnyOf(items) => 1 + list_size(items@),
        ApplicabilityProbe::AllOf(items) => 1 + list_size(items@),
        ApplicabilityProbe::Not(inner) => 1 + probe_size(*inner),
        _ => 1,
    }
}

pub open spec fn list_size(items: Seq<ApplicabilityProbe>) -> nat
    decreases items,
{
    if items.len() == 0 {
        0
    } else {
        list_size(items.drop_last()) + probe_size(items.last())
    }
}

proof fn lemma_item_size(items: Seq<ApplicabilityProbe>, k: int)
    requires
        0 <= k < items.len(),
    ensures
        probe_size(items[k]) <= list_size(items),
    decreases items.len(),
{
    if k < items.len() - 1 {
        lemma_item_size(items.drop_last(), k);
    }
}

fn collect_identifiers(probe: &ApplicabilityProbe, identifiers: &mut Vec<String>)
    ensures
        texts(final(identifiers)@) == texts(old(identifiers)@) + probe_identifiers(*probe),
    decreases probe_size(*probe),
{
    match probe {
        ApplicabilityProbe::ApplicationInstalled(values) => {
            let mut k: usize = 0;
            let ghost start = texts(identifiers@);
            while k < values.len()
                invariant
                    k <= values@.len(),
                    texts(identifiers@) == start + texts(values@).take(k as int),
                decreases values.len() - k,
            {
                let ghost before = texts(identifiers@);
                identifiers.push(values[k].clone());
                assert(texts(identifiers@) =~= before.push(values@[k as int]@));
                assert(texts(values@).take(k + 1) =~= texts(values@).take(k as int).push(values@[k as int]@));
                k = k + 1;
            }
            assert(texts(values@).take(k as int) =~= texts(values@));
        },
        ApplicabilityProbe::ApplicationVersion { identifier, .. } => {
            let ghost before = texts(identifiers@);
            identifiers.push(identifier.clone());
            assert(texts(identifiers@) =~= before + seq![identifier@]);
        },
        ApplicabilityProbe::AnyOf(items) => {
            let mut k: usize = 0;
            let ghost start = texts(identifiers@);
            while k < items.len()
                invariant
                    k <= items@.len(),
                    probe_size(*probe) == 1 + list_size(items@),
                    texts(identifiers@) == start + list_identifiers(items@.take(k as int)),
                decreases items.len() - k,
            {
                assert(items@.take(k + 1).drop_last() =~= items@.take(k as int));
                assert(items@.take(k + 1).last() == items@[k as int]);
                let ghost before = texts(identifiers@);
                proof {
                    lemma_item_size(items@, k as int);
                }
                collect_identifiers(&items[k], identifiers);
                assert(texts(identifiers@) =~= start + list_identifiers(items@.take(k + 1)));
                k = k + 1;
            }
            assert(items@.take(k as int) =~= items@);
        },
        ApplicabilityProbe::AllOf(items) => {
            let mut k: usize = 0;
            let ghost start = texts(identifiers@);
            while k < items.len()
                invariant
                    k <= items@.len(),
                    probe_size(*probe) == 1 + list_size(items@),
                    texts(identifiers@) == start + list_identifiers(items@.take(k as int)),
                decreases items.len() - k,
            {
                assert(items@.take(k + 1).drop_last() =~= items@.take(k as int));
                assert(items@.take(k + 1).last() == items@[k as int]);
                let ghost before = texts(identifiers@);
                proof {
                    lemma_item_size(items@, k as int);
                }
                collect_identifiers(&items[k], identifiers);
                assert(texts(identifiers@) =~= start + list_identifiers(items@.take(k + 1)));
                k = k + 1;
            }
            assert(items@.take(k as int) =~= items@);
        },
        _ => {
            assert(texts(identifiers@) =~= texts(identifiers@) + Seq::<Seq<char>>::empty());
        },
    }
}

/// The identifiers of a rule's applicability probes used to find its
/// application icon: those named positively, sorted by their ASCII
/// lower-case form, each once ignoring ASCII case.
pub fn cleanup_rule_application_identifiers(probes: &Vec<ApplicabilityProbe>) -> (r: Vec<String>)
    ensures
        texts(r@) == dedup_ignoring_case(sorted_by_lowercase(list_identifiers(probes@))),
{
    let mut identifiers: Vec<String> = Vec::new();
    let mut k: usize = 0;
    assert(texts(identifiers@) =~= Seq::<Seq<char>>::empty());
    while k < probes.len()
        invariant
            k <= probes@.len(),
            texts(identifiers@) == list_identifiers(probes@.take(k as int)),
        decreases probes.len() - k,
    {
        assert(probes@.take(k + 1).drop_last() =~= probes@.take(k as int));
        assert(probes@.take(k + 1).last() == probes@[k as int]);
        collect_identifiers(&probes[k], &mut identifiers);
        k = k + 1;
    }
    assert(probes@.take(k as int) =~= probes@);
    sorted_unique_ignoring_case(&identifiers)
}

} // verus!
