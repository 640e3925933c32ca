//! Unattended cleanup plans: a hashed, versioned list of low-risk default
//! rules chosen from a scan under an automation profile.
use vstd::prelude::*;
use vstd::utf8::encode_utf8;
use vstd::string::*;

use crate::models::{
    CleanupAutomationProfile, CleanupPlan, CleanupRequest, CleanupScanResult, RiskLevel,
    ScanItemStatus, ScanRuleResult, CLEANUP_AUTOMATION_PROFILE_SCHEMA_VERSION,
    CLEANUP_PLAN_SCHEMA_VERSION,
};
use crate::text::{
    chars_blank, chars_equal, chars_less, chars_of, decimal, is_blank, lex_lt, push_char,
    push_decimal, push_str,
};

verus! {

/// The BLAKE3 digest of a byte string, as computed by the `blake3` crate.
pub uninterp spec fn blake3_digest(data: Seq<u8>) -> Seq<u8>;

/// Hashes `data` with `blake3::hash` and returns the 32 digest bytes.
/// Trusted: the result is the crate's BLAKE3 digest of exactly `data`, and
/// that digest is `blake3::OUT_LEN` (32) bytes long.
#[verifier::external_body]
pub(crate) fn blake3_hash_bytes(data: &[u8]) -> (digest: Vec<u8>)
    ensures
        digest@ == blake3_digest(data@),
        digest@.len() == 32,
{
    blake3::hash(data).as_bytes().to_vec()
}

/// Lower-case hexadecimal digit for a nibble.
pub open spec fn hex_digit(v: nat) -> char {
    if v < 10 {
        (v + 48) as char
    } else {
        (v + 87) as char
    }
}

/// Lower-case hexadecimal rendering, two characters per byte.
pub open spec fn hex_lower(data: Seq<u8>) -> Seq<char>
    decreases data.len(),
{
    if data.len() == 0 {
        seq![]
    } else {
        hex_lower(data.drop_last()).push(hex_digit((data.last() / 16) as nat)).push(
            hex_digit((data.last() % 16) as nat),
        )
    }
}

pub(crate) proof fn lemma_hex_len(data: Seq<u8>)
    ensures
        hex_lower(data).len() == 2 * data.len(),
    decreases data.len(),
{
    if data.len() > 0 {
        lemma_hex_len(data.drop_last());
    }
}

/// A lower-case hexadecimal digit: `0`-`9` or `a`-`f`.
pub open spec fn is_lower_hex_digit(c: char) -> bool {
    ('0' <= c && c <= '9') || ('a' <= c && c <= 'f')
}

/// A plan hash as published: 64 lower-case hexadecimal digits.
pub open spec fn is_plan_hash_text(s: Seq<char>) -> bool {
    s.len() == 64 && forall|i: int| 0 <= i < s.len() ==> is_lower_hex_digit(#[trigger] s[i])
}

pub(crate) proof fn lemma_hex_digits(data: Seq<u8>)
    ensures
        forall|i: int| 0 <= i < hex_lower(data).len() ==> is_lower_hex_digit(#[trigger] hex_lower(data)[i]),
    decreases data.len(),
{
    if data.len() > 0 {
        lemma_hex_digits(data.drop_last());
        let hi = (data.last() / 16) as nat;
        let lo = (data.last() % 16) as nat;
        assert(is_lower_hex_digit(hex_digit(hi)));
        assert(is_lower_hex_digit(hex_digit(lo)));
        let p = hex_lower(data.drop_last());
        let h = hex_lower(data);
        assert(h == p.push(hex_digit(hi)).push(hex_digit(lo)));
        assert forall|i: int| 0 <= i < h.len() implies is_lower_hex_digit(#[trigger] h[i]) by {
            if i < p.len() {
                assert(h[i] == p[i]);
            } else if i == p.len() {
                assert(h[i] == hex_digit(hi));
            } else {
                assert(h[i] == hex_digit(lo));
            }
        }
    }
}

fn hex_digit_of(v: u8) -> (c: char)
    requires
        v < 16,
    ensures
        c == hex_digit(v as nat),
{
    if v < 10 {
        (v + 48) as char
    } else {
        (v + 87) as char
    }
}

/// Encodes bytes as lower-case hexadecimal text.
pub fn hex_string(data: &Vec<u8>) -> (s: String)
    ensures
        s@ == hex_lower(data@),
{
    let mut s = String::new();
    let mut i: usize = 0;
    while i < data.len()
        invariant
            i <= data.len(),
            s@ == hex_lower(data@.take(i as int)),
        decreases data.len() - i,
    {
        let b = data[i];
        push_char(&mut s, hex_digit_of(b / 16));
        push_char(&mut s, hex_digit_of(b % 16));
        assert(data@.take(i + 1).drop_last() =~= data@.take(i as int));
        i = i + 1;
    }
    assert(data@.take(data.len() as int) =~= data@);
    s
}

/// Little-endian bytes of `n` truncated to `count` bytes.
pub open spec fn le_bytes(n: nat, count: nat) -> Seq<u8>
    decreases count,
{
    if count == 0 {
        seq![]
    } else {
        seq![(n % 256) as u8] + le_bytes(n / 256, (count - 1) as nat)
    }
}

/// The eight little-endian bytes of a 64-bit integer (`u64::to_le_bytes`).
pub open spec fn le64(n: u64) -> Seq<u8> {
    le_bytes(n as nat, 8)
}

fn le64_bytes(n: u64) -> (v: Vec<u8>)
    ensures
        v@ == le64(n),
{
    let mut v: Vec<u8> = Vec::new();
    let mut rest: u64 = n;
    let mut i: usize = 0;
    while i < 8
        invariant
            i <= 8,
            v@ + le_bytes(rest as nat, (8 - i) as nat) == le_bytes(n as nat, 8),
        decreases 8 - i,
    {
        let ghost before = v@;
        v.push((rest % 256) as u8);
        assert(le_bytes(rest as nat, (8 - i) as nat) =~= seq![(rest % 256) as u8] + le_bytes(
            (rest / 256) as nat,
            (8 - i - 1) as nat,
        ));
        assert(v@ =~= before + seq![(rest % 256) as u8]);
        rest = rest / 256;
        i = i + 1;
    }
    assert(le_bytes(rest as nat, 0) =~= Seq::<u8>::empty());
    assert(v@ =~= le_bytes(n as nat, 8));
    v
}

/// A length-prefixed UTF-8 field of the plan digest.
pub open spec fn hashed_text(v: Seq<char>) -> Seq<u8> {
    le64(encode_utf8(v).len() as u64) + encode_utf8(v)
}

/// Length-prefixed fields of a list of texts, in order.
pub open spec fn hashed_texts(s: Seq<Seq<char>>) -> Seq<u8>
    decreases s.len(),
{
    if s.len() == 0 {
        seq![]
    } else {
        hashed_texts(s.drop_last()) + hashed_text(s.last())
    }
}

/// The character views of a list of owned strings.
pub open spec fn texts(v: Seq<String>) -> Seq<Seq<char>> {
    v.map_values(|s: String| s@)
}

/// Domain separation tag of the plan digest.
pub open spec fn plan_digest_tag() -> Seq<u8> {
    encode_utf8("mangodisk-cleanup-plan-v1"@)
}

/// Every field that the plan digest covers, in digest order.
pub open spec fn plan_digest_input(
    created_at_ms: u64,
    source_scan_at_ms: u64,
    source_scan_schema_version: Seq<char>,
    rule_ids: Seq<Seq<char>>,
    expected_bytes: u64,
    profile: CleanupAutomationProfile,
) -> Seq<u8> {
    plan_digest_tag() + le64(created_at_ms) + le64(source_scan_at_ms) + hashed_text(
        source_scan_schema_version,
    ) + le64(expected_bytes) + le64(profile.max_rule_count as u64) + le64(
        match profile.max_reclaimable_bytes {
            Some(limit) => limit,
            None => u64::MAX,
        },
    ) + hashed_texts(rule_ids) + hashed_texts(texts(profile.excluded_rule_ids@))
}

/// The hexadecimal plan hash of the digested fields.
pub open spec fn plan_hash_text(
    created_at_ms: u64,
    source_scan_at_ms: u64,
    source_scan_schema_version: Seq<char>,
    rule_ids: Seq<Seq<char>>,
    expected_bytes: u64,
    profile: CleanupAutomationProfile,
) -> Seq<char> {
    hex_lower(
        blake3_digest(
            plan_digest_input(
                created_at_ms,
                source_scan_at_ms,
                source_scan_schema_version,
                rule_ids,
                expected_bytes,
                profile,
            ),
        ),
    )
}

/// The plan identifier derived from a plan hash.
pub open spec fn plan_id_text(hash: Seq<char>) -> Seq<char> {
    "cleanup-plan-"@ + hash.take(16)
}

fn push_hashed_text(data: &mut Vec<u8>, value: &str)
    ensures
        final(data)@ == old(data)@ + hashed_text(value@),
{
    let bytes = value.as_bytes();
    let length = le64_bytes(bytes.len() as u64);
    data.extend_from_slice(length.as_slice());
    data.extend_from_slice(bytes);
    assert(final(data)@ =~= old(data)@ + hashed_text(value@)) by {
        assert(bytes@ == encode_utf8(value@));
    }
}

fn push_hashed_texts(data: &mut Vec<u8>, values: &Vec<String>)
    ensures
        final(data)@ == old(data)@ + hashed_texts(texts(values@)),
{
    let mut i: usize = 0;
    while i < values.len()
        invariant
            i <= values.len(),
            data@ == old(data)@ + hashed_texts(texts(values@.take(i as int))),
        decreases values.len() - i,
    {
        push_hashed_text(data, values[i].as_str());
        assert(texts(values@.take(i + 1)).drop_last() =~= texts(values@.take(i as int)));
        assert(data@ =~= old(data)@ + hashed_texts(texts(values@.take(i + 1))));
        i = i + 1;
    }
    assert(values@.take(values.len() as int) =~= values@);
}

fn push_le64(data: &mut Vec<u8>, n: u64)
    ensures
        final(data)@ == old(data)@ + le64(n),
{
    let bytes = le64_bytes(n);
    data.extend_from_slice(bytes.as_slice());
    assert(final(data)@ =~= old(data)@ + le64(n));
}

/// Computes the plan hash over the plan's digested fields.
pub fn plan_hash(
    created_at_ms: u64,
    source_scan_at_ms: u64,
    source_scan_schema_version: &str,
    rule_ids: &Vec<String>,
    expected_bytes: u64,
    profile: &CleanupAutomationProfile,
) -> (hash: String)
    ensures
        hash@ == plan_hash_text(
            created_at_ms,
            source_scan_at_ms,
            source_scan_schema_version@,
            texts(rule_ids@),
            expected_bytes,
            *profile,
        ),
        hash@.len() == 64,
        is_plan_hash_text(hash@),
{
    let mut data: Vec<u8> = Vec::new();
    data.extend_from_slice("mangodisk-cleanup-plan-v1".as_bytes());
    push_le64(&mut data, created_at_ms);
    push_le64(&mut data, source_scan_at_ms);
    push_hashed_text(&mut data, source_scan_schema_version);
    push_le64(&mut data, expected_bytes);
    push_le64(&mut data, profile.max_rule_count as u64);
    let limit = match profile.max_reclaimable_bytes {
        Some(limit) => limit,
        None => u64::MAX,
    };
    push_le64(&mut data, limit);
    push_hashed_texts(&mut data, rule_ids);
    push_hashed_texts(&mut data, &profile.excluded_rule_ids);
    assert(data@ =~= plan_digest_input(
        created_at_ms,
        source_scan_at_ms,
        source_scan_schema_version@,
        texts(rule_ids@),
        expected_bytes,
        *profile,
    ));
    let digest = blake3_hash_bytes(data.as_slice());
    proof {
        lemma_hex_len(digest@);
        lemma_hex_digits(digest@);
    }
    hex_string(&digest)
}

/// True when two positions of the list hold the same text.
pub open spec fn has_duplicates(s: Seq<Seq<char>>) -> bool {
    exists|i: int, j: int| 0 <= i < j < s.len() && s[i] == s[j]
}

fn texts_have_duplicates(values: &Vec<String>) -> (r: bool)
    ensures
        r == has_duplicates(texts(values@)),
{
    let mut chars: Vec<Vec<char>> = Vec::new();
    let mut k: usize = 0;
    while k < values.len()
        invariant
            k <= values.len(),
            chars@.len() == k,
            forall|m: int| 0 <= m < k ==> (#[trigger] chars@[m])@ == values@[m]@,
        decreases values.len() - k,
    {
        chars.push(chars_of(values[k].as_str()));
        k = k + 1;
    }
    let ghost s = texts(values@);
    let mut j: usize = 0;
    while j < chars.len()
        invariant
            j <= chars.len(),
            chars@.len() == values@.len(),
            s == texts(values@),
            forall|m: int| 0 <= m < chars@.len() ==> (#[trigger] chars@[m])@ == s[m],
            forall|a: int, b: int| 0 <= a < b < j ==> s[a] != s[b],
        decreases chars.len() - j,
    {
        let mut i: usize = 0;
        while i < j
            invariant
                i <= j,
                j < chars.len(),
                chars@.len() == values@.len(),
                s == texts(values@),
                forall|m: int| 0 <= m < chars@.len() ==> (#[trigger] chars@[m])@ == s[m],
                forall|a: int, b: int| 0 <= a < b < j ==> s[a] != s[b],
                forall|a: int| 0 <= a < i ==> s[a] != s[j as int],
            decreases j - i,
        {
            if chars_equal(&chars[i], &chars[j]) {
                assert(s[i as int] == s[j as int]);
                return true;
            }
            i = i + 1;
        }
        j = j + 1;
    }
    false
}

/// The profile error message, if the automation profile is unusable.
pub open spec fn profile_error(profile: CleanupAutomationProfile) -> Option<Seq<char>> {
    if profile.schema_version != CLEANUP_AUTOMATION_PROFILE_SCHEMA_VERSION {
        Some(
            "unsupported cleanup automation profile schema version: "@ + decimal(
                profile.schema_version as nat,
            ),
        )
    } else if profile.max_rule_count == 0 || profile.max_rule_count > 100 {
        Some("cleanup automation profile maxRuleCount must be between 1 and 100"@)
    } else if profile.max_reclaimable_bytes == Some(0u64) {
        Some("cleanup automation profile maxReclaimableBytes must be greater than zero"@)
    } else if exists|i: int|
        0 <= i < profile.excluded_rule_ids@.len() && is_blank(
            #[trigger] profile.excluded_rule_ids@[i]@,
        ) {
        Some("cleanup automation profile contains an empty rule ID"@)
    } else if has_duplicates(texts(profile.excluded_rule_ids@)) {
        Some("cleanup automation profile contains duplicate rule IDs"@)
    } else {
        None
    }
}

fn message(text: &str) -> (s: String)
    ensures
        s@ == text@,
{
    let mut s = String::new();
    push_str(&mut s, text);
    s
}

/// Whether any listed rule ID is blank after trimming whitespace.
fn any_blank(values: &Vec<String>) -> (r: bool)
    ensures
        r == exists|i: int| 0 <= i < values@.len() && is_blank(#[trigger] values@[i]@),
{
    let mut i: usize = 0;
    while i < values.len()
        invariant
            i <= values.len(),
            forall|k: int| 0 <= k < i ==> !is_blank(#[trigger] values@[k]@),
        decreases values.len() - i,
    {
        let chars = chars_of(values[i].as_str());
        if chars_blank(&chars) {
            return true;
        }
        i = i + 1;
    }
    false
}

/// The plan hash a plan's own fields determine.
pub open spec fn expected_plan_hash(plan: CleanupPlan) -> Seq<char> {
    plan_hash_text(
        plan.created_at_ms,
        plan.source_scan_at_ms,
        plan.source_scan_schema_version@,
        texts(plan.rule_ids@),
        plan.expected_bytes,
        plan.profile,
    )
}

/// The validation error message of a plan, if it is not executable.
pub open spec fn plan_error(plan: CleanupPlan) -> Option<Seq<char>> {
    if plan.schema_version != CLEANUP_PLAN_SCHEMA_VERSION {
        Some("unsupported cleanup plan schema version: "@ + decimal(plan.schema_version as nat))
    } else if profile_error(plan.profile).is_some() {
        profile_error(plan.profile)
    } else if plan.rule_ids@.len() == 0 {
        Some("cleanup plan contains no rules"@)
    } else if has_duplicates(texts(plan.rule_ids@)) {
        Some("cleanup plan contains duplicate rules"@)
    } else if plan.plan_hash@ != expected_plan_hash(plan) || plan.plan_id@ != plan_id_text(
        expected_plan_hash(plan),
    ) {
        Some("cleanup plan integrity validation failed"@)
    } else {
        None
    }
}

/// A scan rule that automation may select: found, safe, selected by
/// default and selectable.
pub open spec fn automation_eligible(rule: ScanRuleResult) -> bool {
    &&& rule.status == ScanItemStatus::Found
    &&& rule.risk == RiskLevel::Safe
    &&& rule.default_selected
    &&& rule.selectable
}

/// Index of the first scan rule with the given ID, or the rule count.
pub open spec fn first_rule_index(rules: Seq<ScanRuleResult>, id: Seq<char>) -> int
    decreases rules.len(),
{
    if rules.len() == 0 {
        0
    } else if rules[0].rule_id@ == id {
        0
    } else {
        1 + first_rule_index(rules.drop_first(), id)
    }
}

/// The first rejection of a plan's rules against a live scan, checked in plan order.
pub open spec fn live_scan_error(ids: Seq<Seq<char>>, rules: Seq<ScanRuleResult>) -> Option<
    Seq<char>,
>
    decreases ids.len(),
{
    if ids.len() == 0 {
        None
    } else {
        let id = ids[0];
        let k = first_rule_index(rules, id);
        if k >= rules.len() {
            Some("cleanup plan rule is no longer available: "@ + id)
        } else if !automation_eligible(rules[k]) {
            Some("cleanup plan rule is no longer eligible for automation: "@ + id)
        } else {
            live_scan_error(ids.drop_first(), rules)
        }
    }
}

proof fn lemma_first_rule_index(rules: Seq<ScanRuleResult>, id: Seq<char>, k: int)
    requires
        0 <= k <= rules.len(),
        forall|m: int| 0 <= m < k ==> rules[m].rule_id@ != id,
        k == rules.len() || rules[k].rule_id@ == id,
    ensures
        first_rule_index(rules, id) == k,
    decreases k,
{
    if k > 0 {
        lemma_first_rule_index(rules.drop_first(), id, k - 1);
    }
}

proof fn lemma_live_scan_error_prefix(ids: Seq<Seq<char>>, rules: Seq<ScanRuleResult>, n: int)
    requires
        0 <= n <= ids.len(),
        live_scan_error(ids.take(n), rules).is_some(),
    ensures
        live_scan_error(ids, rules) == live_scan_error(ids.take(n), rules),
    decreases n,
{
    if n > 0 {
        assert(ids.take(n).drop_first() =~= ids.drop_first().take(n - 1));
        assert(ids.take(n)[0] == ids[0]);
        let k = first_rule_index(rules, ids[0]);
        if k < rules.len() && automation_eligible(rules[k]) {
            lemma_live_scan_error_prefix(ids.drop_first(), rules, n - 1);
        }
    }
}

#[verifier::spinoff_prover]
proof fn lemma_live_scan_error_step(ids: Seq<Seq<char>>, rules: Seq<ScanRuleResult>, i: int)
    requires
        0 <= i < ids.len(),
        live_scan_error(ids.take(i), rules).is_none(),
    ensures
        live_scan_error(ids.take(i + 1), rules) == (if first_rule_index(rules, ids[i])
            >= rules.len() {
            Some("cleanup plan rule is no longer available: "@ + ids[i])
        } else if !automation_eligible(rules[first_rule_index(rules, ids[i])]) {
            Some("cleanup plan rule is no longer eligible for automation: "@ + ids[i])
        } else {
            None::<Seq<char>>
        }),
    decreases i,
{
    if i == 0 {
        assert(ids.take(1).drop_first() =~= Seq::<Seq<char>>::empty());
    } else {
        assert(ids.take(i).drop_first() =~= ids.drop_first().take(i - 1));
        assert(ids.take(i + 1).drop_first() =~= ids.drop_first().take(i));
        assert(ids.take(i)[0] == ids[0]);
        assert(ids.take(i + 1)[0] == ids[0]);
        lemma_live_scan_error_step(ids.drop_first(), rules, i - 1);
    }
}

/// Derives the plan identifier from the first sixteen hash characters.
fn plan_id(hash: &String) -> (id: String)
    requires
        hash@.len() >= 16,
    ensures
        id@ == plan_id_text(hash@),
{
    let chars = chars_of(hash.as_str());
    let mut id = message("cleanup-plan-");
    let mut i: usize = 0;
    while i < 16
        invariant
            i <= 16,
            chars@ == hash@,
            hash@.len() >= 16,
            id@ == "cleanup-plan-"@ + hash@.take(i as int),
        decreases 16 - i,
    {
        push_char(&mut id, chars[i]);
        assert(hash@.take(i + 1) =~= hash@.take(i as int).push(hash@[i as int]));
        i = i + 1;
    }
    id
}

/// Clones a list of strings.
pub fn clone_texts(values: &Vec<String>) -> (out: Vec<String>)
    ensures
        texts(out@) == texts(values@),
{
    let mut out: Vec<String> = Vec::new();
    let mut i: usize = 0;
    while i < values.len()
        invariant
            i <= values.len(),
            out@.len() == i,
            forall|m: int| 0 <= m < i ==> (#[trigger] out@[m])@ == values@[m]@,
        decreases values.len() - i,
    {
        out.push(values[i].clone());
        i = i + 1;
    }
    assert(texts(out@) =~= texts(values@));
    out
}

/// Milliseconds since the Unix epoch from the system clock (0 if the clock
/// reads before the epoch). Nothing is promised of the value.
#[verifier::external_body]
fn current_time_ms() -> u64 {
    match std::time::SystemTime::now().duration_since(std::time::UNIX_EPOCH) {
        Ok(duration) => duration.as_millis() as u64,
        Err(_) => 0,
    }
}

pub struct CleanupPlanService;

impl CleanupPlanService {
    /// Checks an automation profile: schema version, rule-count bounds, a
    /// positive byte limit, and non-blank, distinct excluded rule IDs.
    pub fn validate_profile(profile: &CleanupAutomationProfile) -> (r: Result<(), String>)
        ensures
            match r {
                Ok(()) => profile_error(*profile).is_none(),
                Err(e) => profile_error(*profile) == Some(e@),
            },
    {
        if profile.schema_version != CLEANUP_AUTOMATION_PROFILE_SCHEMA_VERSION {
            let mut e = message("unsupported cleanup automation profile schema version: ");
            push_decimal(&mut e, profile.schema_version as u64);
            return Err(e);
        }
        if profile.max_rule_count == 0 || profile.max_rule_count > 100 {
            return Err(message("cleanup automation profile maxRuleCount must be between 1 and 100"));
        }
        if profile.max_reclaimable_bytes == Some(0u64) {
            return Err(
                message("cleanup automation profile maxReclaimableBytes must be greater than zero"),
            );
        }
        if any_blank(&profile.excluded_rule_ids) {
            return Err(message("cleanup automation profile contains an empty rule ID"));
        }
        if texts_have_duplicates(&profile.excluded_rule_ids) {
            return Err(message("cleanup automation profile contains duplicate rule IDs"));
        }
        Ok(())
    }


    /// Builds an automation plan from a scan at the given creation time.
    ///
    /// Candidates are the found, safe, default-selected, selectable,
    /// non-empty rules not excluded by the profile, ranked by size (largest
    /// first, then by rule ID). The first `max_rule_count` ranked candidates
    /// are taken in order, skipping any that would exceed the byte limit.
    pub fn create_at(
        scan: &CleanupScanResult,
        profile: CleanupAutomationProfile,
        created_at_ms: u64,
    ) -> (r: Result<CleanupPlan, String>)
        ensures
            match r {
                Ok(plan) => {
                    &&& profile_error(profile).is_none()
                    &&& automation_selection(scan.rules@, profile).0.len() > 0
                    &&& plan_built_from(plan, *scan, profile, created_at_ms)
                    &&& is_plan_hash_text(plan.plan_hash@)
                },
                Err(e) => match profile_error(profile) {
                    Some(m) => e@ == m,
                    None => automation_selection(scan.rules@, profile).0.len() == 0 && e@
                        == no_candidates_message(),
                },
            },
    {
        match Self::validate_profile(&profile) {
            Ok(()) => {},
            Err(e) => {
                return Err(e);
            },
        }
        let candidates = collect_candidates(&scan.rules, &profile.excluded_rule_ids);
        let ranked_candidates = rank_candidates(candidates);
        let ghost keys = candidate_keys(ranked_candidates@);
        let limit = if profile.max_rule_count < ranked_candidates.len() {
            profile.max_rule_count
        } else {
            ranked_candidates.len()
        };
        let mut rule_ids: Vec<String> = Vec::new();
        let mut expected_bytes: u64 = 0;
        let mut k: usize = 0;
        while k < limit
            invariant
                k <= limit,
                limit <= ranked_candidates@.len(),
                keys == candidate_keys(ranked_candidates@),
                (texts(rule_ids@), expected_bytes) == greedy_selection(
                    keys.take(k as int),
                    profile.max_reclaimable_bytes,
                ),
            decreases limit - k,
        {
            let candidate = &ranked_candidates[k];
            let next_bytes = expected_bytes.saturating_add(candidate.bytes);
            assert(keys.take(k + 1).drop_last() =~= keys.take(k as int));
            let over = match profile.max_reclaimable_bytes {
                Some(max) => next_bytes > max,
                None => false,
            };
            if !over {
                expected_bytes = next_bytes;
                rule_ids.push(candidate.rule_id.clone());
                assert(texts(rule_ids@) =~= greedy_selection(
                    keys.take(k + 1),
                    profile.max_reclaimable_bytes,
                ).0);
            }
            k = k + 1;
        }
        if rule_ids.len() == 0 {
            return Err(message("no low-risk default cleanup items match the automation profile"));
        }
        let plan_hash = plan_hash(
            created_at_ms,
            scan.scanned_at_ms,
            scan.schema_version.as_str(),
            &rule_ids,
            expected_bytes,
            &profile,
        );
        let plan_id = plan_id(&plan_hash);
        Ok(
            CleanupPlan {
                schema_version: CLEANUP_PLAN_SCHEMA_VERSION,
                plan_id,
                plan_hash,
                created_at_ms,
                source_scan_at_ms: scan.scanned_at_ms,
                source_scan_schema_version: scan.schema_version.clone(),
                rule_ids,
                expected_bytes,
                profile,
            },
        )
    }

    /// Builds an automation plan from a scan, stamped with the current time.
    /// Whether a plan is built, and every field but the time-derived ones,
    /// depend only on the scan and the profile.
    pub fn create(scan: &CleanupScanResult, profile: CleanupAutomationProfile) -> (r: Result<
        CleanupPlan,
        String,
    >)
        ensures
            match r {
                Ok(plan) => {
                    &&& profile_error(profile).is_none()
                    &&& automation_selection(scan.rules@, profile).0.len() > 0
                    &&& plan_built_from(plan, *scan, profile, plan.created_at_ms)
                    &&& is_plan_hash_text(plan.plan_hash@)
                },
                Err(e) => match profile_error(profile) {
                    Some(m) => e@ == m,
                    None => automation_selection(scan.rules@, profile).0.len() == 0 && e@
                        == no_candidates_message(),
                },
            },
    {
        let created_at_ms = current_time_ms();
        Self::create_at(scan, profile, created_at_ms)
    }

    /// Checks a plan's schema, profile, rule list and integrity hash.
    pub fn validate(plan: &CleanupPlan) -> (r: Result<(), String>)
        ensures
            match r {
                Ok(()) => plan_error(*plan).is_none(),
                Err(e) => plan_error(*plan) == Some(e@),
            },
    {
        if plan.schema_version != CLEANUP_PLAN_SCHEMA_VERSION {
            let mut e = message("unsupported cleanup plan schema version: ");
            push_decimal(&mut e, plan.schema_version as u64);
            return Err(e);
        }
        match Self::validate_profile(&plan.profile) {
            Ok(()) => {},
            Err(e) => {
                return Err(e);
            },
        }
        if plan.rule_ids.len() == 0 {
            return Err(message("cleanup plan contains no rules"));
        }
        if texts_have_duplicates(&plan.rule_ids) {
            return Err(message("cleanup plan contains duplicate rules"));
        }
        let expected_hash = plan_hash(
            plan.created_at_ms,
            plan.source_scan_at_ms,
            plan.source_scan_schema_version.as_str(),
            &plan.rule_ids,
            plan.expected_bytes,
            &plan.profile,
        );
        let expected_id = plan_id(&expected_hash);
        if !chars_equal(&chars_of(plan.plan_hash.as_str()), &chars_of(expected_hash.as_str()))
            || !chars_equal(&chars_of(plan.plan_id.as_str()), &chars_of(expected_id.as_str())) {
            return Err(message("cleanup plan integrity validation failed"));
        }
        Ok(())
    }

    /// Converts a valid plan into an execution request for exactly its rules.
    pub fn execution_request(plan: &CleanupPlan, dry_run: bool) -> (r: Result<
        CleanupRequest,
        String,
    >)
        ensures
            match r {
                Ok(request) => {
                    &&& plan_error(*plan).is_none()
                    &&& texts(request.rule_ids@) == texts(plan.rule_ids@)
                    &&& request.dry_run == dry_run
                    &&& request.project_roots@.len() == 0
                    &&& request.source_selections@.len() == 0
                },
                Err(e) => plan_error(*plan) == Some(e@),
            },
    {
        match Self::validate(plan) {
            Ok(()) => {},
            Err(e) => {
                return Err(e);
            },
        }
        Ok(
            CleanupRequest {
                rule_ids: clone_texts(&plan.rule_ids),
                dry_run,
                project_roots: Vec::new(),
                source_selections: Vec::new(),
            },
        )
    }

    /// Revalidates automation eligibility against a fresh read-only scan.
    ///
    /// A plan hash detects accidental edits, but it is not an authorization
    /// token. Rechecking live rule metadata prevents a hand-crafted plan or a
    /// later catalog change from promoting recoverable and manual rules.
    pub fn validate_against_scan(plan: &CleanupPlan, scan: &CleanupScanResult) -> (r: Result<
        (),
        String,
    >)
        ensures
            match r {
                Ok(()) => plan_error(*plan).is_none() && live_scan_error(
                    texts(plan.rule_ids@),
                    scan.rules@,
                ).is_none(),
                Err(e) => plan_error(*plan) == Some(e@) || (plan_error(*plan).is_none()
                    && live_scan_error(texts(plan.rule_ids@), scan.rules@) == Some(e@)),
            },
    {
        match Self::validate(plan) {
            Ok(()) => {},
            Err(e) => {
                return Err(e);
            },
        }
        let ghost ids = texts(plan.rule_ids@);
        let mut i: usize = 0;
        while i < plan.rule_ids.len()
            invariant
                i <= plan.rule_ids@.len(),
                ids == texts(plan.rule_ids@),
                plan_error(*plan).is_none(),
                live_scan_error(ids.take(i as int), scan.rules@).is_none(),
            decreases plan.rule_ids.len() - i,
        {
            let id_chars = chars_of(plan.rule_ids[i].as_str());
            let mut k: usize = 0;
            let mut found = false;
            while k < scan.rules.len() && !found
                invariant
                    k <= scan.rules@.len(),
                    i < ids.len(),
                    ids == texts(plan.rule_ids@),
                    id_chars@ == ids[i as int],
                    forall|m: int| 0 <= m < k ==> scan.rules@[m].rule_id@ != ids[i as int],
                    found ==> k < scan.rules@.len() && scan.rules@[k as int].rule_id@
                        == ids[i as int],
                decreases scan.rules.len() - k, (if found { 0int } else { 1int }),
            {
                if chars_equal(&chars_of(scan.rules[k].rule_id.as_str()), &id_chars) {
                    found = true;
                } else {
                    k = k + 1;
                }
            }
            assert(ids[i as int] == plan.rule_ids@[i as int]@);
            proof {
                lemma_first_rule_index(scan.rules@, ids[i as int], k as int);
                lemma_live_scan_error_step(ids, scan.rules@, i as int);
                if live_scan_error(ids.take(i + 1), scan.rules@).is_some() {
                    lemma_live_scan_error_prefix(ids, scan.rules@, i + 1);
                }
            }
            if !found {
                let mut e = message("cleanup plan rule is no longer available: ");
                push_str(&mut e, plan.rule_ids[i].as_str());
                return Err(e);
            }
            let rule = &scan.rules[k];
            if rule.status != ScanItemStatus::Found || rule.risk != RiskLevel::Safe
                || !rule.default_selected || !rule.selectable {
                let mut e = message("cleanup plan rule is no longer eligible for automation: ");
                push_str(&mut e, plan.rule_ids[i].as_str());
                return Err(e);
            }
            i = i + 1;
        }
        assert(ids.take(plan.rule_ids@.len() as int) =~= ids);
        Ok(())
    }
}

/// A scan rule automation may plan: eligible, non-empty and not excluded.
pub open spec fn is_plan_candidate(rule: ScanRuleResult, excluded: Seq<Seq<char>>) -> bool {
    automation_eligible(rule) && rule.bytes > 0 && !excluded.contains(rule.rule_id@)
}

/// The (bytes, rule ID) ranking key of each plan candidate, in scan order.
pub open spec fn plan_candidates(rules: Seq<ScanRuleResult>, excluded: Seq<Seq<char>>) -> Seq<
    (u64, Seq<char>),
>
    decreases rules.len(),
{
    if rules.len() == 0 {
        seq![]
    } else {
        let earlier = plan_candidates(rules.drop_last(), excluded);
        if is_plan_candidate(rules.last(), excluded) {
            earlier.push((rules.last().bytes, rules.last().rule_id@))
        } else {
            earlier
        }
    }
}

/// Larger candidates rank first; equal sizes rank by rule ID.
pub open spec fn ranks_before(a: (u64, Seq<char>), b: (u64, Seq<char>)) -> bool {
    a.0 > b.0 || (a.0 == b.0 && lex_lt(a.1, b.1))
}

/// Position before the first entry that `x` ranks before.
pub open spec fn rank_position(s: Seq<(u64, Seq<char>)>, x: (u64, Seq<char>)) -> int
    decreases s.len(),
{
    if s.len() == 0 {
        0
    } else if ranks_before(x, s[0]) {
        0
    } else {
        1 + rank_position(s.drop_first(), x)
    }
}

/// Candidates in ranking order (a stable insertion of each candidate).
pub open spec fn ranked(s: Seq<(u64, Seq<char>)>) -> Seq<(u64, Seq<char>)>
    decreases s.len(),
{
    if s.len() == 0 {
        s
    } else {
        let r = ranked(s.drop_last());
        r.insert(rank_position(r, s.last()), s.last())
    }
}

/// Takes ranked candidates in order, skipping any that would push the
/// saturating byte total over the limit. Returns the IDs and the total.
pub open spec fn greedy_selection(s: Seq<(u64, Seq<char>)>, limit: Option<u64>) -> (
    Seq<Seq<char>>,
    u64,
)
    decreases s.len(),
{
    if s.len() == 0 {
        (seq![], 0u64)
    } else {
        let earlier = greedy_selection(s.drop_last(), limit);
        let next = earlier.1.saturating_add(s.last().0);
        if limit.is_some() && next > limit.unwrap() {
            earlier
        } else {
            (earlier.0.push(s.last().1), next)
        }
    }
}

/// The rules and expected bytes automation selects from a scan.
pub open spec fn automation_selection(
    rules: Seq<ScanRuleResult>,
    profile: CleanupAutomationProfile,
) -> (Seq<Seq<char>>, u64) {
    let r = ranked(plan_candidates(rules, texts(profile.excluded_rule_ids@)));
    let n = if profile.max_rule_count < r.len() {
        profile.max_rule_count as int
    } else {
        r.len() as int
    };
    greedy_selection(r.take(n), profile.max_reclaimable_bytes)
}

/// `plan` is the plan built from `scan` under `profile` at `created_at_ms`.
pub open spec fn plan_built_from(
    plan: CleanupPlan,
    scan: CleanupScanResult,
    profile: CleanupAutomationProfile,
    created_at_ms: u64,
) -> bool {
    let (ids, total) = automation_selection(scan.rules@, profile);
    &&& plan.schema_version == CLEANUP_PLAN_SCHEMA_VERSION
    &&& texts(plan.rule_ids@) == ids
    &&& plan.expected_bytes == total
    &&& plan.created_at_ms == created_at_ms
    &&& plan.source_scan_at_ms == scan.scanned_at_ms
    &&& plan.source_scan_schema_version@ == scan.schema_version@
    &&& plan.profile == profile
    &&& plan.plan_hash@ == plan_hash_text(
        created_at_ms,
        scan.scanned_at_ms,
        scan.schema_version@,
        ids,
        total,
        profile,
    )
    &&& plan.plan_id@ == plan_id_text(plan.plan_hash@)
}

/// The message returned when no candidate fits the profile.
pub open spec fn no_candidates_message() -> Seq<char> {
    "no low-risk default cleanup items match the automation profile"@
}

pub proof fn lemma_rank_position(s: Seq<(u64, Seq<char>)>, x: (u64, Seq<char>), j: int)
    requires
        0 <= j <= s.len(),
        forall|m: int| 0 <= m < j ==> !ranks_before(x, s[m]),
        j == s.len() || ranks_before(x, s[j]),
    ensures
        rank_position(s, x) == j,
    decreases j,
{
    if j > 0 {
        lemma_rank_position(s.drop_first(), x, j - 1);
    }
}

struct PlanCandidate {
    bytes: u64,
    rule_id: String,
    chars: Vec<char>,
}

spec fn candidate_keys(v: Seq<PlanCandidate>) -> Seq<(u64, Seq<char>)> {
    v.map_values(|c: PlanCandidate| (c.bytes, c.rule_id@))
}

spec fn candidates_consistent(v: Seq<PlanCandidate>) -> bool {
    forall|m: int| 0 <= m < v.len() ==> (#[trigger] v[m]).chars@ == v[m].rule_id@
}

fn candidate_ranks_before(a: &PlanCandidate, b: &PlanCandidate) -> (r: bool)
    requires
        a.chars@ == a.rule_id@,
        b.chars@ == b.rule_id@,
    ensures
        r == ranks_before((a.bytes, a.rule_id@), (b.bytes, b.rule_id@)),
{
    a.bytes > b.bytes || (a.bytes == b.bytes && chars_less(&a.chars, &b.chars))
}

fn contains_text(values: &Vec<Vec<char>>, x: &Vec<char>) -> (r: bool)
    ensures
        r == values@.map_values(|v: Vec<char>| v@).contains(x@),
{
    let ghost views = values@.map_values(|v: Vec<char>| v@);
    let mut i: usize = 0;
    while i < values.len()
        invariant
            i <= values.len(),
            views == values@.map_values(|v: Vec<char>| v@),
            forall|m: int| 0 <= m < i ==> views[m] != x@,
        decreases values.len() - i,
    {
        if chars_equal(&values[i], x) {
            assert(views[i as int] == x@);
            return true;
        }
        i = i + 1;
    }
    false
}

/// Collects the plan candidates of a scan in scan order.
fn collect_candidates(rules: &Vec<ScanRuleResult>, excluded: &Vec<String>) -> (out: Vec<
    PlanCandidate,
>)
    ensures
        candidate_keys(out@) == plan_candidates(rules@, texts(excluded@)),
        candidates_consistent(out@),
{
    let mut excluded_chars: Vec<Vec<char>> = Vec::new();
    let mut k: usize = 0;
    while k < excluded.len()
        invariant
            k <= excluded.len(),
            excluded_chars@.len() == k,
            forall|m: int| 0 <= m < k ==> (#[trigger] excluded_chars@[m])@ == excluded@[m]@,
        decreases excluded.len() - k,
    {
        excluded_chars.push(chars_of(excluded[k].as_str()));
        k = k + 1;
    }
    assert(excluded_chars@.map_values(|v: Vec<char>| v@) =~= texts(excluded@));
    let mut out: Vec<PlanCandidate> = Vec::new();
    let mut i: usize = 0;
    while i < rules.len()
        invariant
            i <= rules.len(),
            excluded_chars@.map_values(|v: Vec<char>| v@) == texts(excluded@),
            candidate_keys(out@) == plan_candidates(rules@.take(i as int), texts(excluded@)),
            candidates_consistent(out@),
        decreases rules.len() - i,
    {
        let rule = &rules[i];
        assert(rules@.take(i + 1).drop_last() =~= rules@.take(i as int));
        let chars = chars_of(rule.rule_id.as_str());
        if rule.status == ScanItemStatus::Found && rule.risk == RiskLevel::Safe
            && rule.default_selected && rule.selectable && rule.bytes > 0 && !contains_text(
            &excluded_chars,
            &chars,
        ) {
            out.push(PlanCandidate { bytes: rule.bytes, rule_id: rule.rule_id.clone(), chars });
            assert(candidate_keys(out@) =~= plan_candidates(
                rules@.take(i + 1),
                texts(excluded@),
            ));
        } else {
            assert(candidate_keys(out@) =~= plan_candidates(
                rules@.take(i + 1),
                texts(excluded@),
            ));
        }
        i = i + 1;
    }
    assert(rules@.take(rules.len() as int) =~= rules@);
    out
}

/// Orders candidates by the ranking (stable insertion).
fn rank_candidates(input: Vec<PlanCandidate>) -> (out: Vec<PlanCandidate>)
    requires
        candidates_consistent(input@),
    ensures
        candidate_keys(out@) == ranked(candidate_keys(input@)),
        candidates_consistent(out@),
{
    let ghost original = input@;
    let mut rest = input;
    let mut out: Vec<PlanCandidate> = Vec::new();
    let n = rest.len();
    let mut taken: usize = 0;
    while taken < n
        invariant
            taken <= n,
            n == original.len(),
            rest@ == original.skip(taken as int),
            candidate_keys(out@) == ranked(candidate_keys(original.take(taken as int))),
            candidates_consistent(out@),
            candidates_consistent(original),
        decreases n - taken,
    {
        let c = rest.remove(0);
        assert(c == original[taken as int]);
        assert(original.skip(taken + 1) =~= original.skip(taken as int).drop_first());
        let mut j: usize = 0;
        while j < out.len() && !candidate_ranks_before(&c, &out[j])
            invariant
                j <= out@.len(),
                c.chars@ == c.rule_id@,
                candidates_consistent(out@),
                forall|m: int|
                    0 <= m < j ==> !ranks_before(
                        (c.bytes, c.rule_id@),
                        (#[trigger] candidate_keys(out@)[m]),
                    ),
            decreases out.len() - j,
        {
            j = j + 1;
        }
        let ghost before = out@;
        proof {
            lemma_rank_position(candidate_keys(before), (c.bytes, c.rule_id@), j as int);
            assert(candidate_keys(original.take(taken + 1)).drop_last() =~= candidate_keys(
                original.take(taken as int),
            ));
        }
        out.insert(j, c);
        assert(candidate_keys(out@) =~= candidate_keys(before).insert(
            j as int,
            (c.bytes, c.rule_id@),
        ));
        taken = taken + 1;
    }
    assert(original.take(n as int) =~= original);
    out
}

} // verus!

verus! {

/// No two candidates share a rule ID.
pub open spec fn distinct_keys(s: Seq<(u64, Seq<char>)>) -> bool {
    forall|a: int, b: int| 0 <= a < b < s.len() ==> s[a].1 != s[b].1
}

/// No two scan rules share a rule ID.
pub open spec fn unique_rule_ids(rules: Seq<ScanRuleResult>) -> bool {
    forall|a: int, b: int| 0 <= a < b < rules.len() ==> rules[a].rule_id@ != rules[b].rule_id@
}

/// `x` is the ranking key of some plan candidate among `rules`.
pub open spec fn key_of_candidate(
    rules: Seq<ScanRuleResult>,
    excluded: Seq<Seq<char>>,
    x: (u64, Seq<char>),
) -> bool {
    exists|j: int|
        0 <= j < rules.len() && is_plan_candidate(rules[j], excluded) && (
        rules[j].bytes,
        rules[j].rule_id@,
    ) == x
}

proof fn lemma_candidates_origin(rules: Seq<ScanRuleResult>, excluded: Seq<Seq<char>>)
    ensures
        forall|i: int|
            0 <= i < plan_candidates(rules, excluded).len() ==> key_of_candidate(
                rules,
                excluded,
                #[trigger] plan_candidates(rules, excluded)[i],
            ),
    decreases rules.len(),
{
    if rules.len() > 0 {
        let earlier = rules.drop_last();
        lemma_candidates_origin(earlier, excluded);
        let c = plan_candidates(rules, excluded);
        let e = plan_candidates(earlier, excluded);
        assert forall|i: int| 0 <= i < c.len() implies key_of_candidate(
            rules,
            excluded,
            #[trigger] c[i],
        ) by {
            if i < e.len() {
                assert(c[i] == e[i]);
                assert(key_of_candidate(earlier, excluded, e[i]));
                let j = choose|j: int|
                    0 <= j < earlier.len() && is_plan_candidate(earlier[j], excluded) && (
                    earlier[j].bytes,
                    earlier[j].rule_id@,
                ) == e[i];
                assert(rules[j] == earlier[j]);
            } else {
                assert(rules[rules.len() - 1] == rules.last());
            }
        }
    }
}

proof fn lemma_candidates_distinct(rules: Seq<ScanRuleResult>, excluded: Seq<Seq<char>>)
    requires
        unique_rule_ids(rules),
    ensures
        distinct_keys(plan_candidates(rules, excluded)),
    decreases rules.len(),
{
    if rules.len() > 0 {
        let earlier = rules.drop_last();
        lemma_candidates_distinct(earlier, excluded);
        lemma_candidates_origin(earlier, excluded);
        let e = plan_candidates(earlier, excluded);
        if is_plan_candidate(rules.last(), excluded) {
            let c = plan_candidates(rules, excluded);
            assert forall|a: int, b: int| 0 <= a < b < c.len() implies c[a].1 != c[b].1 by {
                if b == c.len() - 1 {
                    assert(key_of_candidate(earlier, excluded, e[a]));
                    let j = choose|j: int|
                        0 <= j < earlier.len() && is_plan_candidate(earlier[j], excluded) && (
                        earlier[j].bytes,
                        earlier[j].rule_id@,
                    ) == e[a];
                    assert(rules[j] == earlier[j]);
                    assert(rules[rules.len() - 1] == rules.last());
                }
            }
        }
    }
}

proof fn lemma_rank_position_bounds(s: Seq<(u64, Seq<char>)>, x: (u64, Seq<char>))
    ensures
        0 <= rank_position(s, x) <= s.len(),
    decreases s.len(),
{
    if s.len() > 0 {
        lemma_rank_position_bounds(s.drop_first(), x);
    }
}

proof fn lemma_ranked(s: Seq<(u64, Seq<char>)>)
    ensures
        ranked(s).len() == s.len(),
        forall|x: (u64, Seq<char>)| ranked(s).contains(x) <==> s.contains(x),
        distinct_keys(s) ==> distinct_keys(ranked(s)),
    decreases s.len(),
{
    if s.len() > 0 {
        let d = s.drop_last();
        let x = s.last();
        lemma_ranked(d);
        let r = ranked(d);
        let p = rank_position(r, x);
        lemma_rank_position_bounds(r, x);
        let out = r.insert(p, x);
        assert(out == ranked(s));
        assert forall|y: (u64, Seq<char>)| out.contains(y) <==> s.contains(y) by {
            if out.contains(y) {
                let k = choose|k: int| 0 <= k < out.len() && out[k] == y;
                if k < p {
                    assert(r[k] == y);
                    assert(d.contains(y));
                    let m = choose|m: int| 0 <= m < d.len() && d[m] == y;
                    assert(s[m] == y);
                } else if k == p {
                    assert(s[s.len() - 1] == y);
                } else {
                    assert(r[k - 1] == y);
                    assert(d.contains(y));
                    let m = choose|m: int| 0 <= m < d.len() && d[m] == y;
                    assert(s[m] == y);
                }
            }
            if s.contains(y) {
                let k = choose|k: int| 0 <= k < s.len() && s[k] == y;
                if k == s.len() - 1 {
                    assert(out[p] == y);
                } else {
                    assert(d[k] == y);
                    assert(d.contains(y));
                    assert(r.contains(y));
                    let m = choose|m: int| 0 <= m < r.len() && r[m] == y;
                    if m < p {
                        assert(out[m] == y);
                    } else {
                        assert(out[m + 1] == y);
                    }
                }
            }
        }
        if distinct_keys(s) {
            assert(distinct_keys(d));
            assert forall|m: int| 0 <= m < r.len() implies r[m].1 != x.1 by {
                assert(r.contains(r[m]));
                assert(d.contains(r[m]));
                let k = choose|k: int| 0 <= k < d.len() && d[k] == r[m];
                assert(s[k] == r[m]);
            }
            assert forall|a: int, b: int| 0 <= a < b < out.len() implies out[a].1
                != out[b].1 by {
                if a < p && b < p {
                    assert(out[a] == r[a] && out[b] == r[b]);
                } else if a < p && b == p {
                    assert(out[a] == r[a]);
                } else if a < p {
                    assert(out[a] == r[a] && out[b] == r[b - 1]);
                } else if a == p {
                    assert(out[b] == r[b - 1]);
                } else {
                    assert(out[a] == r[a - 1] && out[b] == r[b - 1]);
                }
            }
        }
    }
}

proof fn lemma_greedy(s: Seq<(u64, Seq<char>)>, limit: Option<u64>)
    ensures
        greedy_selection(s, limit).0.len() <= s.len(),
        forall|i: int|
            0 <= i < greedy_selection(s, limit).0.len() ==> exists|k: int|
                0 <= k < s.len() && s[k].1 == #[trigger] greedy_selection(s, limit).0[i],
        distinct_keys(s) ==> !has_duplicates(greedy_selection(s, limit).0),
        limit.is_some() ==> greedy_selection(s, limit).1 <= limit.unwrap(),
    decreases s.len(),
{
    if s.len() > 0 {
        let d = s.drop_last();
        lemma_greedy(d, limit);
        let g = greedy_selection(s, limit).0;
        let e = greedy_selection(d, limit).0;
        assert forall|i: int| 0 <= i < g.len() implies exists|k: int|
            0 <= k < s.len() && s[k].1 == #[trigger] g[i] by {
            if i < e.len() {
                let k = choose|k: int| 0 <= k < d.len() && d[k].1 == e[i];
                assert(s[k] == d[k]);
            } else {
                assert(s[s.len() - 1] == s.last());
            }
        }
        if distinct_keys(s) {
            assert(distinct_keys(d));
            if g.len() > e.len() {
                assert forall|a: int, b: int| 0 <= a < b < g.len() implies g[a] != g[b] by {
                    if b == g.len() - 1 {
                        let k = choose|k: int| 0 <= k < d.len() && d[k].1 == e[a];
                        assert(s[k] == d[k]);
                    } else {
                        assert(g[a] == e[a] && g[b] == e[b]);
                    }
                }
            }
        }
    }
}

/// The rules of a plan built from a scan are exactly rules automation may
/// clean: each planned rule ID names a found, safe, default-selected,
/// selectable, non-empty scan rule that the profile does not exclude; the
/// plan holds at most `max_rule_count` rules and, when the profile sets a
/// byte limit, expects at most that many bytes.
pub proof fn law_plans_only_contain_eligible_rules(
    scan: CleanupScanResult,
    profile: CleanupAutomationProfile,
    created_at_ms: u64,
    plan: CleanupPlan,
)
    requires
        plan_built_from(plan, scan, profile, created_at_ms),
    ensures
        forall|i: int|
            0 <= i < plan.rule_ids@.len() ==> exists|j: int|
                0 <= j < scan.rules@.len() && is_plan_candidate(
                    scan.rules@[j],
                    texts(profile.excluded_rule_ids@),
                ) && scan.rules@[j].rule_id@ == (#[trigger] plan.rule_ids@[i])@,
        plan.rule_ids@.len() <= profile.max_rule_count,
        profile.max_reclaimable_bytes.is_some() ==> plan.expected_bytes
            <= profile.max_reclaimable_bytes.unwrap(),
{
    let ex = texts(profile.excluded_rule_ids@);
    let c = plan_candidates(scan.rules@, ex);
    let r = ranked(c);
    lemma_candidates_origin(scan.rules@, ex);
    lemma_ranked(c);
    let n = if profile.max_rule_count < r.len() {
        profile.max_rule_count as int
    } else {
        r.len() as int
    };
    let t = r.take(n);
    lemma_greedy(t, profile.max_reclaimable_bytes);
    let ids = texts(plan.rule_ids@);
    assert forall|i: int| 0 <= i < plan.rule_ids@.len() implies exists|j: int|
        0 <= j < scan.rules@.len() && is_plan_candidate(scan.rules@[j], ex)
            && scan.rules@[j].rule_id@ == (#[trigger] plan.rule_ids@[i])@ by {
        assert(ids[i] == plan.rule_ids@[i]@);
        let k = choose|k: int| 0 <= k < t.len() && t[k].1 == ids[i];
        assert(r.contains(t[k]));
        assert(c.contains(t[k]));
        let m = choose|m: int| 0 <= m < c.len() && c[m] == t[k];
        assert(key_of_candidate(scan.rules@, ex, c[m]));
        let j = choose|j: int|
            0 <= j < scan.rules@.len() && is_plan_candidate(scan.rules@[j], ex) && (
            scan.rules@[j].bytes,
            scan.rules@[j].rule_id@,
        ) == c[m];
    }
}

/// A plan built from a scan whose rule IDs are unique passes plan
/// validation: its schema, profile, non-empty duplicate-free rule list and
/// integrity hash are all accepted.
pub proof fn law_created_plans_validate(
    scan: CleanupScanResult,
    profile: CleanupAutomationProfile,
    created_at_ms: u64,
    plan: CleanupPlan,
)
    requires
        plan_built_from(plan, scan, profile, created_at_ms),
        profile_error(profile).is_none(),
        plan.rule_ids@.len() > 0,
        unique_rule_ids(scan.rules@),
    ensures
        plan_error(plan).is_none(),
{
    let ex = texts(profile.excluded_rule_ids@);
    let c = plan_candidates(scan.rules@, ex);
    let r = ranked(c);
    lemma_candidates_distinct(scan.rules@, ex);
    lemma_ranked(c);
    let n = if profile.max_rule_count < r.len() {
        profile.max_rule_count as int
    } else {
        r.len() as int
    };
    let t = r.take(n);
    assert(distinct_keys(t));
    lemma_greedy(t, profile.max_reclaimable_bytes);
}

/// A plan built from a scan whose rule IDs are unique is still executable
/// against that same scan: every planned rule is found there and eligible.
pub proof fn law_created_plans_pass_their_own_scan(
    scan: CleanupScanResult,
    profile: CleanupAutomationProfile,
    created_at_ms: u64,
    plan: CleanupPlan,
)
    requires
        plan_built_from(plan, scan, profile, created_at_ms),
        unique_rule_ids(scan.rules@),
    ensures
        live_scan_error(texts(plan.rule_ids@), scan.rules@).is_none(),
{
    law_plans_only_contain_eligible_rules(scan, profile, created_at_ms, plan);
    let ids = texts(plan.rule_ids@);
    assert forall|i: int| 0 <= i < ids.len() implies {
        let k = first_rule_index(scan.rules@, #[trigger] ids[i]);
        k < scan.rules@.len() && automation_eligible(scan.rules@[k])
    } by {
        assert(ids[i] == plan.rule_ids@[i]@);
        let j = choose|j: int|
            0 <= j < scan.rules@.len() && is_plan_candidate(
                scan.rules@[j],
                texts(profile.excluded_rule_ids@),
            ) && scan.rules@[j].rule_id@ == plan.rule_ids@[i]@;
        lemma_first_index_unique(scan.rules@, ids[i], j);
    }
    lemma_live_scan_error_none(ids, scan.rules@);
}

proof fn lemma_first_index_unique(rules: Seq<ScanRuleResult>, id: Seq<char>, j: int)
    requires
        unique_rule_ids(rules),
        0 <= j < rules.len(),
        rules[j].rule_id@ == id,
    ensures
        first_rule_index(rules, id) == j,
{
    lemma_first_rule_index(rules, id, j);
}

proof fn lemma_live_scan_error_none(ids: Seq<Seq<char>>, rules: Seq<ScanRuleResult>)
    requires
        forall|i: int|
            0 <= i < ids.len() ==> {
                let k = first_rule_index(rules, #[trigger] ids[i]);
                k < rules.len() && automation_eligible(rules[k])
            },
    ensures
        live_scan_error(ids, rules).is_none(),
    decreases ids.len(),
{
    if ids.len() > 0 {
        assert forall|i: int| 0 <= i < ids.drop_first().len() implies {
            let k = first_rule_index(rules, #[trigger] ids.drop_first()[i]);
            k < rules.len() && automation_eligible(rules[k])
        } by {
            assert(ids.drop_first()[i] == ids[i + 1]);
        }
        assert(ids[0] == ids[0]);
        lemma_live_scan_error_none(ids.drop_first(), rules);
    }
}


/// Every entry ranks before, or alongside, each later one.
pub open spec fn in_rank_order(s: Seq<(u64, Seq<char>)>) -> bool {
    forall|i: int, j: int| 0 <= i < j < s.len() ==> !ranks_before(#[trigger] s[j], #[trigger] s[i])
}

/// Ranking is a strict order on (size, rule ID) keys.
pub proof fn lemma_ranks_before_is_strict(a: (u64, Seq<char>), b: (u64, Seq<char>), c: (u64, Seq<char>))
    ensures
        !ranks_before(a, a),
        ranks_before(a, b) ==> !ranks_before(b, a),
        ranks_before(a, b) && ranks_before(b, c) ==> ranks_before(a, c),
        !ranks_before(a, b) && !ranks_before(b, a) ==> a.0 == b.0 && a.1 == b.1,
{
    crate::text::lemma_lex_lt_irreflexive(a.1);
    crate::text::lemma_lex_lt_total(a.1, b.1);
    if lex_lt(a.1, b.1) && lex_lt(b.1, a.1) {
        crate::text::lemma_lex_lt_transitive(a.1, b.1, a.1);
    }
    if a.0 == b.0 && b.0 == c.0 && lex_lt(a.1, b.1) && lex_lt(b.1, c.1) {
        crate::text::lemma_lex_lt_transitive(a.1, b.1, c.1);
    }
}

/// Where a candidate goes: after every entry it does not rank before, at the
/// first one it does.
proof fn lemma_rank_position_facts(s: Seq<(u64, Seq<char>)>, x: (u64, Seq<char>))
    ensures
        0 <= rank_position(s, x) <= s.len(),
        forall|j: int| 0 <= j < rank_position(s, x) ==> !ranks_before(x, #[trigger] s[j]),
        rank_position(s, x) < s.len() ==> ranks_before(x, s[rank_position(s, x)]),
    decreases s.len(),
{
    if s.len() > 0 && !ranks_before(x, s[0]) {
        lemma_rank_position_facts(s.drop_first(), x);
        assert forall|j: int| 0 <= j < rank_position(s, x) implies !ranks_before(x, #[trigger] s[j]) by {
            if j > 0 {
                assert(s[j] == s.drop_first()[j - 1]);
            }
        }
    }
}

/// Inserting an entry where `rank_position` puts it keeps an ordered list
/// ordered.
proof fn lemma_rank_insert_keeps_order(r: Seq<(u64, Seq<char>)>, x: (u64, Seq<char>))
    requires
        in_rank_order(r),
    ensures
        in_rank_order(r.insert(rank_position(r, x), x)),
{
    lemma_rank_position_facts(r, x);
    let p = rank_position(r, x);
    let out = r.insert(p, x);
    assert forall|i: int, j: int| 0 <= i < j < out.len() implies !ranks_before(#[trigger] out[j], #[trigger] out[i]) by {
        if i < p && j == p {
            assert(out[i] == r[i]);
        } else if i == p && j > p {
            assert(out[j] == r[j - 1]);
            lemma_ranks_before_is_strict(r[j - 1], x, r[p]);
            lemma_ranks_before_is_strict(r[j - 1], r[p], x);
            if j - 1 > p {
                assert(!ranks_before(r[j - 1], r[p]));
            }
        } else if i < p && j < p {
            assert(out[i] == r[i] && out[j] == r[j]);
        } else if i < p {
            assert(out[i] == r[i] && out[j] == r[j - 1]);
        } else {
            assert(out[i] == r[i - 1] && out[j] == r[j - 1]);
        }
    }
}

/// Ranking puts larger candidates first and equal sizes in rule ID order,
/// and keeps every candidate exactly as often as it came.
pub proof fn law_ranking_orders_and_keeps_candidates(s: Seq<(u64, Seq<char>)>)
    ensures
        in_rank_order(ranked(s)),
        ranked(s).to_multiset() == s.to_multiset(),
    decreases s.len(),
{
    if s.len() > 0 {
        let d = s.drop_last();
        let x = s.last();
        law_ranking_orders_and_keeps_candidates(d);
        let r = ranked(d);
        lemma_rank_position_facts(r, x);
        lemma_rank_insert_keeps_order(r, x);
        vstd::seq_lib::to_multiset_insert(r, rank_position(r, x), x);
        vstd::seq_lib::to_multiset_build(d, x);
        assert(d.push(x) =~= s);
    }
}

} // verus!

verus! {

/// `256` to the power `c`.
pub open spec fn pow256(c: nat) -> nat
    decreases c,
{
    if c == 0 {
        1
    } else {
        256 * pow256((c - 1) as nat)
    }
}

proof fn lemma_le_bytes_len(n: nat, c: nat)
    ensures
        le_bytes(n, c).len() == c,
    decreases c,
{
    if c > 0 {
        lemma_le_bytes_len(n / 256, (c - 1) as nat);
    }
}

proof fn lemma_le_bytes_injective(a: nat, b: nat, c: nat)
    requires
        a < pow256(c),
        b < pow256(c),
        le_bytes(a, c) == le_bytes(b, c),
    ensures
        a == b,
    decreases c,
{
    if c > 0 {
        let p = pow256((c - 1) as nat);
        let ra = le_bytes(a / 256, (c - 1) as nat);
        let rb = le_bytes(b / 256, (c - 1) as nat);
        assert(le_bytes(a, c) == seq![(a % 256) as u8] + ra);
        assert(le_bytes(b, c) == seq![(b % 256) as u8] + rb);
        assert((seq![(a % 256) as u8] + ra)[0] == (a % 256) as u8);
        assert((seq![(b % 256) as u8] + rb)[0] == (b % 256) as u8);
        assert(le_bytes(a, c)[0] == le_bytes(b, c)[0]);
        assert((a % 256) as u8 == (b % 256) as u8);
        assert(((a % 256) as u8) as nat == a % 256);
        assert(((b % 256) as u8) as nat == b % 256);
        assert(a % 256 == b % 256);
        assert(le_bytes(a / 256, (c - 1) as nat) =~= le_bytes(a, c).drop_first());
        assert(le_bytes(b / 256, (c - 1) as nat) =~= le_bytes(b, c).drop_first());
        assert(a / 256 < p) by (nonlinear_arith)
            requires
                a < 256 * p,
        ;
        assert(b / 256 < p) by (nonlinear_arith)
            requires
                b < 256 * p,
        ;
        lemma_le_bytes_injective(a / 256, b / 256, (c - 1) as nat);
    }
}

/// The eight bytes of a 64-bit integer name it uniquely.
proof fn lemma_le64_injective(a: u64, b: u64)
    ensures
        le64(a).len() == 8,
        le64(a) == le64(b) ==> a == b,
{
    lemma_le_bytes_len(a as nat, 8);
    assert(pow256(8) == 0x1_0000_0000_0000_0000nat) by {
        reveal_with_fuel(pow256, 9);
    }
    if le64(a) == le64(b) {
        lemma_le_bytes_injective(a as nat, b as nat, 8);
    }
}

proof fn lemma_hex_digit_injective(a: nat, b: nat)
    requires
        a < 16,
        b < 16,
        hex_digit(a) == hex_digit(b),
    ensures
        a == b,
{
    assert((hex_digit(a) as u32) == (hex_digit(b) as u32));
}

/// Different bytes never render to the same hexadecimal text.
proof fn lemma_hex_lower_injective(a: Seq<u8>, b: Seq<u8>)
    requires
        hex_lower(a) == hex_lower(b),
    ensures
        a == b,
    decreases a.len(),
{
    lemma_hex_len(a);
    lemma_hex_len(b);
    if a.len() > 0 {
        let ha = hex_lower(a);
        let hb = hex_lower(b);
        let n = ha.len();
        assert(ha[n - 1] == hb[n - 1]);
        assert(ha[n - 2] == hb[n - 2]);
        lemma_hex_len(a.drop_last());
        lemma_hex_len(b.drop_last());
        assert(ha[n - 1] == hex_digit((a.last() % 16) as nat));
        assert(hb[n - 1] == hex_digit((b.last() % 16) as nat));
        assert(ha[n - 2] == hex_digit((a.last() / 16) as nat));
        assert(hb[n - 2] == hex_digit((b.last() / 16) as nat));
        lemma_hex_digit_injective((a.last() % 16) as nat, (b.last() % 16) as nat);
        lemma_hex_digit_injective((a.last() / 16) as nat, (b.last() / 16) as nat);
        assert(a.last() == b.last());
        assert(hex_lower(a.drop_last()) =~= ha.take(n - 2));
        assert(hex_lower(b.drop_last()) =~= hb.take(n - 2));
        lemma_hex_lower_injective(a.drop_last(), b.drop_last());
        assert(a =~= a.drop_last().push(a.last()));
        assert(b =~= b.drop_last().push(b.last()));
    } else {
        assert(a =~= b);
    }
}

/// A digested text is short enough for its length prefix.
pub open spec fn text_fits(v: Seq<char>) -> bool {
    encode_utf8(v).len() < 0x1_0000_0000_0000_0000
}

proof fn lemma_hashed_text_injective(v: Seq<char>, w: Seq<char>, rest_v: Seq<u8>, rest_w: Seq<u8>)
    requires
        text_fits(v),
        text_fits(w),
        hashed_text(v) + rest_v == hashed_text(w) + rest_w,
    ensures
        v == w,
        rest_v == rest_w,
        hashed_text(v).len() >= 8,
{
    let lv = encode_utf8(v).len() as u64;
    let lw = encode_utf8(w).len() as u64;
    lemma_le64_injective(lv, lw);
    lemma_le64_injective(lw, lv);
    let x = hashed_text(v) + rest_v;
    let y = hashed_text(w) + rest_w;
    assert(x.len() == y.len());
    assert(le64(lv) =~= x.subrange(0, 8));
    assert(le64(lw) =~= y.subrange(0, 8));
    assert(lv == lw);
    let k: int = 8 + encode_utf8(v).len() as int;
    assert(encode_utf8(v) =~= x.subrange(8, k));
    assert(encode_utf8(w) =~= y.subrange(8, k));
    vstd::utf8::encode_utf8_decode_utf8(v);
    vstd::utf8::encode_utf8_decode_utf8(w);
    assert(rest_v =~= x.subrange(k, x.len() as int));
    assert(rest_w =~= y.subrange(k, y.len() as int));
}

proof fn lemma_hashed_texts_front(s: Seq<Seq<char>>)
    requires
        s.len() > 0,
    ensures
        hashed_texts(s) == hashed_text(s[0]) + hashed_texts(s.drop_first()),
    decreases s.len(),
{
    if s.len() > 1 {
        lemma_hashed_texts_front(s.drop_last());
        assert(s.drop_last().drop_first() =~= s.drop_first().drop_last());
        assert(s.drop_first().last() == s.last());
        assert(hashed_texts(s) =~= hashed_text(s[0]) + hashed_texts(s.drop_first()));
    } else {
        assert(s.drop_first() =~= Seq::<Seq<char>>::empty());
        assert(s.drop_last() =~= Seq::<Seq<char>>::empty());
        assert(hashed_texts(s) =~= hashed_text(s[0]) + hashed_texts(s.drop_first()));
    }
}

/// Every text of a list is short enough for its length prefix.
pub open spec fn texts_fit(s: Seq<Seq<char>>) -> bool {
    forall|i: int| 0 <= i < s.len() ==> text_fits(#[trigger] s[i])
}

/// Length-prefixed text lists followed by the same bytes are the same list.
proof fn lemma_hashed_texts_injective(s: Seq<Seq<char>>, t: Seq<Seq<char>>, rest_s: Seq<u8>, rest_t: Seq<u8>)
    requires
        texts_fit(s),
        texts_fit(t),
        hashed_texts(s) + rest_s == hashed_texts(t) + rest_t,
        rest_s.len() == rest_t.len(),
    ensures
        s == t,
    decreases s.len() + t.len(),
{
    if s.len() == 0 && t.len() == 0 {
        assert(s =~= t);
    } else if s.len() == 0 {
        lemma_hashed_texts_front(t);
        lemma_le64_injective(encode_utf8(t[0]).len() as u64, 0);
        assert(hashed_texts(s).len() == 0);
        assert((hashed_texts(t) + rest_t).len() >= 8 + rest_t.len());
    } else if t.len() == 0 {
        lemma_hashed_texts_front(s);
        lemma_le64_injective(encode_utf8(s[0]).len() as u64, 0);
        assert(hashed_texts(t).len() == 0);
        assert((hashed_texts(s) + rest_s).len() >= 8 + rest_s.len());
    } else {
        lemma_hashed_texts_front(s);
        lemma_hashed_texts_front(t);
        assert(hashed_texts(s) + rest_s =~= hashed_text(s[0]) + (hashed_texts(s.drop_first()) + rest_s));
        assert(hashed_texts(t) + rest_t =~= hashed_text(t[0]) + (hashed_texts(t.drop_first()) + rest_t));
        lemma_hashed_text_injective(s[0], t[0], hashed_texts(s.drop_first()) + rest_s, hashed_texts(t.drop_first()) + rest_t);
        assert(texts_fit(s.drop_first()));
        assert(texts_fit(t.drop_first()));
        lemma_hashed_texts_injective(s.drop_first(), t.drop_first(), rest_s, rest_t);
        assert(s =~= seq![s[0]] + s.drop_first());
        assert(t =~= seq![t[0]] + t.drop_first());
    }
}

} // verus!

verus! {

/// Byte strings concatenated in order.
pub open spec fn joined_bytes(parts: Seq<Seq<u8>>) -> Seq<u8>
    decreases parts.len(),
{
    if parts.len() == 0 {
        seq![]
    } else {
        joined_bytes(parts.drop_last()) + parts.last()
    }
}

proof fn lemma_joined_split(parts: Seq<Seq<u8>>, k: int)
    requires
        0 <= k < parts.len(),
    ensures
        joined_bytes(parts) == joined_bytes(parts.take(k)) + parts[k] + joined_bytes(parts.skip(k + 1)),
    decreases parts.len(),
{
    if k < parts.len() - 1 {
        lemma_joined_split(parts.drop_last(), k);
        assert(parts.drop_last().take(k) =~= parts.take(k));
        assert(parts.skip(k + 1).drop_last() =~= parts.drop_last().skip(k + 1));
        assert(parts.skip(k + 1).last() == parts.last());
        assert(joined_bytes(parts.skip(k + 1)) == joined_bytes(parts.drop_last().skip(k + 1)) + parts.last());
        assert(joined_bytes(parts) =~= joined_bytes(parts.take(k)) + parts[k] + joined_bytes(parts.skip(k + 1)));
    } else {
        assert(parts.take(k) =~= parts.drop_last());
        assert(parts.skip(k + 1) =~= Seq::<Seq<u8>>::empty());
        assert(joined_bytes(parts) =~= joined_bytes(parts.take(k)) + parts[k] + joined_bytes(parts.skip(k + 1)));
    }
}

/// Two lists of byte strings that agree everywhere but at `k` and join to
/// the same bytes agree at `k` too.
proof fn lemma_joined_middle(a: Seq<Seq<u8>>, b: Seq<Seq<u8>>, k: int)
    requires
        a.len() == b.len(),
        0 <= k < a.len(),
        forall|i: int| 0 <= i < a.len() && i != k ==> a[i] == b[i],
        joined_bytes(a) == joined_bytes(b),
    ensures
        a[k] == b[k],
{
    lemma_joined_split(a, k);
    lemma_joined_split(b, k);
    assert(a.take(k) =~= b.take(k));
    assert(a.skip(k + 1) =~= b.skip(k + 1));
    let p = joined_bytes(a.take(k));
    let s = joined_bytes(a.skip(k + 1));
    let x = p + a[k] + s;
    let y = p + b[k] + s;
    assert(x.len() == y.len());
    assert(a[k] =~= x.subrange(p.len() as int, (p.len() + a[k].len()) as int));
    assert(b[k] =~= y.subrange(p.len() as int, (p.len() + b[k].len()) as int));
}

/// The fields the plan digest covers, in digest order; a plan without a
/// reclaimable-byte limit digests as one with the largest limit.
pub open spec fn digested_fields(p: CleanupPlan) -> (u64, u64, Seq<char>, Seq<Seq<char>>, u64, usize, u64, Seq<Seq<char>>) {
    (
        p.created_at_ms,
        p.source_scan_at_ms,
        p.source_scan_schema_version@,
        texts(p.rule_ids@),
        p.expected_bytes,
        p.profile.max_rule_count,
        match p.profile.max_reclaimable_bytes {
            Some(limit) => limit,
            None => u64::MAX,
        },
        texts(p.profile.excluded_rule_ids@),
    )
}

/// How many digested fields of two plans differ.
pub open spec fn digested_differences(p: CleanupPlan, q: CleanupPlan) -> nat {
    let a = digested_fields(p);
    let b = digested_fields(q);
    (if a.0 != b.0 { 1nat } else { 0nat }) + (if a.1 != b.1 { 1nat } else { 0nat }) + (if a.2 != b.2 { 1nat } else { 0nat })
        + (if a.3 != b.3 { 1nat } else { 0nat }) + (if a.4 != b.4 { 1nat } else { 0nat }) + (if a.5 != b.5 { 1nat } else { 0nat })
        + (if a.6 != b.6 { 1nat } else { 0nat }) + (if a.7 != b.7 { 1nat } else { 0nat })
}

/// Every digested text of a plan is short enough for its length prefix.
pub open spec fn digest_fits(p: CleanupPlan) -> bool {
    &&& text_fits(p.source_scan_schema_version@)
    &&& texts_fit(texts(p.rule_ids@))
    &&& texts_fit(texts(p.profile.excluded_rule_ids@))
}

/// The bytes a plan's hash covers.
pub open spec fn plan_input(p: CleanupPlan) -> Seq<u8> {
    plan_digest_input(
        p.created_at_ms,
        p.source_scan_at_ms,
        p.source_scan_schema_version@,
        texts(p.rule_ids@),
        p.expected_bytes,
        p.profile,
    )
}

/// The pieces of the digest input, in order.
pub open spec fn plan_input_parts(p: CleanupPlan) -> Seq<Seq<u8>> {
    let f = digested_fields(p);
    seq![
        plan_digest_tag(),
        le64(f.0),
        le64(f.1),
        hashed_text(f.2),
        le64(f.4),
        le64(f.5 as u64),
        le64(f.6),
        hashed_texts(f.3),
        hashed_texts(f.7),
    ]
}

proof fn lemma_plan_input_parts(p: CleanupPlan)
    ensures
        plan_input(p) == joined_bytes(plan_input_parts(p)),
{
    let parts = plan_input_parts(p);
    reveal_with_fuel(joined_bytes, 10);
    assert(parts.len() == 9);
    assert(parts.take(8).take(7).take(6).take(5).take(4).take(3).take(2).take(1).take(0).len() == 0);
    assert(plan_input(p) =~= joined_bytes(parts)) by {
        assert(parts.drop_last() =~= parts.take(8));
        assert(parts.take(8).drop_last() =~= parts.take(7));
        assert(parts.take(7).drop_last() =~= parts.take(6));
        assert(parts.take(6).drop_last() =~= parts.take(5));
        assert(parts.take(5).drop_last() =~= parts.take(4));
        assert(parts.take(4).drop_last() =~= parts.take(3));
        assert(parts.take(3).drop_last() =~= parts.take(2));
        assert(parts.take(2).drop_last() =~= parts.take(1));
        assert(parts.take(1).drop_last() =~= parts.take(0));
    }
}

/// A valid plan edited in exactly one digested field, keeping its hash and
/// identifier, passes validation only if BLAKE3 gives two different inputs
/// the same digest; a valid plan whose hash or identifier alone is edited
/// never passes.
pub proof fn law_edited_plans_fail_validation(p: CleanupPlan, q: CleanupPlan)
    requires
        plan_error(p).is_none(),
        digest_fits(p),
        digest_fits(q),
        (digested_differences(p, q) == 1 && q.plan_hash@ == p.plan_hash@ && q.plan_id@ == p.plan_id@) || (
        digested_differences(p, q) == 0 && (q.plan_hash@ != p.plan_hash@ || q.plan_id@ != p.plan_id@)),
    ensures
        plan_error(q).is_none() ==> digested_differences(p, q) == 1 && plan_input(p) != plan_input(q)
            && blake3_digest(plan_input(p)) == blake3_digest(plan_input(q)),
{
    lemma_plan_input_parts(p);
    lemma_plan_input_parts(q);
    let a = plan_input_parts(p);
    let b = plan_input_parts(q);
    if digested_differences(p, q) == 0 {
        assert(digested_fields(p) == digested_fields(q));
        assert(a =~= b);
        assert(expected_plan_hash(p) == hex_lower(blake3_digest(plan_input(p))));
        assert(expected_plan_hash(q) == hex_lower(blake3_digest(plan_input(q))));
    } else if plan_error(q).is_none() {
        assert(expected_plan_hash(p) == hex_lower(blake3_digest(plan_input(p))));
        assert(expected_plan_hash(q) == hex_lower(blake3_digest(plan_input(q))));
        lemma_hex_lower_injective(blake3_digest(plan_input(p)), blake3_digest(plan_input(q)));
        if plan_input(p) == plan_input(q) {
            let f = digested_fields(p);
            let g = digested_fields(q);
            if f.0 != g.0 {
                lemma_joined_middle(a, b, 1);
                lemma_le64_injective(f.0, g.0);
            } else if f.1 != g.1 {
                lemma_joined_middle(a, b, 2);
                lemma_le64_injective(f.1, g.1);
            } else if f.2 != g.2 {
                lemma_joined_middle(a, b, 3);
                assert(hashed_text(f.2) + Seq::<u8>::empty() =~= hashed_text(g.2) + Seq::<u8>::empty());
                lemma_hashed_text_injective(f.2, g.2, Seq::empty(), Seq::empty());
            } else if f.4 != g.4 {
                lemma_joined_middle(a, b, 4);
                lemma_le64_injective(f.4, g.4);
            } else if f.5 != g.5 {
                lemma_joined_middle(a, b, 5);
                lemma_le64_injective(f.5 as u64, g.5 as u64);
            } else if f.6 != g.6 {
                lemma_joined_middle(a, b, 6);
                lemma_le64_injective(f.6, g.6);
            } else if f.3 != g.3 {
                lemma_joined_middle(a, b, 7);
                assert(hashed_texts(f.3) + Seq::<u8>::empty() =~= hashed_texts(g.3) + Seq::<u8>::empty());
                lemma_hashed_texts_injective(f.3, g.3, Seq::empty(), Seq::empty());
            } else {
                lemma_joined_middle(a, b, 8);
                assert(hashed_texts(f.7) + Seq::<u8>::empty() =~= hashed_texts(g.7) + Seq::<u8>::empty());
                lemma_hashed_texts_injective(f.7, g.7, Seq::empty(), Seq::empty());
            }
        }
    }
}

} // verus!

verus! {

/// A created plan holds only rules that the scan found holding content,
/// safe, selected by default, selectable and not excluded by the profile:
/// a rule still waiting for an application to close, or in any status but
/// found, is never planned for unattended cleaning.
pub proof fn law_planned_rules_were_found_safe_and_default(
    scan: CleanupScanResult,
    profile: CleanupAutomationProfile,
    created_at_ms: u64,
    plan: CleanupPlan,
)
    requires
        plan_built_from(plan, scan, profile, created_at_ms),
    ensures
        forall|i: int|
            0 <= i < plan.rule_ids@.len() ==> exists|j: int|
                0 <= j < scan.rules@.len() && scan.rules@[j].rule_id@ == (#[trigger] plan.rule_ids@[i])@
                    && scan.rules@[j].status == ScanItemStatus::Found && scan.rules@[j].risk == RiskLevel::Safe
                    && scan.rules@[j].default_selected && scan.rules@[j].selectable && scan.rules@[j].bytes > 0
                    && !texts(profile.excluded_rule_ids@).contains(scan.rules@[j].rule_id@),
{
    law_plans_only_contain_eligible_rules(scan, profile, created_at_ms, plan);
}

/// A plan passes a live scan only when each of its rules is, at its first
/// occurrence in that scan, still found, safe, selected by default and
/// selectable; a rule missing from the scan, or one whose status is no
/// longer found, is rejected.
pub proof fn law_live_scan_accepts_only_found_safe_rules(ids: Seq<Seq<char>>, rules: Seq<ScanRuleResult>)
    ensures
        live_scan_error(ids, rules).is_none() ==> forall|i: int|
            0 <= i < ids.len() ==> exists|k: int|
                0 <= k < rules.len() && rules[k].rule_id@ == #[trigger] ids[i] && (forall|m: int|
                    0 <= m < k ==> rules[m].rule_id@ != ids[i]) && rules[k].status == ScanItemStatus::Found
                    && rules[k].risk == RiskLevel::Safe && rules[k].default_selected && rules[k].selectable,
    decreases ids.len(),
{
    if ids.len() > 0 && live_scan_error(ids, rules).is_none() {
        law_live_scan_accepts_only_found_safe_rules(ids.drop_first(), rules);
        let k0 = first_rule_index(rules, ids[0]);
        lemma_first_rule_index_facts(rules, ids[0]);
        assert forall|i: int| 0 <= i < ids.len() implies exists|k: int|
            0 <= k < rules.len() && rules[k].rule_id@ == #[trigger] ids[i] && (forall|m: int|
                0 <= m < k ==> rules[m].rule_id@ != ids[i]) && rules[k].status == ScanItemStatus::Found
                && rules[k].risk == RiskLevel::Safe && rules[k].default_selected && rules[k].selectable by {
            if i == 0 {
                assert(rules[k0].rule_id@ == ids[0]);
            } else {
                assert(ids[i] == ids.drop_first()[i - 1]);
            }
        }
    }
}

proof fn lemma_first_rule_index_facts(rules: Seq<ScanRuleResult>, id: Seq<char>)
    ensures
        0 <= first_rule_index(rules, id) <= rules.len(),
        forall|m: int| 0 <= m < first_rule_index(rules, id) ==> rules[m].rule_id@ != id,
        first_rule_index(rules, id) < rules.len() ==> rules[first_rule_index(rules, id)].rule_id@ == id,
    decreases rules.len(),
{
    if rules.len() > 0 && rules[0].rule_id@ != id {
        lemma_first_rule_index_facts(rules.drop_first(), id);
        assert forall|m: int| 0 <= m < first_rule_index(rules, id) implies rules[m].rule_id@ != id by {
            if m > 0 {
                assert(rules[m] == rules.drop_first()[m - 1]);
            }
        }
    }
}

} // verus!
