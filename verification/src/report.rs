//! Plain-text rendering of scan results for the command line.
use vstd::prelude::*;

use crate::models::{CleanupGroup, CleanupScanResult, CleanupSourceDetail, ScanItemStatus, ScanRuleResult};
use crate::plan::ranks_before;
use crate::text::{
    ascii_lower, chars_less, chars_of, decimal, decimal_chars_wide, digit_char, digit_of, push_char, push_chars,
    push_decimal, push_str, string_from_chars, trim, trim_chars,
};

verus! {

/// Number of significant bits of `n`.
pub open spec fn bit_length(n: nat) -> nat
    decreases n,
{
    if n == 0 {
        0
    } else {
        1 + bit_length(n / 2)
    }
}

pub open spec fn pow2(k: nat) -> nat
    decreases k,
{
    if k == 0 {
        1
    } else {
        2 * pow2((k - 1) as nat)
    }
}

pub open spec fn pow_nat(base: nat, k: nat) -> nat
    decreases k,
{
    if k == 0 {
        1
    } else {
        base * pow_nat(base, (k - 1) as nat)
    }
}

/// `num / den` rounded to the nearest integer, ties to even.
pub open spec fn round_half_even(num: nat, den: nat) -> nat
    recommends
        den > 0,
{
    let q = num / den;
    let r = num % den;
    if 2 * r > den || (2 * r == den && q % 2 == 1) {
        q + 1
    } else {
        q
    }
}

/// The integer `n` rounded to the nearest value an `f64` can hold (53
/// significant bits, ties to even), as `n as f64` computes it.
pub open spec fn to_f64_value(n: nat) -> nat {
    if bit_length(n) <= 53 {
        n
    } else {
        let t = (bit_length(n) - 53) as nat;
        round_half_even(n, pow2(t)) * pow2(t)
    }
}

} // verus!

verus! {

proof fn lemma_pow2_positive(k: nat)
    ensures
        pow2(k) >= 1,
    decreases k,
{
    if k > 0 {
        lemma_pow2_positive((k - 1) as nat);
    }
}

proof fn lemma_pow2_monotone(a: nat, b: nat)
    requires
        a <= b,
    ensures
        pow2(a) <= pow2(b),
    decreases b,
{
    if a < b {
        lemma_pow2_monotone(a, (b - 1) as nat);
        lemma_pow2_positive((b - 1) as nat);
    }
}

proof fn lemma_bit_length_bound(n: nat)
    ensures
        n < pow2(bit_length(n)),
        n > 0 ==> pow2((bit_length(n) - 1) as nat) <= n,
    decreases n,
{
    if n > 0 {
        lemma_bit_length_bound(n / 2);
        if n / 2 == 0 {
            assert(bit_length(n / 2) == 0);
        }
    }
}

fn pow2_exec(k: u32) -> (p: u128)
    requires
        k <= 64,
    ensures
        p == pow2(k as nat),
        p <= 0x1_0000_0000_0000_0000,
{
    let mut p: u128 = 1;
    let mut i: u32 = 0;
    proof {
        lemma_pow2_64();
    }
    while i < k
        invariant
            i <= k,
            k <= 64,
            p == pow2(i as nat),
            pow2(64) == 0x1_0000_0000_0000_0000,
        decreases k - i,
    {
        proof {
            lemma_pow2_monotone((i + 1) as nat, 64);
        }
        assert(pow2((i + 1) as nat) == 2 * pow2(i as nat));
        p = p * 2;
        i = i + 1;
    }
    proof {
        lemma_pow2_monotone(k as nat, 64);
    }
    p
}

proof fn lemma_pow2_64()
    ensures
        pow2(64) == 0x1_0000_0000_0000_0000,
{
    reveal_with_fuel(pow2, 65);
}

fn bit_length_exec(n: u64) -> (b: u32)
    ensures
        b == bit_length(n as nat),
        b <= 64,
{
    proof {
        lemma_bit_length_bound(n as nat);
        lemma_pow2_64();
        if bit_length(n as nat) > 64 {
            lemma_pow2_monotone(64, (bit_length(n as nat) - 1) as nat);
        }
    }
    let mut m: u64 = n;
    let mut b: u32 = 0;
    while m > 0
        invariant
            bit_length(n as nat) == b + bit_length(m as nat),
            bit_length(n as nat) <= 64,
        decreases m,
    {
        m = m / 2;
        b = b + 1;
    }
    b
}

} // verus!

verus! {

fn round_half_even_exec(num: u128, den: u128) -> (r: u128)
    requires
        den > 0,
        num < 0x1_0000_0000_0000_0000_0000_0000_0000_0000 - 1,
    ensures
        r == round_half_even(num as nat, den as nat),
        r <= num / den + 1,
{
    let q = num / den;
    let rem = num % den;
    assert(q <= num) by (nonlinear_arith)
        requires
            q == num / den,
            den > 0,
    ;
    if rem > den - rem || (rem == den - rem && q % 2 == 1) {
        q + 1
    } else {
        q
    }
}

proof fn lemma_pow2_52()
    ensures
        pow2(52) == 0x10_0000_0000_0000,
{
    reveal_with_fuel(pow2, 53);
}

/// `n as f64` as an exact integer; never more than `n + 2048`.
fn f64_value(n: u64) -> (c: u128)
    ensures
        c == to_f64_value(n as nat),
        c <= n + 2048,
        n >= 1000 ==> c >= 1000,
        n < 1024 ==> c == n,
{
    let b = bit_length_exec(n);
    if b <= 53 {
        n as u128
    } else {
        let t = b - 53;
        let p = pow2_exec(t);
        proof {
            lemma_pow2_monotone(t as nat, 11);
            reveal_with_fuel(pow2, 12);
            lemma_bit_length_bound(n as nat);
            lemma_pow2_monotone(53, (b - 1) as nat);
            lemma_pow2_52();
            assert(pow2(53) == 2 * pow2(52));
        }
        let r = round_half_even_exec(n as u128, p);
        assert(r * p <= (n as u128) + p) by (nonlinear_arith)
            requires
                r <= (n as u128) / p + 1,
                p > 0,
        ;
        assert(r >= 1) by (nonlinear_arith)
            requires
                r >= (n as u128) / p,
                n >= 0x20_0000_0000_0000,
                p <= 2048,
                p > 0,
        ;
        assert(r * p >= p) by (nonlinear_arith)
            requires
                r >= 1,
                p > 0,
        ;
        assert(r * p >= (n as u128) / p * p) by (nonlinear_arith)
            requires
                r >= (n as u128) / p,
                p > 0,
        ;
        assert((n as u128) / p * p >= (n as u128) - p) by (nonlinear_arith)
            requires
                p > 0,
        ;
        r * p
    }
}

} // verus!

verus! {

/// Binary unit index for a value: the largest of B, KB, MB, GB, TB that the
/// value reaches.
pub open spec fn byte_unit(c: nat) -> nat {
    if c >= 1099511627776 {
        4
    } else if c >= 1073741824 {
        3
    } else if c >= 1048576 {
        2
    } else if c >= 1024 {
        1
    } else {
        0
    }
}

pub open spec fn unit_scale(u: nat) -> nat {
    if u == 4 {
        1099511627776
    } else if u == 3 {
        1073741824
    } else if u == 2 {
        1048576
    } else if u == 1 {
        1024
    } else {
        1
    }
}

pub open spec fn unit_name(u: nat) -> Seq<char> {
    if u == 4 {
        "TB"@
    } else if u == 3 {
        "GB"@
    } else if u == 2 {
        "MB"@
    } else if u == 1 {
        "KB"@
    } else {
        "B"@
    }
}

/// `value` rendered with one (`places == 1`) or two fraction digits, where
/// `scaled` is the value times 10 or 100, already rounded.
pub open spec fn fixed_point(scaled: nat, places: nat) -> Seq<char> {
    if places == 1 {
        decimal(scaled / 10) + "."@ + seq![digit_char(scaled % 10)]
    } else {
        decimal(scaled / 100) + "."@ + seq![digit_char((scaled % 100) / 10), digit_char(scaled % 10)]
    }
}

/// Compact binary size text: whole bytes below one kilobyte, otherwise the
/// size in the largest unit reached (up to TB) with two fraction digits
/// below ten units and one from ten units up. The size is first rounded to
/// an `f64` and the fraction rounded half to even, exactly as floating-point
/// formatting does.
pub open spec fn format_bytes_text(bytes: u64) -> Seq<char> {
    let c = to_f64_value(bytes as nat);
    let u = byte_unit(c);
    if u == 0 {
        decimal(bytes as nat) + " B"@
    } else {
        let d = unit_scale(u);
        let places: nat = if c >= 10 * d { 1 } else { 2 };
        let factor: nat = if places == 1 { 10 } else { 100 };
        fixed_point(round_half_even(c * factor, d), places) + " "@ + unit_name(u)
    }
}

fn push_fixed_point(s: &mut String, scaled: u128, places: u32)
    requires
        places == 1 || places == 2,
    ensures
        final(s)@ == old(s)@ + fixed_point(scaled as nat, places as nat),
{
    let ghost start = s@;
    proof {
        reveal_strlit(".");
    }
    if places == 1 {
        push_chars(s, &decimal_chars_wide(scaled / 10));
        push_char(s, '.');
        push_char(s, digit_of((scaled % 10) as u64));
    } else {
        push_chars(s, &decimal_chars_wide(scaled / 100));
        push_char(s, '.');
        push_char(s, digit_of(((scaled % 100) / 10) as u64));
        push_char(s, digit_of((scaled % 10) as u64));
    }
    assert(s@ =~= start + fixed_point(scaled as nat, places as nat));
}

/// Formats a byte count with compact binary units.
pub fn format_bytes(bytes: u64) -> (s: String)
    ensures
        s@ == format_bytes_text(bytes),
{
    let c = f64_value(bytes);
    let mut s = String::new();
    let (unit, scale, name): (u32, u128, &str) = if c >= 1099511627776 {
        (4, 1099511627776, "TB")
    } else if c >= 1073741824 {
        (3, 1073741824, "GB")
    } else if c >= 1048576 {
        (2, 1048576, "MB")
    } else if c >= 1024 {
        (1, 1024, "KB")
    } else {
        (0, 1, "B")
    };
    proof {
        reveal_strlit(" B");
        reveal_strlit("B");
        reveal_strlit("KB");
        reveal_strlit("MB");
        reveal_strlit("GB");
        reveal_strlit("TB");
        reveal_strlit(" ");
    }
    assert(name@ == unit_name(unit as nat));
    assert(scale == unit_scale(unit as nat));
    assert(unit as nat == byte_unit(c as nat));
    if unit == 0 {
        push_decimal(&mut s, bytes);
        push_str(&mut s, " B");
        return s;
    }
    let places: u32 = if c >= 10 * scale { 1 } else { 2 };
    let factor: u128 = if places == 1 { 10 } else { 100 };
    let rounded = round_half_even_exec(c * factor, scale);
    push_fixed_point(&mut s, rounded, places);
    push_char(&mut s, ' ');
    push_str(&mut s, name);
    assert(s@ =~= format_bytes_text(bytes));
    s
}

} // verus!

verus! {

/// Elapsed-time text: whole milliseconds below one second, otherwise
/// seconds with one fraction digit. Above one second the millisecond count
/// is converted to `f64`, divided by 1000 with round-to-nearest-even (53
/// significant bits, binary exponent `e`), and the quotient's first fraction
/// digit rounded half to even, exactly as floating-point formatting does.
pub open spec fn format_duration_text(elapsed_ms: u64) -> Seq<char> {
    if elapsed_ms < 1000 {
        decimal(elapsed_ms as nat) + " ms"@
    } else {
        let c = to_f64_value(elapsed_ms as nat);
        let e = (bit_length(c / 1000) - 1) as nat;
        let tenths = if e <= 52 {
            let p = pow2((52 - e) as nat);
            let mantissa = round_half_even(c * p, 1000);
            round_half_even(10 * mantissa, p)
        } else {
            let p = pow2((e - 52) as nat);
            let mantissa = round_half_even(c, 1000 * p);
            10 * mantissa * p
        };
        fixed_point(tenths, 1) + " s"@
    }
}

/// Formats an elapsed time for scan summaries.
pub fn format_duration(elapsed_ms: u64) -> (s: String)
    ensures
        s@ == format_duration_text(elapsed_ms),
{
    let mut s = String::new();
    proof {
        reveal_strlit(" ms");
        reveal_strlit(" s");
    }
    if elapsed_ms < 1000 {
        push_decimal(&mut s, elapsed_ms);
        push_str(&mut s, " ms");
        return s;
    }
    let c = f64_value(elapsed_ms);
    let whole = c / 1000;
    assert(whole <= 0x20_0000_0000_0000_0000);
    let whole_bits = bit_length_exec((c / 1000) as u64);
    assert(whole >= 1);
    proof {
        lemma_bit_length_positive(whole as nat);
    }
    let e: u32 = whole_bits - 1;
    proof {
        lemma_pow2_52();
        lemma_pow2_64();
    }
    let tenths: u128 = if e <= 52 {
        let p = pow2_exec(52 - e);
        proof {
            lemma_pow2_monotone((52 - e) as nat, 52);
            lemma_pow2_positive((52 - e) as nat);
        }
        assert(c * p <= 0x2_0000_0000_0000_0800 * 0x10_0000_0000_0000) by (nonlinear_arith)
            requires
                c <= 0x2_0000_0000_0000_0800,
                p <= 0x10_0000_0000_0000,
        ;
        let mantissa = round_half_even_exec(c * p, 1000);
        assert(10 * mantissa < 0x1_0000_0000_0000_0000_0000_0000_0000_0000 - 1) by (nonlinear_arith)
            requires
                mantissa <= (c * p) / 1000 + 1,
                c * p <= 0x2_0000_0000_0000_0800 * 0x10_0000_0000_0000,
        ;
        round_half_even_exec(10 * mantissa, p)
    } else {
        let p = pow2_exec(e - 52);
        proof {
            lemma_bit_length_bound(whole as nat);
            assert(pow2(55) == 0x80_0000_0000_0000) by {
                reveal_with_fuel(pow2, 56);
            }
            if e > 54 {
                lemma_pow2_monotone(55, e as nat);
            }
            lemma_pow2_monotone((e - 52) as nat, 4);
            reveal_with_fuel(pow2, 5);
        }
        let den: u128 = 1000 * p;
        let mantissa = round_half_even_exec(c, den);
        assert(mantissa <= c) by (nonlinear_arith)
            requires
                mantissa <= c / den + 1,
                den >= 1000,
                c >= 1000,
        ;
        assert(10 * mantissa * p <= 10 * c * 16) by (nonlinear_arith)
            requires
                mantissa <= c,
                p <= 16,
                p >= 1,
        ;
        10 * mantissa * p
    };
    push_fixed_point(&mut s, tenths, 1);
    push_str(&mut s, " s");
    assert(s@ =~= format_duration_text(elapsed_ms));
    s
}

proof fn lemma_bit_length_positive(n: nat)
    requires
        n >= 1,
    ensures
        bit_length(n) >= 1,
{
}

} // verus!

verus! {

/// The Unicode uppercase mapping of a character, as `char::to_uppercase`
/// yields it (one or more characters).
pub uninterp spec fn unicode_uppercase(c: char) -> Seq<char>;

/// Collects `char::to_uppercase`. Trusted: the result is the standard
/// library's uppercase mapping of `c`, and a lowercase ASCII letter maps to
/// its single uppercase ASCII letter.
#[verifier::external_body]
fn uppercase_chars(c: char) -> (v: Vec<char>)
    ensures
        v@ == unicode_uppercase(c),
        'a' <= c <= 'z' ==> v@ == seq![((c as u32) - 32) as char],
{
    c.to_uppercase().collect()
}

/// Characters after the last `.` (the whole text when there is none).
pub open spec fn last_segment(s: Seq<char>) -> Seq<char>
    decreases s.len(),
{
    if s.len() == 0 {
        s
    } else if s.last() == '.' {
        seq![]
    } else {
        last_segment(s.drop_last()).push(s.last())
    }
}

pub open spec fn is_word_separator(c: char) -> bool {
    c == '-' || c == '_'
}

/// Completed non-empty words and the word in progress while scanning `s`
/// left to right, splitting at `-` and `_`.
pub open spec fn word_scan(s: Seq<char>) -> (Seq<Seq<char>>, Seq<char>)
    decreases s.len(),
{
    if s.len() == 0 {
        (seq![], seq![])
    } else {
        let (words, current) = word_scan(s.drop_last());
        if is_word_separator(s.last()) {
            if current.len() > 0 {
                (words.push(current), seq![])
            } else {
                (words, seq![])
            }
        } else {
            (words, current.push(s.last()))
        }
    }
}

/// The non-empty parts of `s` between `-` and `_` separators.
pub open spec fn words(s: Seq<char>) -> Seq<Seq<char>> {
    let (done, current) = word_scan(s);
    if current.len() > 0 {
        done.push(current)
    } else {
        done
    }
}

pub open spec fn lower_text(s: Seq<char>) -> Seq<char> {
    s.map_values(|c: char| ascii_lower(c))
}

/// Display form of one identifier word: known product spellings, otherwise
/// the lower-cased word with its first character upper-cased.
pub open spec fn display_word(word: Seq<char>) -> Seq<char> {
    let lower = lower_text(word);
    if lower == "ai"@ {
        "AI"@
    } else if lower == "ios"@ {
        "iOS"@
    } else if lower == "macos"@ {
        "macOS"@
    } else if lower == "xcode"@ {
        "Xcode"@
    } else if lower == "npm"@ {
        "npm"@
    } else if lower == "pnpm"@ {
        "pnpm"@
    } else if lower == "pip"@ {
        "pip"@
    } else if lower.len() == 0 {
        seq![]
    } else {
        unicode_uppercase(lower[0]) + lower.drop_first()
    }
}

/// Texts joined with single spaces.
pub open spec fn join_spaced(parts: Seq<Seq<char>>) -> Seq<char>
    decreases parts.len(),
{
    if parts.len() == 0 {
        seq![]
    } else if parts.len() == 1 {
        parts[0]
    } else {
        join_spaced(parts.drop_last()) + " "@ + parts.last()
    }
}

/// A readable rule name: the last dotted segment of the rule ID, split into
/// words, each in its display form, joined with spaces.
pub open spec fn humanized(rule_id: Seq<char>) -> Seq<char> {
    join_spaced(words(last_segment(rule_id)).map_values(|w: Seq<char>| display_word(w)))
}

fn lower_chars(v: &Vec<char>) -> (r: Vec<char>)
    ensures
        r@ == lower_text(v@),
{
    let mut r: Vec<char> = Vec::new();
    let mut i: usize = 0;
    while i < v.len()
        invariant
            i <= v.len(),
            r@ == lower_text(v@.take(i as int)),
        decreases v.len() - i,
    {
        r.push(crate::text::lower_char(v[i]));
        assert(lower_text(v@.take(i + 1)) =~= lower_text(v@.take(i as int)).push(ascii_lower(v@[i as int])));
        i = i + 1;
    }
    assert(v@.take(v.len() as int) =~= v@);
    r
}

fn chars_match(v: &Vec<char>, text: &str) -> (r: bool)
    ensures
        r == (v@ == text@),
{
    crate::text::chars_equal(v, &chars_of(text))
}

fn display_word_exec(word: &Vec<char>) -> (r: Vec<char>)
    ensures
        r@ == display_word(word@),
{
    let lower = lower_chars(word);
    if chars_match(&lower, "ai") {
        return chars_of("AI");
    }
    if chars_match(&lower, "ios") {
        return chars_of("iOS");
    }
    if chars_match(&lower, "macos") {
        return chars_of("macOS");
    }
    if chars_match(&lower, "xcode") {
        return chars_of("Xcode");
    }
    if chars_match(&lower, "npm") {
        return chars_of("npm");
    }
    if chars_match(&lower, "pnpm") {
        return chars_of("pnpm");
    }
    if chars_match(&lower, "pip") {
        return chars_of("pip");
    }
    if lower.len() == 0 {
        return Vec::new();
    }
    let mut r = uppercase_chars(lower[0]);
    let mut i: usize = 1;
    let ghost head = r@;
    while i < lower.len()
        invariant
            1 <= i <= lower.len(),
            head == unicode_uppercase(lower@[0]),
            r@ == head + lower@.subrange(1, i as int),
        decreases lower.len() - i,
    {
        r.push(lower[i]);
        assert(lower@.subrange(1, i + 1) =~= lower@.subrange(1, i as int).push(lower@[i as int]));
        i = i + 1;
    }
    assert(lower@.subrange(1, lower.len() as int) =~= lower@.drop_first());
    r
}

/// Turns a rule identifier into a readable name without UI localization.
pub fn humanize_rule_id(rule_id: &str) -> (name: String)
    ensures
        name@ == humanized(rule_id@),
{
    let chars = chars_of(rule_id);
    // last dotted segment
    let mut start: usize = 0;
    let mut i: usize = 0;
    while i < chars.len()
        invariant
            i <= chars.len(),
            start <= i,
            last_segment(chars@.take(i as int)) == chars@.subrange(start as int, i as int),
        decreases chars.len() - i,
    {
        assert(chars@.take(i + 1).drop_last() =~= chars@.take(i as int));
        if chars[i] == '.' {
            start = i + 1;
            assert(chars@.subrange(start as int, (i + 1) as int) =~= Seq::<char>::empty());
        } else {
            assert(chars@.subrange(start as int, (i + 1) as int) =~= chars@.subrange(start as int, i as int).push(chars@[i as int]));
        }
        i = i + 1;
    }
    assert(chars@.take(chars.len() as int) =~= chars@);
    let ghost segment = chars@.subrange(start as int, chars.len() as int);
    // words
    let mut done: Vec<Vec<char>> = Vec::new();
    let mut current: Vec<char> = Vec::new();
    let mut k: usize = start;
    while k < chars.len()
        invariant
            start <= k <= chars.len(),
            segment == chars@.subrange(start as int, chars.len() as int),
            word_scan(chars@.subrange(start as int, k as int)) == (done@.map_values(|w: Vec<char>| w@), current@),
        decreases chars.len() - k,
    {
        let ghost prefix = chars@.subrange(start as int, k as int);
        assert(chars@.subrange(start as int, k + 1).drop_last() =~= prefix);
        let c = chars[k];
        if c == '-' || c == '_' {
            if current.len() > 0 {
                let finished = current;
                done.push(finished);
                current = Vec::new();
            } else {
                current = Vec::new();
            }
        } else {
            current.push(c);
        }
        proof {
            assert(chars@.subrange(start as int, k + 1).last() == c);
            assert(done@.map_values(|w: Vec<char>| w@) =~= word_scan(chars@.subrange(start as int, k + 1)).0);
        }
        k = k + 1;
    }
    if current.len() > 0 {
        done.push(current);
    }
    assert(done@.map_values(|w: Vec<char>| w@) =~= words(segment));
    // display words joined with spaces
    let ghost parts = words(segment).map_values(|w: Seq<char>| display_word(w));
    let mut name = String::new();
    let mut m: usize = 0;
    proof {
        reveal_strlit(" ");
    }
    while m < done.len()
        invariant
            m <= done@.len(),
            done@.map_values(|w: Vec<char>| w@) == words(segment),
            parts == words(segment).map_values(|w: Seq<char>| display_word(w)),
            name@ == join_spaced(parts.take(m as int)),
        decreases done.len() - m,
    {
        proof {
            reveal_strlit(" ");
        }
        let shown = display_word_exec(&done[m]);
        assert(shown@ == parts[m as int]) by {
            assert(words(segment)[m as int] == done@[m as int]@);
        }
        if m > 0 {
            push_char(&mut name, ' ');
        }
        push_chars(&mut name, &shown);
        assert(parts.take(m + 1).drop_last() =~= parts.take(m as int));
        assert(parts.take(m + 1).last() == parts[m as int]);
        if m == 0 {
            assert(parts.take(1)[0] == parts[0]);
            assert(name@ =~= join_spaced(parts.take(m + 1)));
        } else {
            assert(name@ =~= join_spaced(parts.take(m as int)) + " "@ + parts[m as int]);
            assert(name@ =~= join_spaced(parts.take(m + 1)));
        }
        m = m + 1;
    }
    assert(parts.take(done.len() as int) =~= parts);
    name
}

} // verus!

verus! {

/// `value` wrapped in an ANSI style sequence when color is enabled.
pub open spec fn styled(value: Seq<char>, code: Seq<char>, enabled: bool) -> Seq<char> {
    if enabled {
        seq!['\u{1b}'] + "["@ + code + "m"@ + value + seq!['\u{1b}'] + "[0m"@
    } else {
        value
    }
}

pub fn style(value: &str, ansi_code: &str, enabled: bool) -> (s: String)
    ensures
        s@ == styled(value@, ansi_code@, enabled),
{
    let mut s = String::new();
    if enabled {
        proof {
            reveal_strlit("[");
            reveal_strlit("m");
            reveal_strlit("[0m");
        }
        push_char(&mut s, '\u{1b}');
        push_str(&mut s, "[");
        push_str(&mut s, ansi_code);
        push_str(&mut s, "m");
        push_str(&mut s, value);
        push_char(&mut s, '\u{1b}');
        push_str(&mut s, "[0m");
        assert(s@ =~= styled(value@, ansi_code@, enabled));
    } else {
        push_str(&mut s, value);
        assert(s@ =~= value@);
    }
    s
}

/// The warning shown when some optional items could not be inspected.
pub open spec fn scan_warning_text(limited_item_count: u64, color_enabled: bool) -> Seq<char> {
    let label = if limited_item_count == 1 {
        "1 optional cleanup item could not be inspected"@
    } else {
        decimal(limited_item_count as nat) + " optional cleanup items could not be inspected"@
    };
    styled(label + ". Set MANGODISK_LOG=warn for diagnostic details."@, "33"@, color_enabled)
}

pub fn render_scan_warning(limited_item_count: u64, color_enabled: bool) -> (s: String)
    ensures
        s@ == scan_warning_text(limited_item_count, color_enabled),
{
    let mut label = String::new();
    if limited_item_count == 1 {
        push_str(&mut label, "1 optional cleanup item could not be inspected");
    } else {
        push_decimal(&mut label, limited_item_count);
        push_str(&mut label, " optional cleanup items could not be inspected");
    }
    push_str(&mut label, ". Set MANGODISK_LOG=warn for diagnostic details.");
    style(label.as_str(), "33", color_enabled)
}

/// `count` spaces.
pub open spec fn spaces(count: nat) -> Seq<char> {
    Seq::new(count, |i: int| ' ')
}

/// Left-aligned in a field of `width` characters.
pub open spec fn pad_right(s: Seq<char>, width: nat) -> Seq<char> {
    if s.len() < width {
        s + spaces((width - s.len()) as nat)
    } else {
        s
    }
}

/// Right-aligned in a field of `width` characters.
pub open spec fn pad_left(s: Seq<char>, width: nat) -> Seq<char> {
    if s.len() < width {
        spaces((width - s.len()) as nat) + s
    } else {
        s
    }
}

fn push_spaces(s: &mut String, count: usize)
    ensures
        final(s)@ == old(s)@ + spaces(count as nat),
{
    let mut i: usize = 0;
    let ghost start = s@;
    while i < count
        invariant
            i <= count,
            s@ == start + spaces(i as nat),
        decreases count - i,
    {
        push_char(s, ' ');
        assert(spaces((i + 1) as nat) =~= spaces(i as nat).push(' '));
        i = i + 1;
    }
}

/// One result line: padded name, right-aligned size, optional marker.
pub open spec fn rule_line_text(rule: ScanRuleResult) -> Seq<char> {
    let base = "  "@ + pad_right(humanized(rule.rule_id@), 44) + " "@ + pad_left(
        format_bytes_text(rule.bytes),
        10,
    );
    if rule.recommended_selected && rule.selectable {
        base + "  "@ + "recommended"@
    } else if !rule.selectable {
        base + "  "@ + "unavailable"@
    } else {
        base
    }
}

pub fn render_rule_line(rule: &ScanRuleResult) -> (s: String)
    ensures
        s@ == rule_line_text(*rule),
{
    let label = humanize_rule_id(rule.rule_id.as_str());
    let bytes = format_bytes(rule.bytes);
    let label_len = chars_of(label.as_str()).len();
    let bytes_len = chars_of(bytes.as_str()).len();
    let mut s = String::new();
    proof {
        reveal_strlit("  ");
        reveal_strlit(" ");
    }
    push_str(&mut s, "  ");
    push_str(&mut s, label.as_str());
    if label_len < 44 {
        push_spaces(&mut s, 44 - label_len);
    }
    push_str(&mut s, " ");
    if bytes_len < 10 {
        push_spaces(&mut s, 10 - bytes_len);
    }
    push_str(&mut s, bytes.as_str());
    if rule.recommended_selected && rule.selectable {
        push_str(&mut s, "  ");
        push_str(&mut s, "recommended");
    } else if !rule.selectable {
        push_str(&mut s, "  ");
        push_str(&mut s, "unavailable");
    }
    assert(s@ =~= rule_line_text(*rule));
    s
}

/// How a cleanup selection chooses rules.
#[derive(Debug, Clone, Copy, PartialEq, Eq, Structural)]
pub enum CleanSelection {
    Recommended,
    All,
}

pub open spec fn selection_label_text(selection: CleanSelection) -> Seq<char> {
    match selection {
        CleanSelection::Recommended => "recommended"@,
        CleanSelection::All => "all"@,
    }
}

pub fn selection_label(selection: CleanSelection) -> (s: &'static str)
    ensures
        s@ == selection_label_text(selection),
{
    match selection {
        CleanSelection::Recommended => "recommended",
        CleanSelection::All => "all",
    }
}

pub open spec fn group_label_text(group: CleanupGroup) -> Seq<char> {
    match group {
        CleanupGroup::Custom => "Custom cleanup"@,
        CleanupGroup::System => "System"@,
        CleanupGroup::UserCache => "User caches"@,
        CleanupGroup::Browser => "Browser data"@,
        CleanupGroup::Application => "Application caches"@,
        CleanupGroup::Development => "Developer tools"@,
        CleanupGroup::Project => "Project build artifacts"@,
        CleanupGroup::Xcode => "Xcode data"@,
        CleanupGroup::ApplicationOptimization => "Application optimization"@,
        CleanupGroup::Ai => "AI models and caches"@,
        CleanupGroup::Container => "Container data"@,
    }
}

pub fn group_label(group: CleanupGroup) -> (s: &'static str)
    ensures
        s@ == group_label_text(group),
{
    match group {
        CleanupGroup::Custom => "Custom cleanup",
        CleanupGroup::System => "System",
        CleanupGroup::UserCache => "User caches",
        CleanupGroup::Browser => "Browser data",
        CleanupGroup::Application => "Application caches",
        CleanupGroup::Development => "Developer tools",
        CleanupGroup::Project => "Project build artifacts",
        CleanupGroup::Xcode => "Xcode data",
        CleanupGroup::ApplicationOptimization => "Application optimization",
        CleanupGroup::Ai => "AI models and caches",
        CleanupGroup::Container => "Container data",
    }
}

/// A rule a selection applies to: selectable, non-empty, and recommended
/// when the selection is the recommended one.
pub open spec fn selected_by(rule: ScanRuleResult, selection: CleanSelection) -> bool {
    rule.selectable && rule.bytes > 0 && match selection {
        CleanSelection::Recommended => rule.recommended_selected,
        CleanSelection::All => true,
    }
}

/// Indices of the rules a selection applies to, in scan order.
pub open spec fn selected_indices(rules: Seq<ScanRuleResult>, selection: CleanSelection) -> Seq<int>
    decreases rules.len(),
{
    if rules.len() == 0 {
        seq![]
    } else {
        let earlier = selected_indices(rules.drop_last(), selection);
        if selected_by(rules.last(), selection) {
            earlier.push(rules.len() - 1)
        } else {
            earlier
        }
    }
}

/// The positions of the scan rules a cleanup selection applies to.
pub fn selected_rules(scan: &CleanupScanResult, selection: CleanSelection) -> (picked: Vec<usize>)
    ensures
        picked@.map_values(|i: usize| i as int) == selected_indices(scan.rules@, selection),
{
    let mut picked: Vec<usize> = Vec::new();
    let mut i: usize = 0;
    while i < scan.rules.len()
        invariant
            i <= scan.rules@.len(),
            picked@.map_values(|k: usize| k as int) == selected_indices(scan.rules@.take(i as int), selection),
        decreases scan.rules.len() - i,
    {
        let rule = &scan.rules[i];
        assert(scan.rules@.take(i + 1).drop_last() =~= scan.rules@.take(i as int));
        let chosen = rule.selectable && rule.bytes > 0 && match selection {
            CleanSelection::Recommended => rule.recommended_selected,
            CleanSelection::All => true,
        };
        if chosen {
            picked.push(i);
        }
        assert(picked@.map_values(|k: usize| k as int) =~= selected_indices(scan.rules@.take(i + 1), selection));
        i = i + 1;
    }
    assert(scan.rules@.take(scan.rules.len() as int) =~= scan.rules@);
    picked
}

} // verus!

verus! {

/// Number of selectable, non-empty rules.
pub open spec fn candidate_count(rules: Seq<ScanRuleResult>) -> nat
    decreases rules.len(),
{
    if rules.len() == 0 {
        0
    } else {
        candidate_count(rules.drop_last()) + if rules.last().selectable && rules.last().bytes > 0 { 1nat } else { 0nat }
    }
}

/// Bytes of the recommended, selectable, non-empty rules.
pub open spec fn recommended_bytes(rules: Seq<ScanRuleResult>) -> nat
    decreases rules.len(),
{
    if rules.len() == 0 {
        0
    } else {
        recommended_bytes(rules.drop_last()) + if rules.last().recommended_selected && rules.last().selectable && rules.last().bytes > 0 {
            rules.last().bytes as nat
        } else {
            0nat
        }
    }
}

proof fn lemma_recommended_prefix(rules: Seq<ScanRuleResult>, i: int)
    requires
        0 <= i <= rules.len(),
    ensures
        recommended_bytes(rules.take(i)) <= recommended_bytes(rules),
        candidate_count(rules.take(i)) <= rules.len(),
    decreases rules.len() - i,
{
    if i < rules.len() {
        lemma_recommended_prefix(rules, i + 1);
        assert(rules.take(i + 1).drop_last() =~= rules.take(i));
        lemma_candidate_count_bound(rules.take(i + 1));
    } else {
        assert(rules.take(i) =~= rules);
        lemma_candidate_count_bound(rules);
    }
}

proof fn lemma_candidate_count_bound(rules: Seq<ScanRuleResult>)
    ensures
        candidate_count(rules) <= rules.len(),
    decreases rules.len(),
{
    if rules.len() > 0 {
        lemma_candidate_count_bound(rules.drop_last());
    }
}

/// The one-line scan summary.
pub open spec fn scan_summary_text(scan: CleanupScanResult, color_enabled: bool) -> Seq<char> {
    decimal(candidate_count(scan.rules@)) + " candidate(s), "@ + styled(
        format_bytes_text(scan.reclaimable_bytes),
        "1;32"@,
        color_enabled,
    ) + " estimated cleanable data, "@ + styled(
        format_bytes_text(recommended_bytes(scan.rules@) as u64),
        "1;32"@,
        color_enabled,
    ) + " recommended, completed in "@ + format_duration_text(scan.elapsed_ms) + "."@
}

pub fn render_scan_summary(scan: &CleanupScanResult, color_enabled: bool) -> (s: String)
    requires
        recommended_bytes(scan.rules@) <= u64::MAX,
    ensures
        s@ == scan_summary_text(*scan, color_enabled),
{
    let mut recommended: u64 = 0;
    let mut count: u64 = 0;
    let mut i: usize = 0;
    while i < scan.rules.len()
        invariant
            i <= scan.rules@.len(),
            recommended_bytes(scan.rules@) <= u64::MAX,
            recommended as nat == recommended_bytes(scan.rules@.take(i as int)),
            count as nat == candidate_count(scan.rules@.take(i as int)),
        decreases scan.rules.len() - i,
    {
        let rule = &scan.rules[i];
        assert(scan.rules@.take(i + 1).drop_last() =~= scan.rules@.take(i as int));
        proof {
            lemma_recommended_prefix(scan.rules@, i + 1);
            lemma_candidate_count_bound(scan.rules@.take(i as int));
        }
        if rule.recommended_selected && rule.selectable && rule.bytes > 0 {
            recommended = recommended + rule.bytes;
        }
        if rule.selectable && rule.bytes > 0 {
            count = count + 1;
        }
        i = i + 1;
    }
    assert(scan.rules@.take(scan.rules.len() as int) =~= scan.rules@);
    let reclaimable = format_bytes(scan.reclaimable_bytes);
    let recommended_text = format_bytes(recommended);
    let duration = format_duration(scan.elapsed_ms);
    let mut s = String::new();
    push_decimal(&mut s, count);
    push_str(&mut s, " candidate(s), ");
    push_str(&mut s, style(reclaimable.as_str(), "1;32", color_enabled).as_str());
    push_str(&mut s, " estimated cleanable data, ");
    push_str(&mut s, style(recommended_text.as_str(), "1;32", color_enabled).as_str());
    push_str(&mut s, " recommended, completed in ");
    push_str(&mut s, duration.as_str());
    push_str(&mut s, ".");
    assert(s@ =~= scan_summary_text(*scan, color_enabled));
    s
}

} // verus!

verus! {

/// Number of result groups a scan report presents.
pub const PRESENTED_GROUP_COUNT: usize = 10;

/// The `k`-th group in presentation order (custom rules are not presented).
pub open spec fn presented_group(k: int) -> CleanupGroup {
    if k == 0 {
        CleanupGroup::System
    } else if k == 1 {
        CleanupGroup::UserCache
    } else if k == 2 {
        CleanupGroup::Browser
    } else if k == 3 {
        CleanupGroup::Application
    } else if k == 4 {
        CleanupGroup::Development
    } else if k == 5 {
        CleanupGroup::Project
    } else if k == 6 {
        CleanupGroup::Xcode
    } else if k == 7 {
        CleanupGroup::ApplicationOptimization
    } else if k == 8 {
        CleanupGroup::Ai
    } else {
        CleanupGroup::Container
    }
}

fn presented_group_at(k: usize) -> (g: CleanupGroup)
    requires
        k < PRESENTED_GROUP_COUNT,
    ensures
        g == presented_group(k as int),
{
    match k {
        0 => CleanupGroup::System,
        1 => CleanupGroup::UserCache,
        2 => CleanupGroup::Browser,
        3 => CleanupGroup::Application,
        4 => CleanupGroup::Development,
        5 => CleanupGroup::Project,
        6 => CleanupGroup::Xcode,
        7 => CleanupGroup::ApplicationOptimization,
        8 => CleanupGroup::Ai,
        _ => CleanupGroup::Container,
    }
}

/// The non-empty rules of `group`, in scan order.
pub open spec fn group_members(rules: Seq<ScanRuleResult>, group: CleanupGroup) -> Seq<ScanRuleResult>
    decreases rules.len(),
{
    if rules.len() == 0 {
        seq![]
    } else {
        let earlier = group_members(rules.drop_last(), group);
        if rules.last().group == group && rules.last().bytes > 0 {
            earlier.push(rules.last())
        } else {
            earlier
        }
    }
}

/// Sum of the rule sizes.
pub open spec fn bytes_total(rules: Seq<ScanRuleResult>) -> nat
    decreases rules.len(),
{
    if rules.len() == 0 {
        0
    } else {
        bytes_total(rules.drop_last()) + rules.last().bytes as nat
    }
}

pub open spec fn rule_rank_key(rule: ScanRuleResult) -> (u64, Seq<char>) {
    (rule.bytes, rule.rule_id@)
}

/// Position before the first rule that `x` ranks before.
pub open spec fn rule_insert_position(s: Seq<ScanRuleResult>, x: ScanRuleResult) -> int
    decreases s.len(),
{
    if s.len() == 0 {
        0
    } else if ranks_before(rule_rank_key(x), rule_rank_key(s[0])) {
        0
    } else {
        1 + rule_insert_position(s.drop_first(), x)
    }
}

/// Largest rules first, equal sizes by rule ID; rules with equal keys keep
/// their scan order.
pub open spec fn size_ordered(s: Seq<ScanRuleResult>) -> Seq<ScanRuleResult>
    decreases s.len(),
{
    if s.len() == 0 {
        s
    } else {
        let r = size_ordered(s.drop_last());
        r.insert(rule_insert_position(r, s.last()), s.last())
    }
}

/// Number of rules that could not be inspected.
pub open spec fn limited_count(rules: Seq<ScanRuleResult>) -> nat
    decreases rules.len(),
{
    if rules.len() == 0 {
        0
    } else {
        limited_count(rules.drop_last()) + if rules.last().status == ScanItemStatus::Limited {
            1nat
        } else {
            0nat
        }
    }
}

/// Lines joined by newlines.
pub open spec fn join_lines(lines: Seq<Seq<char>>) -> Seq<char>
    decreases lines.len(),
{
    if lines.len() == 0 {
        seq![]
    } else if lines.len() == 1 {
        lines[0]
    } else {
        join_lines(lines.drop_last()) + seq!['\n'] + lines.last()
    }
}

pub open spec fn source_line(source: CleanupSourceDetail) -> Seq<char> {
    "    - "@ + format_bytes_text(source.bytes) + "  "@ + source.path@
}

pub open spec fn source_lines(sources: Seq<CleanupSourceDetail>) -> Seq<Seq<char>> {
    sources.map_values(|source: CleanupSourceDetail| source_line(source))
}

pub open spec fn rule_detail_line(rule: ScanRuleResult) -> Seq<char> {
    "    "@ + decimal(rule.file_count as nat) + " file(s), "@ + decimal(rule.source_count as nat)
        + " source(s)"@ + if rule.sources_truncated {
        " (summary truncated)"@
    } else {
        seq![]
    }
}

/// The lines shown for one rule.
pub open spec fn rule_block(rule: ScanRuleResult, details: bool) -> Seq<Seq<char>> {
    if details {
        seq![rule_line_text(rule), rule_detail_line(rule)] + source_lines(rule.sources@)
    } else {
        seq![rule_line_text(rule)]
    }
}

pub open spec fn rule_blocks(rules: Seq<ScanRuleResult>, details: bool) -> Seq<Seq<char>>
    decreases rules.len(),
{
    if rules.len() == 0 {
        seq![]
    } else {
        rule_blocks(rules.drop_last(), details) + rule_block(rules.last(), details)
    }
}

pub open spec fn group_heading(group: CleanupGroup, members: Seq<ScanRuleResult>, color_enabled: bool) -> Seq<char> {
    styled(
        group_label_text(group) + " ("@ + format_bytes_text(bytes_total(members) as u64) + ", "@
            + decimal(members.len()) + " item(s))"@,
        "1;34"@,
        color_enabled,
    )
}

/// The lines of one group: nothing when it has no non-empty rule, else a
/// blank line, the heading and the rules from largest to smallest.
pub open spec fn group_section(
    rules: Seq<ScanRuleResult>,
    group: CleanupGroup,
    details: bool,
    color_enabled: bool,
) -> Seq<Seq<char>> {
    let members = group_members(rules, group);
    if members.len() == 0 {
        seq![]
    } else {
        seq![seq![], group_heading(group, members, color_enabled)] + rule_blocks(
            size_ordered(members),
            details,
        )
    }
}

pub open spec fn group_sections(rules: Seq<ScanRuleResult>, k: nat, details: bool, color_enabled: bool) -> Seq<
    Seq<char>,
>
    decreases k,
{
    if k == 0 {
        seq![]
    } else {
        group_sections(rules, (k - 1) as nat, details, color_enabled) + group_section(
            rules,
            presented_group(k - 1),
            details,
            color_enabled,
        )
    }
}

/// Some presented group among the first `k` has a non-empty rule.
pub open spec fn shown_before(rules: Seq<ScanRuleResult>, k: int) -> bool {
    exists|j: int| 0 <= j < k && #[trigger] group_members(rules, presented_group(j)).len() > 0
}

/// The lines of the human scan report.
pub open spec fn scan_report_lines(scan: CleanupScanResult, details: bool, color_enabled: bool) -> Seq<Seq<char>> {
    let summary = scan_summary_text(scan, color_enabled);
    let limited = limited_count(scan.rules@);
    let body = seq![styled("Cleanup scan"@, "1;36"@, color_enabled), summary] + group_sections(
        scan.rules@,
        PRESENTED_GROUP_COUNT as nat,
        details,
        color_enabled,
    );
    if shown_before(scan.rules@, PRESENTED_GROUP_COUNT as int) || limited > 0 {
        body + seq![seq![]] + (if limited > 0 {
            seq![scan_warning_text(limited as u64, color_enabled)]
        } else {
            seq![]
        }) + seq![summary]
    } else {
        body
    }
}

/// The rule sizes of every presented group fit in a `u64`.
pub open spec fn group_totals_fit(rules: Seq<ScanRuleResult>) -> bool {
    forall|k: int|
        0 <= k < PRESENTED_GROUP_COUNT ==> #[trigger] bytes_total(group_members(rules, presented_group(k)))
            <= u64::MAX
}

pub open spec fn picked(rules: Seq<ScanRuleResult>, idx: Seq<usize>) -> Seq<ScanRuleResult> {
    idx.map_values(|i: usize| rules[i as int])
}

pub open spec fn ids_match(rules: Seq<ScanRuleResult>, ids: Seq<Vec<char>>) -> bool {
    &&& ids.len() == rules.len()
    &&& forall|i: int| 0 <= i < rules.len() ==> (#[trigger] ids[i])@ == rules[i].rule_id@
}

pub open spec fn indices_in(idx: Seq<usize>, n: nat) -> bool {
    forall|m: int| 0 <= m < idx.len() ==> #[trigger] idx[m] < n
}

} // verus!

verus! {

fn push_line(out: &mut String, line: &str, Ghost(lines): Ghost<Seq<Seq<char>>>)
    requires
        lines.len() > 0,
        old(out)@ == join_lines(lines),
    ensures
        final(out)@ == join_lines(lines.push(line@)),
{
    push_char(out, '\n');
    push_str(out, line);
    assert(lines.push(line@).drop_last() =~= lines);
    assert(out@ =~= join_lines(lines) + seq!['\n'] + line@);
}

fn rule_id_chars(rules: &Vec<ScanRuleResult>) -> (ids: Vec<Vec<char>>)
    ensures
        ids_match(rules@, ids@),
{
    let mut ids: Vec<Vec<char>> = Vec::new();
    let mut i: usize = 0;
    while i < rules.len()
        invariant
            i <= rules@.len(),
            ids@.len() == i,
            forall|m: int| 0 <= m < i ==> (#[trigger] ids@[m])@ == rules@[m].rule_id@,
        decreases rules.len() - i,
    {
        ids.push(chars_of(rules[i].rule_id.as_str()));
        i = i + 1;
    }
    ids
}

fn count_limited(rules: &Vec<ScanRuleResult>) -> (n: u64)
    ensures
        n as nat == limited_count(rules@),
{
    let mut n: u64 = 0;
    let mut i: usize = 0;
    while i < rules.len()
        invariant
            i <= rules@.len(),
            n as nat == limited_count(rules@.take(i as int)),
            n <= i,
        decreases rules.len() - i,
    {
        assert(rules@.take(i + 1).drop_last() =~= rules@.take(i as int));
        if rules[i].status == ScanItemStatus::Limited {
            n = n + 1;
        }
        i = i + 1;
    }
    assert(rules@.take(rules.len() as int) =~= rules@);
    n
}

proof fn lemma_group_total_prefix(rules: Seq<ScanRuleResult>, group: CleanupGroup, i: int)
    requires
        0 <= i <= rules.len(),
    ensures
        bytes_total(group_members(rules.take(i), group)) <= bytes_total(group_members(rules, group)),
    decreases rules.len() - i,
{
    if i < rules.len() {
        lemma_group_total_prefix(rules, group, i + 1);
        assert(rules.take(i + 1).drop_last() =~= rules.take(i));
        let m = group_members(rules.take(i), group);
        assert(m.push(rules[i]).drop_last() =~= m);
    } else {
        assert(rules.take(i) =~= rules);
    }
}

/// Positions of the non-empty rules of `group` and their total size.
fn collect_group(rules: &Vec<ScanRuleResult>, group: CleanupGroup) -> (r: (Vec<usize>, u64))
    requires
        bytes_total(group_members(rules@, group)) <= u64::MAX,
    ensures
        picked(rules@, r.0@) == group_members(rules@, group),
        indices_in(r.0@, rules@.len()),
        r.1 as nat == bytes_total(group_members(rules@, group)),
{
    let mut members: Vec<usize> = Vec::new();
    let mut total: u64 = 0;
    let mut i: usize = 0;
    while i < rules.len()
        invariant
            i <= rules@.len(),
            picked(rules@, members@) == group_members(rules@.take(i as int), group),
            indices_in(members@, rules@.len()),
            total as nat == bytes_total(group_members(rules@.take(i as int), group)),
            bytes_total(group_members(rules@, group)) <= u64::MAX,
        decreases rules.len() - i,
    {
        assert(rules@.take(i + 1).drop_last() =~= rules@.take(i as int));
        assert(rules@.take(i + 1).last() == rules@[i as int]);
        let rule = &rules[i];
        if rule.group == group && rule.bytes > 0 {
            proof {
                lemma_group_total_prefix(rules@, group, i + 1);
                let m = group_members(rules@.take(i as int), group);
                assert(m.push(rules@[i as int]).drop_last() =~= m);
            }
            total = total + rule.bytes;
            members.push(i);
            assert(picked(rules@, members@) =~= group_members(rules@.take(i as int), group).push(
                rules@[i as int],
            ));
        }
        i = i + 1;
    }
    assert(rules@.take(rules.len() as int) =~= rules@);
    (members, total)
}

proof fn lemma_rule_insert_position(s: Seq<ScanRuleResult>, x: ScanRuleResult, j: int)
    requires
        0 <= j <= s.len(),
        forall|m: int| 0 <= m < j ==> !ranks_before(rule_rank_key(x), #[trigger] rule_rank_key(s[m])),
        j == s.len() || ranks_before(rule_rank_key(x), rule_rank_key(s[j])),
    ensures
        rule_insert_position(s, x) == j,
    decreases j,
{
    if j > 0 {
        assert forall|m: int| 0 <= m < j - 1 implies !ranks_before(
            rule_rank_key(x),
            #[trigger] rule_rank_key(s.drop_first()[m]),
        ) by {
            assert(s.drop_first()[m] == s[m + 1]);
        }
        lemma_rule_insert_position(s.drop_first(), x, j - 1);
    }
}

fn rule_ranks_before(rules: &Vec<ScanRuleResult>, ids: &Vec<Vec<char>>, a: usize, b: usize) -> (r: bool)
    requires
        ids_match(rules@, ids@),
        a < rules@.len(),
        b < rules@.len(),
    ensures
        r == ranks_before(rule_rank_key(rules@[a as int]), rule_rank_key(rules@[b as int])),
{
    let x = rules[a].bytes;
    let y = rules[b].bytes;
    proof {
        assert(ids@[a as int]@ == rules@[a as int].rule_id@);
        assert(ids@[b as int]@ == rules@[b as int].rule_id@);
    }
    x > y || (x == y && chars_less(&ids[a], &ids[b]))
}

/// The member positions reordered from largest to smallest rule (stable).
fn order_by_size(rules: &Vec<ScanRuleResult>, ids: &Vec<Vec<char>>, members: &Vec<usize>) -> (order: Vec<usize>)
    requires
        ids_match(rules@, ids@),
        indices_in(members@, rules@.len()),
    ensures
        picked(rules@, order@) == size_ordered(picked(rules@, members@)),
        order@.len() == members@.len(),
        indices_in(order@, rules@.len()),
{
    let ghost all = picked(rules@, members@);
    let mut order: Vec<usize> = Vec::new();
    let mut t: usize = 0;
    while t < members.len()
        invariant
            t <= members@.len(),
            ids_match(rules@, ids@),
            indices_in(members@, rules@.len()),
            indices_in(order@, rules@.len()),
            all == picked(rules@, members@),
            picked(rules@, order@) == size_ordered(all.take(t as int)),
            order@.len() == t,
        decreases members.len() - t,
    {
        let x = members[t];
        assert(all[t as int] == rules@[x as int]);
        let mut j: usize = 0;
        while j < order.len() && !rule_ranks_before(rules, ids, x, order[j])
            invariant
                j <= order@.len(),
                x < rules@.len(),
                ids_match(rules@, ids@),
                indices_in(order@, rules@.len()),
                forall|m: int|
                    0 <= m < j ==> !ranks_before(
                        rule_rank_key(rules@[x as int]),
                        #[trigger] rule_rank_key(picked(rules@, order@)[m]),
                    ),
            decreases order.len() - j,
        {
            assert(picked(rules@, order@)[j as int] == rules@[order@[j as int] as int]);
            j = j + 1;
        }
        let ghost before = order@;
        proof {
            if j < order@.len() {
                assert(picked(rules@, before)[j as int] == rules@[before[j as int] as int]);
            }
            lemma_rule_insert_position(picked(rules@, before), rules@[x as int], j as int);
            assert(all.take(t + 1).drop_last() =~= all.take(t as int));
            assert(all.take(t + 1).last() == rules@[x as int]);
        }
        order.insert(j, x);
        assert(picked(rules@, order@) =~= picked(rules@, before).insert(j as int, rules@[x as int]));
        t = t + 1;
    }
    assert(all.take(members.len() as int) =~= all);
    order
}

} // verus!

verus! {

fn rule_detail(rule: &ScanRuleResult) -> (s: String)
    ensures
        s@ == rule_detail_line(*rule),
{
    let mut s = String::new();
    push_str(&mut s, "    ");
    push_decimal(&mut s, rule.file_count);
    push_str(&mut s, " file(s), ");
    push_decimal(&mut s, rule.source_count);
    push_str(&mut s, " source(s)");
    if rule.sources_truncated {
        push_str(&mut s, " (summary truncated)");
    }
    assert(s@ =~= rule_detail_line(*rule));
    s
}

fn render_source_line(source: &CleanupSourceDetail) -> (s: String)
    ensures
        s@ == source_line(*source),
{
    let mut s = String::new();
    push_str(&mut s, "    - ");
    let size = format_bytes(source.bytes);
    push_str(&mut s, size.as_str());
    push_str(&mut s, "  ");
    push_str(&mut s, source.path.as_str());
    assert(s@ =~= source_line(*source));
    s
}

/// Appends the lines of one rule.
fn push_rule_block(out: &mut String, Ghost(lines): Ghost<Seq<Seq<char>>>, rule: &ScanRuleResult, details: bool)
    requires
        lines.len() > 0,
        old(out)@ == join_lines(lines),
    ensures
        final(out)@ == join_lines(lines + rule_block(*rule, details)),
{
    let line = render_rule_line(rule);
    push_line(out, line.as_str(), Ghost(lines));
    let ghost mut cur = lines.push(line@);
    if details {
        let detail = rule_detail(rule);
        push_line(out, detail.as_str(), Ghost(cur));
        proof {
            cur = cur.push(detail@);
        }
        let mut q: usize = 0;
        while q < rule.sources.len()
            invariant
                q <= rule.sources@.len(),
                cur.len() > 0,
                out@ == join_lines(cur),
                cur == lines + seq![rule_line_text(*rule), rule_detail_line(*rule)] + source_lines(
                    rule.sources@.take(q as int),
                ),
            decreases rule.sources.len() - q,
        {
            let text = render_source_line(&rule.sources[q]);
            push_line(out, text.as_str(), Ghost(cur));
            proof {
                assert(source_lines(rule.sources@.take(q + 1)) =~= source_lines(
                    rule.sources@.take(q as int),
                ).push(source_line(rule.sources@[q as int])));
                cur = cur.push(text@);
            }
            q = q + 1;
        }
        assert(rule.sources@.take(rule.sources.len() as int) =~= rule.sources@);
        assert(cur =~= lines + rule_block(*rule, details));
    } else {
        assert(cur =~= lines + rule_block(*rule, details));
    }
}

/// Appends the section of one group; tells whether the group was shown.
fn render_group(
    out: &mut String,
    Ghost(lines): Ghost<Seq<Seq<char>>>,
    rules: &Vec<ScanRuleResult>,
    ids: &Vec<Vec<char>>,
    group: CleanupGroup,
    details: bool,
    color_enabled: bool,
) -> (shown: bool)
    requires
        lines.len() > 0,
        old(out)@ == join_lines(lines),
        ids_match(rules@, ids@),
        bytes_total(group_members(rules@, group)) <= u64::MAX,
    ensures
        final(out)@ == join_lines(lines + group_section(rules@, group, details, color_enabled)),
        shown == (group_members(rules@, group).len() > 0),
{
    let (members, total) = collect_group(rules, group);
    let ghost all = group_members(rules@, group);
    assert(picked(rules@, members@).len() == members@.len());
    if members.len() == 0 {
        assert(lines + group_section(rules@, group, details, color_enabled) =~= lines);
        return false;
    }
    let order = order_by_size(rules, ids, &members);
    let ghost sorted = size_ordered(all);
    let mut heading = String::new();
    push_str(&mut heading, group_label(group));
    push_str(&mut heading, " (");
    let size = format_bytes(total);
    push_str(&mut heading, size.as_str());
    push_str(&mut heading, ", ");
    push_decimal(&mut heading, members.len() as u64);
    push_str(&mut heading, " item(s))");
    let styled_heading = style(heading.as_str(), "1;34", color_enabled);
    assert(styled_heading@ =~= group_heading(group, all, color_enabled));
    proof {
        reveal_strlit("");
    }
    push_line(out, "", Ghost(lines));
    let ghost mut cur = lines.push(""@);
    push_line(out, styled_heading.as_str(), Ghost(cur));
    proof {
        cur = cur.push(styled_heading@);
        assert(sorted.take(0) =~= Seq::<ScanRuleResult>::empty());
        assert(""@ =~= Seq::<char>::empty());
        assert(cur =~= lines + seq![seq![], group_heading(group, all, color_enabled)] + rule_blocks(
            sorted.take(0),
            details,
        ));
    }
    let mut t: usize = 0;
    while t < order.len()
        invariant
            t <= order@.len(),
            indices_in(order@, rules@.len()),
            picked(rules@, order@) == sorted,
            cur.len() > 0,
            out@ == join_lines(cur),
            cur == lines + seq![seq![], group_heading(group, all, color_enabled)] + rule_blocks(
                sorted.take(t as int),
                details,
            ),
        decreases order.len() - t,
    {
        let k = order[t];
        assert(sorted[t as int] == rules@[k as int]);
        push_rule_block(out, Ghost(cur), &rules[k], details);
        proof {
            assert(sorted.take(t + 1).drop_last() =~= sorted.take(t as int));
            assert(sorted.take(t + 1).last() == sorted[t as int]);
            cur = cur + rule_block(rules@[k as int], details);
        }
        t = t + 1;
    }
    assert(sorted.take(order.len() as int) =~= sorted);
    assert(cur =~= lines + group_section(rules@, group, details, color_enabled));
    true
}

/// The human-readable scan report: a title and the summary, each presented
/// group with its rules from largest to smallest (with their sources when
/// `details` is set), and, when anything was shown or some rule could not be
/// inspected, a closing warning and the summary again. Source paths are shown
/// as stored in the scan.
pub fn render_scan(scan: &CleanupScanResult, details: bool, color_enabled: bool) -> (s: String)
    requires
        recommended_bytes(scan.rules@) <= u64::MAX,
        group_totals_fit(scan.rules@),
    ensures
        s@ == join_lines(scan_report_lines(*scan, details, color_enabled)),
{
    let summary = render_scan_summary(scan, color_enabled);
    let limited = count_limited(&scan.rules);
    let ids = rule_id_chars(&scan.rules);
    let mut out = style("Cleanup scan", "1;36", color_enabled);
    let ghost mut lines: Seq<Seq<char>> = seq![out@];
    push_line(&mut out, summary.as_str(), Ghost(lines));
    proof {
        lines = lines.push(summary@);
    }
    let ghost head = lines;
    let mut rendered = false;
    let mut k: usize = 0;
    while k < PRESENTED_GROUP_COUNT
        invariant
            k <= PRESENTED_GROUP_COUNT,
            ids_match(scan.rules@, ids@),
            group_totals_fit(scan.rules@),
            lines.len() > 0,
            out@ == join_lines(lines),
            lines == head + group_sections(scan.rules@, k as nat, details, color_enabled),
            rendered == shown_before(scan.rules@, k as int),
        decreases PRESENTED_GROUP_COUNT - k,
    {
        let group = presented_group_at(k);
        assert(bytes_total(group_members(scan.rules@, presented_group(k as int))) <= u64::MAX);
        let shown = render_group(&mut out, Ghost(lines), &scan.rules, &ids, group, details, color_enabled);
        proof {
            lines = lines + group_section(scan.rules@, group, details, color_enabled);
            assert(lines =~= head + group_sections(scan.rules@, (k + 1) as nat, details, color_enabled));
            if shown {
                assert(group_members(scan.rules@, presented_group(k as int)).len() > 0);
            }
            if shown_before(scan.rules@, k + 1) && !shown {
                let j = choose|j: int|
                    0 <= j < k + 1 && #[trigger] group_members(scan.rules@, presented_group(j)).len() > 0;
                assert(j < k);
            }
        }
        rendered = rendered || shown;
        k = k + 1;
    }
    let ghost body = lines;
    proof {
        reveal_strlit("");
        assert(""@ =~= Seq::<char>::empty());
    }
    if rendered || limited > 0 {
        push_line(&mut out, "", Ghost(lines));
        proof {
            lines = lines.push(""@);
        }
        if limited > 0 {
            let warning = render_scan_warning(limited, color_enabled);
            push_line(&mut out, warning.as_str(), Ghost(lines));
            proof {
                lines = lines.push(warning@);
            }
        }
        push_line(&mut out, summary.as_str(), Ghost(lines));
        proof {
            lines = lines.push(summary@);
        }
    }
    assert(limited_count(scan.rules@) as u64 == limited);
    if rendered || limited > 0 {
        if limited > 0 {
            assert(lines =~= body + seq![seq![]] + seq![scan_warning_text(limited, color_enabled)] + seq![summary@]);
        } else {
            assert(lines =~= body + seq![seq![]] + seq![summary@]);
        }
    }
    assert(lines =~= scan_report_lines(*scan, details, color_enabled));
    out
}

} // verus!

verus! {

/// The report opens with the title and the summary; when it shows any
/// group or some rule could not be inspected, it also ends with the
/// summary, so the summary stays visible after a long listing.
pub proof fn law_report_repeats_the_summary(scan: CleanupScanResult, details: bool, color_enabled: bool)
    ensures
        scan_report_lines(scan, details, color_enabled).len() >= 2,
        scan_report_lines(scan, details, color_enabled)[1] == scan_summary_text(scan, color_enabled),
        (shown_before(scan.rules@, PRESENTED_GROUP_COUNT as int) || limited_count(scan.rules@) > 0) ==> scan_report_lines(
            scan,
            details,
            color_enabled,
        ).last() == scan_summary_text(scan, color_enabled),
{
}

} // verus!

verus! {

/// The closing line after a cleanup ran: a dry run reports the selected
/// size and how many items passed preflight; a real run reports the size
/// removed and how many items it affected; both report the items skipped or
/// failed.
pub open spec fn completion_text(
    dry_run: bool,
    selected_bytes: u64,
    released_bytes: u64,
    affected: u64,
    failed: u64,
) -> Seq<char> {
    if dry_run {
        "Dry run completed: "@ + format_bytes_text(selected_bytes) + " selected, "@ + decimal(affected as nat)
            + " item(s) passed preflight, "@ + decimal(failed as nat) + " item(s) skipped or failed."@
    } else {
        "Cleanup completed: "@ + format_bytes_text(released_bytes) + " removed, "@ + decimal(affected as nat)
            + " item(s) affected, "@ + decimal(failed as nat) + " item(s) skipped or failed."@
    }
}

pub fn completion_message(dry_run: bool, selected_bytes: u64, released_bytes: u64, affected: u64, failed: u64) -> (s:
    String)
    ensures
        s@ == completion_text(dry_run, selected_bytes, released_bytes, affected, failed),
{
    let mut s = String::new();
    if dry_run {
        push_str(&mut s, "Dry run completed: ");
        let size = format_bytes(selected_bytes);
        push_str(&mut s, size.as_str());
        push_str(&mut s, " selected, ");
        push_decimal(&mut s, affected);
        push_str(&mut s, " item(s) passed preflight, ");
    } else {
        push_str(&mut s, "Cleanup completed: ");
        let size = format_bytes(released_bytes);
        push_str(&mut s, size.as_str());
        push_str(&mut s, " removed, ");
        push_decimal(&mut s, affected);
        push_str(&mut s, " item(s) affected, ");
    }
    push_decimal(&mut s, failed);
    push_str(&mut s, " item(s) skipped or failed.");
    s
}

/// How the clean command exits.
#[derive(Debug, Clone, Copy, PartialEq, Eq, Structural)]
pub enum CliExitCode {
    Success,
    CompletedWithWarnings,
    Cancelled,
}

/// A cancelled cleanup exits as cancelled; one with skipped or failed items
/// completes with warnings; otherwise it succeeds.
pub fn clean_exit_code(cancelled: bool, failed_item_count: u64) -> (code: CliExitCode)
    ensures
        code == if cancelled {
            CliExitCode::Cancelled
        } else if failed_item_count > 0 {
            CliExitCode::CompletedWithWarnings
        } else {
            CliExitCode::Success
        },
{
    if cancelled {
        CliExitCode::Cancelled
    } else if failed_item_count > 0 {
        CliExitCode::CompletedWithWarnings
    } else {
        CliExitCode::Success
    }
}

/// A confirmation answer accepts the cleanup when, trimmed of whitespace,
/// it is `y` or `yes` in any ASCII case.
pub open spec fn accepts_cleanup(response: Seq<char>) -> bool {
    crate::paths::eq_ignore_ascii_case(trim(response), "y"@) || crate::paths::eq_ignore_ascii_case(
        trim(response),
        "yes"@,
    )
}

pub fn is_confirmation(response: &str) -> (r: bool)
    ensures
        r == accepts_cleanup(response@),
{
    let answer = string_from_chars(&trim_chars(&chars_of(response)));
    crate::paths::str_eq_ignore_ascii_case(answer.as_str(), "y") || crate::paths::str_eq_ignore_ascii_case(
        answer.as_str(),
        "yes",
    )
}

} // verus!

verus! {

/// Every rule is at least as large as each later one, or equal in size with
/// an ID that does not sort after it.
pub open spec fn rules_in_size_order(s: Seq<ScanRuleResult>) -> bool {
    forall|i: int, j: int|
        0 <= i < j < s.len() ==> !ranks_before(rule_rank_key(#[trigger] s[j]), rule_rank_key(#[trigger] s[i]))
}

/// Whether a rule has the given (size, rule ID) key.
pub open spec fn has_rank_key(k: (u64, Seq<char>)) -> spec_fn(ScanRuleResult) -> bool {
    |rule: ScanRuleResult| rule_rank_key(rule) == k
}

/// The rules with key `k`, in the order of `s`.
pub open spec fn rules_keyed(s: Seq<ScanRuleResult>, k: (u64, Seq<char>)) -> Seq<ScanRuleResult> {
    s.filter(has_rank_key(k))
}

proof fn lemma_rule_insert_facts(s: Seq<ScanRuleResult>, x: ScanRuleResult)
    ensures
        0 <= rule_insert_position(s, x) <= s.len(),
        forall|j: int|
            0 <= j < rule_insert_position(s, x) ==> !ranks_before(rule_rank_key(x), rule_rank_key(#[trigger] s[j])),
        rule_insert_position(s, x) < s.len() ==> ranks_before(rule_rank_key(x), rule_rank_key(s[rule_insert_position(s, x)])),
    decreases s.len(),
{
    if s.len() > 0 && !ranks_before(rule_rank_key(x), rule_rank_key(s[0])) {
        lemma_rule_insert_facts(s.drop_first(), x);
        assert forall|j: int| 0 <= j < rule_insert_position(s, x) implies !ranks_before(
            rule_rank_key(x),
            rule_rank_key(#[trigger] s[j]),
        ) by {
            if j > 0 {
                assert(s[j] == s.drop_first()[j - 1]);
            }
        }
    }
}

proof fn lemma_no_rule_keyed(s: Seq<ScanRuleResult>, k: (u64, Seq<char>))
    requires
        forall|i: int| 0 <= i < s.len() ==> rule_rank_key(#[trigger] s[i]) != k,
    ensures
        rules_keyed(s, k) == Seq::<ScanRuleResult>::empty(),
    decreases s.len(),
{
    reveal(Seq::filter);
    if s.len() > 0 {
        lemma_no_rule_keyed(s.drop_last(), k);
        assert(rule_rank_key(s[s.len() - 1]) != k);
    }
}

proof fn lemma_rules_keyed_push(s: Seq<ScanRuleResult>, x: ScanRuleResult, k: (u64, Seq<char>))
    ensures
        rules_keyed(s.push(x), k) == if rule_rank_key(x) == k {
            rules_keyed(s, k).push(x)
        } else {
            rules_keyed(s, k)
        },
{
    reveal(Seq::filter);
    assert(s.push(x).drop_last() =~= s);
}

/// One insertion step keeps the order, the multiset and the order among
/// rules of one key.
proof fn lemma_rule_insert_step(r: Seq<ScanRuleResult>, x: ScanRuleResult, k: (u64, Seq<char>))
    requires
        rules_in_size_order(r),
    ensures
        rules_in_size_order(r.insert(rule_insert_position(r, x), x)),
        rules_keyed(r.insert(rule_insert_position(r, x), x), k) == rules_keyed(r.push(x), k),
{
    lemma_rule_insert_facts(r, x);
    let p = rule_insert_position(r, x);
    let out = r.insert(p, x);
    assert forall|i: int, j: int| 0 <= i < j < out.len() implies !ranks_before(
        rule_rank_key(#[trigger] out[j]),
        rule_rank_key(#[trigger] out[i]),
    ) by {
        if i < p && j == p {
            assert(out[i] == r[i]);
        } else if i == p && j > p {
            assert(out[j] == r[j - 1]);
            crate::plan::lemma_ranks_before_is_strict(rule_rank_key(r[j - 1]), rule_rank_key(x), rule_rank_key(r[p]));
            crate::plan::lemma_ranks_before_is_strict(rule_rank_key(r[j - 1]), rule_rank_key(r[p]), rule_rank_key(x));
            if j - 1 > p {
                assert(!ranks_before(rule_rank_key(r[j - 1]), rule_rank_key(r[p])));
            }
        } else if i < p && j < p {
            assert(out[i] == r[i] && out[j] == r[j]);
        } else if i < p {
            assert(out[i] == r[i] && out[j] == r[j - 1]);
        } else {
            assert(out[i] == r[i - 1] && out[j] == r[j - 1]);
        }
    }
    let head = r.subrange(0, p);
    let tail = r.subrange(p, r.len() as int);
    assert(r =~= head + tail);
    assert(out =~= head + (seq![x] + tail));
    Seq::filter_distributes_over_add(head, tail, has_rank_key(k));
    Seq::filter_distributes_over_add(head, seq![x] + tail, has_rank_key(k));
    Seq::filter_distributes_over_add(seq![x], tail, has_rank_key(k));
    lemma_rules_keyed_push(r, x, k);
    lemma_rules_keyed_push(Seq::<ScanRuleResult>::empty(), x, k);
    assert(Seq::<ScanRuleResult>::empty().push(x) =~= seq![x]);
    lemma_no_rule_keyed(Seq::<ScanRuleResult>::empty(), k);
    if rule_rank_key(x) == k {
        assert forall|i: int| 0 <= i < tail.len() implies rule_rank_key(#[trigger] tail[i]) != k by {
            assert(tail[i] == r[p + i]);
            crate::plan::lemma_ranks_before_is_strict(rule_rank_key(r[p + i]), rule_rank_key(r[p]), rule_rank_key(x));
            if i > 0 {
                assert(!ranks_before(rule_rank_key(r[p + i]), rule_rank_key(r[p])));
            }
        }
        lemma_no_rule_keyed(tail, k);
        assert(rules_keyed(out, k) =~= rules_keyed(r.push(x), k));
    } else {
        assert(rules_keyed(out, k) =~= rules_keyed(r.push(x), k));
    }
}

/// Ordering by size puts larger rules first and equal sizes in rule ID
/// order, keeps every rule exactly as often as it came, and keeps rules with
/// equal keys in the order the scan gave them.
pub proof fn law_size_order_sorts_stably(s: Seq<ScanRuleResult>)
    ensures
        rules_in_size_order(size_ordered(s)),
        size_ordered(s).to_multiset() == s.to_multiset(),
        forall|k: (u64, Seq<char>)| #[trigger] rules_keyed(size_ordered(s), k) == rules_keyed(s, k),
    decreases s.len(),
{
    if s.len() > 0 {
        let d = s.drop_last();
        let x = s.last();
        law_size_order_sorts_stably(d);
        let r = size_ordered(d);
        lemma_rule_insert_facts(r, x);
        lemma_rule_insert_step(r, x, (0u64, Seq::<char>::empty()));
        vstd::seq_lib::to_multiset_insert(r, rule_insert_position(r, x), x);
        vstd::seq_lib::to_multiset_build(d, x);
        assert(d.push(x) =~= s);
        assert forall|k: (u64, Seq<char>)| #[trigger] rules_keyed(size_ordered(s), k) == rules_keyed(s, k) by {
            lemma_rule_insert_step(r, x, k);
            lemma_rules_keyed_push(r, x, k);
            lemma_rules_keyed_push(d, x, k);
        }
    }
}

} // verus!

verus! {

/// What the clean command does once the scan is rendered.
pub enum CleanDecision {
    /// Only the report was asked for: print this; no files change.
    Report(String),
    /// Nothing in the selection can be cleaned: print this; no files change.
    NothingSelected(String),
    /// Ask this question on the terminal and execute only on a yes.
    Confirm(String),
    /// A confirmation is needed but cannot be asked: fail with this error.
    Refuse(String),
    /// Execute the selection without asking.
    Execute,
}

/// The question that confirms a cleanup.
pub open spec fn confirmation_prompt_text(selection: CleanSelection, count: nat, bytes: u64) -> Seq<char> {
    let warning = match selection {
        CleanSelection::Recommended => "Apply the recommended cleanup"@,
        CleanSelection::All => "Apply all selectable items, including items that require review"@,
    };
    warning + " ("@ + decimal(count) + " item(s), "@ + format_bytes_text(bytes) + ")? [y/N] "@
}

/// The error when a cleanup needs a confirmation that cannot be asked.
pub open spec fn non_interactive_text() -> Seq<char> {
    "non-interactive cleanup requires --yes; use --dry-run to verify without changes"@
}

/// Decides the clean command after the scan `summary` is rendered: without
/// `apply` only the report is shown; an empty selection changes nothing; a
/// real run that was not pre-approved with `yes` asks for confirmation,
/// which needs an `interactive` terminal; otherwise the selection runs.
pub fn clean_decision(
    summary: &str,
    apply: bool,
    selection: CleanSelection,
    selected_count: usize,
    selected_bytes: u64,
    dry_run: bool,
    yes: bool,
    interactive: bool,
) -> (d: CleanDecision)
    ensures
        !apply ==> (d matches CleanDecision::Report(t) && t@ == summary@ + "\n\nNo files changed."@),
        apply && selected_count == 0 ==> (d matches CleanDecision::NothingSelected(t) && t@ == summary@
            + "\n\nNo "@ + selection_label_text(selection) + " cleanup items are currently available. No files changed."@),
        apply && selected_count > 0 && (dry_run || yes) ==> d is Execute,
        apply && selected_count > 0 && !dry_run && !yes && interactive ==> (d matches CleanDecision::Confirm(t)
            && t@ == confirmation_prompt_text(selection, selected_count as nat, selected_bytes)),
        apply && selected_count > 0 && !dry_run && !yes && !interactive ==> (d matches CleanDecision::Refuse(t)
            && t@ == non_interactive_text()),
{
    if !apply {
        let mut t = String::new();
        push_str(&mut t, summary);
        push_str(&mut t, "\n\nNo files changed.");
        return CleanDecision::Report(t);
    }
    if selected_count == 0 {
        let mut t = String::new();
        push_str(&mut t, summary);
        push_str(&mut t, "\n\nNo ");
        push_str(&mut t, selection_label(selection));
        push_str(&mut t, " cleanup items are currently available. No files changed.");
        return CleanDecision::NothingSelected(t);
    }
    if dry_run || yes {
        return CleanDecision::Execute;
    }
    if !interactive {
        let mut t = String::new();
        push_str(&mut t, "non-interactive cleanup requires --yes; use --dry-run to verify without changes");
        return CleanDecision::Refuse(t);
    }
    let mut t = String::new();
    match selection {
        CleanSelection::Recommended => push_str(&mut t, "Apply the recommended cleanup"),
        CleanSelection::All => push_str(&mut t, "Apply all selectable items, including items that require review"),
    }
    push_str(&mut t, " (");
    push_decimal(&mut t, selected_count as u64);
    push_str(&mut t, " item(s), ");
    let size = format_bytes(selected_bytes);
    push_str(&mut t, size.as_str());
    push_str(&mut t, ")? [y/N] ");
    CleanDecision::Confirm(t)
}

/// The line that announces a selection before it is confirmed or run.
pub fn selection_notice(selection: CleanSelection, selected_count: usize, selected_bytes: u64) -> (s: String)
    ensures
        s@ == "\nSelected "@ + decimal(selected_count as nat) + " item(s), "@ + format_bytes_text(selected_bytes)
            + " using the "@ + selection_label_text(selection) + " selection."@,
{
    let mut s = String::new();
    push_str(&mut s, "\nSelected ");
    push_decimal(&mut s, selected_count as u64);
    push_str(&mut s, " item(s), ");
    let size = format_bytes(selected_bytes);
    push_str(&mut s, size.as_str());
    push_str(&mut s, " using the ");
    push_str(&mut s, selection_label(selection));
    push_str(&mut s, " selection.");
    s
}

/// After the confirmation question: nothing to say when the answer accepts
/// the cleanup, the closing line of a declined cleanup otherwise.
pub fn after_confirmation(response: &str) -> (r: Option<String>)
    ensures
        accepts_cleanup(response@) ==> r is None,
        !accepts_cleanup(response@) ==> (r matches Some(t) && t@ == "Cleanup cancelled. No files changed."@),
{
    if is_confirmation(response) {
        None
    } else {
        let mut t = String::new();
        push_str(&mut t, "Cleanup cancelled. No files changed.");
        Some(t)
    }
}

} // verus!

verus! {

/// `shown` is `scan` with each source path as the report shows it: the
/// stored path when full paths were asked for, else the diagnostic form
/// given for that source (same rule index, same source index).
pub open spec fn paths_shown(
    scan: CleanupScanResult,
    shown: CleanupScanResult,
    include_full_paths: bool,
    diagnostic_paths: Seq<Vec<String>>,
) -> bool {
    &&& shown == (CleanupScanResult { rules: shown.rules, ..scan })
    &&& shown.rules@.len() == scan.rules@.len()
    &&& forall|i: int|
        #![trigger shown.rules@[i]]
        0 <= i < scan.rules@.len() ==> {
            &&& shown.rules@[i] == (ScanRuleResult { sources: shown.rules@[i].sources, ..scan.rules@[i] })
            &&& shown.rules@[i].sources@.len() == scan.rules@[i].sources@.len()
            &&& forall|j: int|
                #![trigger shown.rules@[i].sources@[j]]
                0 <= j < scan.rules@[i].sources@.len() ==> {
                    &&& shown.rules@[i].sources@[j] == (CleanupSourceDetail {
                        path: shown.rules@[i].sources@[j].path,
                        ..scan.rules@[i].sources@[j]
                    })
                    &&& shown.rules@[i].sources@[j].path@ == if include_full_paths {
                        scan.rules@[i].sources@[j].path@
                    } else {
                        diagnostic_paths[i]@[j]@
                    }
                }
        }
}

/// Source paths as the report shows them: stored paths when
/// `include_full_paths`, else the diagnostic form of each source, which the
/// caller gives per rule and source. Render the result with `render_scan`.
pub fn shown_paths(scan: CleanupScanResult, include_full_paths: bool, diagnostic_paths: &Vec<Vec<String>>) -> (shown:
    CleanupScanResult)
    requires
        include_full_paths || diagnostic_paths@.len() == scan.rules@.len(),
        include_full_paths || forall|i: int|
            0 <= i < scan.rules@.len() ==> (#[trigger] diagnostic_paths@[i])@.len() == scan.rules@[i].sources@.len(),
    ensures
        paths_shown(scan, shown, include_full_paths, diagnostic_paths@),
{
    if include_full_paths {
        return scan;
    }
    let mut shown = scan;
    let mut rules: Vec<ScanRuleResult> = Vec::new();
    std::mem::swap(&mut rules, &mut shown.rules);
    let mut out: Vec<ScanRuleResult> = Vec::new();
    let mut i: usize = 0;
    for rule in it: rules.into_iter()
        invariant
            it.seq() == scan.rules@,
            i == it.index(),
            i <= scan.rules@.len(),
            shown == (CleanupScanResult { rules: shown.rules, ..scan }),
            diagnostic_paths@.len() == scan.rules@.len(),
            forall|k: int|
                0 <= k < scan.rules@.len() ==> (#[trigger] diagnostic_paths@[k])@.len() == scan.rules@[k].sources@.len(),
            out@.len() == i,
            forall|k: int|
                #![trigger out@[k]]
                0 <= k < i ==> {
                    &&& out@[k] == (ScanRuleResult { sources: out@[k].sources, ..scan.rules@[k] })
                    &&& out@[k].sources@.len() == scan.rules@[k].sources@.len()
                    &&& forall|j: int|
                        #![trigger out@[k].sources@[j]]
                        0 <= j < scan.rules@[k].sources@.len() ==> {
                            &&& out@[k].sources@[j] == (CleanupSourceDetail {
                                path: out@[k].sources@[j].path,
                                ..scan.rules@[k].sources@[j]
                            })
                            &&& out@[k].sources@[j].path@ == diagnostic_paths@[k]@[j]@
                        }
                },
    {
        let mut next = rule;
        let paths = &diagnostic_paths[i];
        let mut sources: Vec<CleanupSourceDetail> = Vec::new();
        let mut j: usize = 0;
        while j < next.sources.len()
            invariant
                j <= next.sources@.len(),
                paths@.len() == next.sources@.len(),
                sources@.len() == j,
                forall|m: int|
                    #![trigger sources@[m]]
                    0 <= m < j ==> {
                        &&& sources@[m] == (CleanupSourceDetail { path: sources@[m].path, ..next.sources@[m] })
                        &&& sources@[m].path@ == paths@[m]@
                    },
            decreases next.sources@.len() - j,
        {
            let source = &next.sources[j];
            sources.push(
                CleanupSourceDetail {
                    path: paths[j].clone(),
                    bytes: source.bytes,
                    file_count: source.file_count,
                    modified_at_ms: source.modified_at_ms,
                    block_reason: source.block_reason,
                },
            );
            j = j + 1;
        }
        next.sources = sources;
        out.push(next);
        i = out.len();
    }
    shown.rules = out;
    shown
}

} // verus!

verus! {

/// A cleanup selection picks, in scan order and once each, exactly the
/// rules that are selectable and hold bytes — all of them for `all`, even
/// those that require review and are neither recommended nor selected by
/// default, and only the recommended ones for `recommended`.
pub proof fn law_selection_picks_exactly_the_selectable_rules(rules: Seq<ScanRuleResult>, selection: CleanSelection)
    ensures
        forall|i: int|
            selected_indices(rules, selection).contains(i) <==> (0 <= i < rules.len() && rules[i].selectable
                && rules[i].bytes > 0 && (selection == CleanSelection::Recommended ==> rules[i].recommended_selected)),
        forall|a: int, b: int|
            0 <= a < b < selected_indices(rules, selection).len() ==> selected_indices(rules, selection)[a]
                < selected_indices(rules, selection)[b],
    decreases rules.len(),
{
    if rules.len() > 0 {
        let d = rules.drop_last();
        law_selection_picks_exactly_the_selectable_rules(d, selection);
        let e = selected_indices(d, selection);
        let s = selected_indices(rules, selection);
        assert forall|i: int| #[trigger] s.contains(i) <==> (0 <= i < rules.len() && rules[i].selectable && rules[i].bytes
            > 0 && (selection == CleanSelection::Recommended ==> rules[i].recommended_selected)) by {
            if i < rules.len() - 1 && 0 <= i {
                assert(rules[i] == d[i]);
            }
            if s.contains(i) && !e.contains(i) {
                assert(s == e.push(rules.len() - 1));
                let k = choose|k: int| 0 <= k < s.len() && s[k] == i;
                assert(k == e.len());
            }
            if e.contains(i) {
                let k = choose|k: int| 0 <= k < e.len() && e[k] == i;
                if selected_by(rules.last(), selection) {
                    assert(s[k] == i);
                }
            }
            if i == rules.len() - 1 && selected_by(rules.last(), selection) {
                assert(s[e.len() as int] == i);
            }
            if i == rules.len() - 1 {
                assert(!e.contains(i));
            }
        }
        assert forall|a: int, b: int| 0 <= a < b < s.len() implies s[a] < s[b] by {
            if b == e.len() {
                assert(e.contains(s[a]));
            }
        }
    }
}

} // verus!
