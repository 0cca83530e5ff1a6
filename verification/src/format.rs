//! Human-readable costs: durations, sizes, counts and percentages.

use crate::binary64::lemma_cancel;
use crate::binary64::lemma_from_int_exact;
use crate::binary64::lemma_percent_whole;
use crate::binary64::lemma_ratio_parts;
use crate::binary64::lemma_rounded_half;
use crate::binary64::percent;
use crate::binary64::absolute;
use crate::binary64::from_int;
use crate::binary64::magnitude;
use crate::binary64::percent_magnitude;
use crate::binary64::percent_tenths;
use crate::binary64::quotient;
use crate::binary64::rounded_quotient;
use crate::binary64::scaled_to_int;
use crate::text::decimal;
use crate::text::digit;
use crate::text::push_decimal;
use crate::text::to_chars;
use vstd::arithmetic::power2::pow2;
use vstd::prelude::*;

verus! {

/// The unit type for a profile's values.
#[derive(Debug, Clone, Copy, PartialEq, Eq, Structural)]
pub enum ValueUnit {
    Nanoseconds,
    Bytes,
    Count,
}

pub open spec fn sign_text(negative: bool) -> Seq<char> {
    if negative {
        "-"@
    } else {
        ""@
    }
}

/// A number of tenths with its decimal point.
pub open spec fn tenths_text(tenths: nat) -> Seq<char> {
    decimal(tenths / 10) + "."@ + seq![digit(tenths % 10)]
}

/// `n as f64 / d as f64`, times `scale`, rounded to an integer.
pub open spec fn float_ratio(n: nat, d: nat, scale: nat) -> nat {
    scaled_to_int(quotient(from_int(n), from_int(d)), scale)
}

/// `x` in the largest of four units, each a thousand of the next, in which it is
/// at least one: with one decimal in the largest, rounded to a whole number in
/// the two between, as it is in the smallest.
pub open spec fn metric_text(
    x: int,
    giga: Seq<char>,
    mega: Seq<char>,
    kilo: Seq<char>,
    unit: Seq<char>,
) -> Seq<char> {
    let size = magnitude(x);
    sign_text(x < 0) + if size >= 1_000_000_000 {
        tenths_text(float_ratio(size, 1_000_000_000, 10)) + giga
    } else if size >= 1_000_000 {
        decimal(float_ratio(size, 1_000_000, 1)) + mega
    } else if size >= 1_000 {
        decimal(float_ratio(size, 1_000, 1)) + kilo
    } else {
        decimal(size) + unit
    }
}

/// Digits with a comma before each group of three, counted from the end.
pub open spec fn grouped(digits: Seq<char>) -> Seq<char>
    decreases digits.len(),
{
    if digits.len() <= 3 {
        digits
    } else {
        grouped(digits.take(digits.len() - 3)) + ","@ + digits.skip(digits.len() - 3)
    }
}

pub open spec fn count_text(count: int) -> Seq<char> {
    sign_text(count < 0) + grouped(decimal(magnitude(count)))
}

/// `value` as a percentage of `total` with one decimal, in brackets; nothing
/// where there is no total.
pub open spec fn percent_text(value: int, total: int) -> Seq<char> {
    if total == 0 {
        ""@
    } else {
        "("@ + sign_text((value < 0) != (total < 0)) + tenths_text(
            scaled_to_int(percent_magnitude(value, total), 10),
        ) + "%)"@
    }
}

/// `value` in the given unit.
pub open spec fn value_text(value: int, unit: ValueUnit) -> Seq<char> {
    match unit {
        ValueUnit::Nanoseconds => metric_text(value, "s"@, "ms"@, "us"@, "ns"@),
        ValueUnit::Bytes => metric_text(value, "GB"@, "MB"@, "KB"@, "B"@),
        ValueUnit::Count => count_text(value),
    }
}

fn push_sign(out: &mut String, negative: bool)
    ensures
        final(out)@ == old(out)@ + sign_text(negative),
{
    if negative {
        out.push_str("-");
    } else {
        out.push_str("");
    }
}

fn push_tenths(out: &mut String, tenths: u128)
    ensures
        final(out)@ == old(out)@ + tenths_text(tenths as nat),
{
    push_decimal(out, tenths / 10);
    out.push_str(".");
    let d: u8 = (tenths % 10) as u8;
    out.push((48u8 + d) as char);
    assert(out@ =~= old(out)@ + tenths_text(tenths as nat));
}

fn metric(x: i64, giga: &str, mega: &str, kilo: &str, unit: &str) -> (s: String)
    ensures
        s@ == metric_text(x as int, giga@, mega@, kilo@, unit@),
{
    let size: u64 = absolute(x);
    let mut s: String = String::new();
    push_sign(&mut s, x < 0);
    if size >= 1_000_000_000 {
        push_tenths(&mut s, rounded_quotient(size, 1_000_000_000, 10));
        s.push_str(giga);
    } else if size >= 1_000_000 {
        push_decimal(&mut s, rounded_quotient(size, 1_000_000, 1));
        s.push_str(mega);
    } else if size >= 1_000 {
        push_decimal(&mut s, rounded_quotient(size, 1_000, 1));
        s.push_str(kilo);
    } else {
        push_decimal(&mut s, size as u128);
        s.push_str(unit);
    }
    assert(s@ =~= metric_text(x as int, giga@, mega@, kilo@, unit@));
    s
}

/// Format a nanosecond value into a human-readable duration string.
/// Uses the largest unit where value >= 1: s, ms, us, ns.
pub fn format_nanoseconds(ns: i64) -> (s: String)
    ensures
        s@ == metric_text(ns as int, "s"@, "ms"@, "us"@, "ns"@),
{
    metric(ns, "s", "ms", "us", "ns")
}

/// Format a byte value into a human-readable size string.
/// Uses the largest unit where value >= 1: GB, MB, KB, B.
pub fn format_bytes(bytes: i64) -> (s: String)
    ensures
        s@ == metric_text(bytes as int, "GB"@, "MB"@, "KB"@, "B"@),
{
    metric(bytes, "GB", "MB", "KB", "B")
}

/// Appends the first `end` digits in groups of three.
fn push_grouped(out: &mut String, digits: &Vec<char>, end: usize)
    requires
        end <= digits.len(),
    ensures
        final(out)@ == old(out)@ + grouped(digits@.take(end as int)),
    decreases end,
{
    let from: usize = if end > 3 {
        end - 3
    } else {
        0
    };
    if end > 3 {
        push_grouped(out, digits, from);
        out.push_str(",");
        assert(digits@.take(end as int).take(from as int) =~= digits@.take(from as int));
    }
    let ghost before = out@;
    let mut i: usize = from;
    while i < end
        invariant
            from <= i <= end <= digits.len(),
            out@ == before + digits@.subrange(from as int, i as int),
        decreases end - i,
    {
        out.push(digits[i]);
        i = i + 1;
        assert(out@ =~= before + digits@.subrange(from as int, i as int));
    }
    assert(digits@.take(end as int).skip(from as int) =~= digits@.subrange(
        from as int,
        end as int,
    ));
    assert(out@ =~= old(out)@ + grouped(digits@.take(end as int)));
}

/// Format a count value with comma-separated thousands.
pub fn format_count(count: i64) -> (s: String)
    ensures
        s@ == count_text(count as int),
{
    let mut numeral: String = String::new();
    push_decimal(&mut numeral, absolute(count) as u128);
    let digits: Vec<char> = to_chars(numeral.as_str());
    let mut s: String = String::new();
    push_sign(&mut s, count < 0);
    push_grouped(&mut s, &digits, digits.len());
    assert(digits@.take(digits.len() as int) =~= decimal(magnitude(count as int)));
    assert(s@ =~= count_text(count as int));
    s
}

/// Format a percentage value: "(34.2%)" relative to total.
/// Returns empty string if total is zero.
pub fn format_percent(value: i64, total: i64) -> (s: String)
    ensures
        s@ == percent_text(value as int, total as int),
{
    let mut s: String = String::new();
    if total == 0 {
        s.push_str("");
        assert(s@ =~= ""@);
        return s;
    }
    s.push_str("(");
    push_sign(&mut s, (value < 0) != (total < 0));
    push_tenths(&mut s, percent_tenths(value, total));
    s.push_str("%)");
    assert(s@ =~= percent_text(value as int, total as int));
    s
}

/// Format a value according to its unit.
pub fn format_value(value: i64, unit: ValueUnit) -> (s: String)
    ensures
        s@ == value_text(value as int, unit),
{
    match unit {
        ValueUnit::Nanoseconds => format_nanoseconds(value),
        ValueUnit::Bytes => format_bytes(value),
        ValueUnit::Count => format_count(value),
    }
}

/// A whole is written as one hundred percent.
pub proof fn lemma_whole_percent(total: int)
    requires
        total != 0,
    ensures
        percent_text(total, total) == "(100.0%)"@,
{
    lemma_percent_whole(total);
    reveal_strlit("(");
    reveal_strlit("");
    reveal_strlit(".");
    reveal_strlit("%)");
    reveal_strlit("(100.0%)");
    reveal_with_fuel(decimal, 4);
    assert(decimal(100) =~= seq!['1', '0', '0']);
    assert(percent_text(total, total) =~= "(100.0%)"@);
}

/// A negative value is the positive one with a sign before it.
pub proof fn lemma_negative_text(value: int, unit: ValueUnit)
    requires
        value > 0,
    ensures
        value_text(-value, unit) == "-"@ + value_text(value, unit),
{
    reveal_strlit("");
    assert(value_text(-value, unit) =~= "-"@ + value_text(value, unit));
}

/// Without their commas, grouped digits are the digits; the commas stand before every
/// third digit from the end.
pub proof fn lemma_grouped(digits: Seq<char>)
    requires
        !digits.contains(','),
    ensures
        grouped(digits).filter(|c: char| c != ',') == digits,
        forall|i: int|
            0 <= i < grouped(digits).len() ==> (#[trigger] grouped(digits)[i] == ',' <==> (grouped(
                digits,
            ).len() - i) % 4 == 0),
    decreases digits.len(),
{
    lemma_comma_places(digits);
    let plain = |c: char| c != ',';
    let text = grouped(digits);
    if digits.len() <= 3 {
        lemma_filter_all(digits);
    } else {
        let n = digits.len() - 3;
        let front = digits.take(n);
        let back = digits.skip(n);
        let comma = ","@;
        lemma_no_commas(digits, n);
        lemma_grouped(front);
        lemma_filter_all(back);
        Seq::filter_distributes_over_add(grouped(front), comma, plain);
        Seq::filter_distributes_over_add(grouped(front) + comma, back, plain);
        assert(comma.filter(plain) =~= seq![]) by {
            reveal_strlit(",");
            reveal_with_fuel(Seq::filter, 2);
            assert(comma.drop_last() =~= seq![]);
        }
        assert(text.filter(plain) =~= digits);
    }
}

/// Neither part of digits without a comma has one.
proof fn lemma_no_commas(digits: Seq<char>, n: int)
    requires
        !digits.contains(','),
        0 <= n <= digits.len(),
    ensures
        !digits.take(n).contains(','),
        !digits.skip(n).contains(','),
{
    let front = digits.take(n);
    let back = digits.skip(n);
    if front.contains(',') {
        let k = choose|k: int| 0 <= k < front.len() && front[k] == ',';
        assert(digits[k] == ',');
    }
    if back.contains(',') {
        let k = choose|k: int| 0 <= k < back.len() && back[k] == ',';
        assert(digits[k + n] == ',');
    }
}

/// The commas stand before every third digit from the end.
proof fn lemma_comma_places(digits: Seq<char>)
    requires
        !digits.contains(','),
    ensures
        forall|i: int|
            0 <= i < grouped(digits).len() ==> (#[trigger] grouped(digits)[i] == ',' <==> (grouped(
                digits,
            ).len() - i) % 4 == 0),
    decreases digits.len(),
{
    let text = grouped(digits);
    if digits.len() <= 3 {
        assert forall|i: int| 0 <= i < text.len() implies (#[trigger] text[i] == ',' <==> (
        text.len() - i) % 4 == 0) by {
            assert(digits.contains(digits[i]));
        }
    } else {
        let n = digits.len() - 3;
        let front = digits.take(n);
        let back = digits.skip(n);
        let comma = ","@;
        reveal_strlit(",");
        lemma_no_commas(digits, n);
        lemma_comma_places(front);
        let start = grouped(front);
        assert(text == start + comma + back);
        assert forall|i: int| 0 <= i < text.len() implies (#[trigger] text[i] == ',' <==> (
        text.len() - i) % 4 == 0) by {
            let m = start.len() as int;
            if i < m {
                assert(text[i] == start[i]);
            } else if i > m {
                assert(text[i] == back[i - m - 1]);
                assert(back.contains(back[i - m - 1]));
            }
        }
    }
}

proof fn lemma_filter_all(s: Seq<char>)
    requires
        !s.contains(','),
    ensures
        s.filter(|c: char| c != ',') == s,
    decreases s.len(),
{
    reveal(Seq::filter);
    let plain = |c: char| c != ',';
    if s.len() > 0 {
        let rest = s.drop_last();
        assert(!rest.contains(',')) by {
            if rest.contains(',') {
                let k = choose|k: int| 0 <= k < rest.len() && rest[k] == ',';
                assert(s[k] == ',');
            }
        }
        lemma_filter_all(rest);
        assert(s.contains(s.last())) by {
            assert(s[s.len() - 1] == s.last());
        }
        assert(rest.push(s.last()) =~= s);
    }
    assert(s.filter(plain) =~= s);
}

/// A rounded ratio is, but for the roundings, half a unit away from it at most.
pub proof fn lemma_ratio_close(n: nat, d: nat, scale: nat)
    requires
        0 < n < 0x20_0000_0000_0000,
        0 < d < 0x20_0000_0000_0000,
        0 < scale <= 10,
    ensures
        2 * (float_ratio(n, d, scale) * d) <= 2 * (n * scale) + d + 2 * scale,
        2 * (n * scale) <= 2 * (float_ratio(n, d, scale) * d) + d + 2 * scale,
{
    let one = pow2(1074) as int;
    let big = pow2(53) as int;
    lemma_from_int_exact(n);
    lemma_from_int_exact(d);
    lemma_ratio_parts(n, d);
    let q = quotient(from_int(n), from_int(d)) as int;
    let r = float_ratio(n, d, scale) as int;
    lemma_rounded_half((q * scale) as nat, pow2(1074));
    let ni = n as int;
    let di = d as int;
    let si = scale as int;
    let e1 = q * di - ni * one;
    let e2 = r * one - q * si;
    assert((r * di - ni * si) * one == di * e2 + si * e1) by (nonlinear_arith)
        requires
            e1 == q * di - ni * one,
            e2 == r * one - q * si,
    ;
    assert(-one <= e1 <= one) by (nonlinear_arith)
        requires
            -(ni * one) <= e1 * big <= ni * one,
            0 < ni < big,
            one > 0,
            big >= 2,
    {
        assert(ni * one <= big * one);
        if e1 > one {
            assert(e1 * big > one * big);
        }
        if e1 < -one {
            assert(e1 * big < -one * big);
        }
    }
    assert(-(di * one) <= 2 * (di * e2) <= di * one) by (nonlinear_arith)
        requires
            -one <= 2 * e2 <= one,
            di > 0,
    ;
    assert(-(si * one) <= si * e1 <= si * one) by (nonlinear_arith)
        requires
            -one <= e1 <= one,
            si > 0,
    ;
    let x = r * di - ni * si;
    assert((2 * x) * one <= (di + 2 * si) * one) by (nonlinear_arith)
        requires
            x * one == di * e2 + si * e1,
            2 * (di * e2) <= di * one,
            si * e1 <= si * one,
    ;
    assert((-(di + 2 * si)) * one <= (2 * x) * one) by (nonlinear_arith)
        requires
            x * one == di * e2 + si * e1,
            -(di * one) <= 2 * (di * e2),
            -(si * one) <= si * e1,
    ;
    lemma_cancel(2 * x, di + 2 * si, one);
    lemma_cancel(-(di + 2 * si), 2 * x, one);
}

/// A duration or a size is written in the largest of its units of which it has at least
/// one: as it is in the smallest, as a whole number that is at most half a unit away in
/// those between, and with one decimal in the largest.
pub proof fn lemma_metric_text(
    x: nat,
    giga: Seq<char>,
    mega: Seq<char>,
    kilo: Seq<char>,
    unit: Seq<char>,
)
    requires
        x < 0x20_0000_0000_0000,
    ensures
        ({
            let text = metric_text(x as int, giga, mega, kilo, unit);
            &&& x < 1_000 ==> text == decimal(x) + unit
            &&& 1_000 <= x < 1_000_000 ==> exists|n: nat| #[trigger]
                decimal(n) + kilo == text && 2 * (n * 1_000) <= 2 * x + 1_002 && 2 * x <= 2 * (n
                    * 1_000) + 1_002
            &&& 1_000_000 <= x < 1_000_000_000 ==> exists|n: nat| #[trigger]
                decimal(n) + mega == text && 2 * (n * 1_000_000) <= 2 * x + 1_000_002 && 2 * x <= 2
                    * (n * 1_000_000) + 1_000_002
            &&& 1_000_000_000 <= x ==> exists|t: nat|
                #![trigger decimal(t / 10)]
                text == decimal(t / 10) + "."@ + seq![digit(t % 10)] + giga && 2 * (t
                    * 1_000_000_000) <= 20 * x + 1_000_000_020 && 20 * x <= 2 * (t * 1_000_000_000)
                    + 1_000_000_020
        }),
{
    reveal_strlit("");
    let text = metric_text(x as int, giga, mega, kilo, unit);
    if x < 1_000 {
        assert(text =~= decimal(x) + unit);
    } else if x < 1_000_000 {
        lemma_ratio_close(x, 1_000, 1);
        let n = float_ratio(x, 1_000, 1);
        assert(text =~= decimal(n) + kilo);
    } else if x < 1_000_000_000 {
        lemma_ratio_close(x, 1_000_000, 1);
        let n = float_ratio(x, 1_000_000, 1);
        assert(text =~= decimal(n) + mega);
    } else {
        lemma_ratio_close(x, 1_000_000_000, 10);
        let t = float_ratio(x, 1_000_000_000, 10);
        assert(text =~= decimal(t / 10) + "."@ + seq![digit(t % 10)] + giga);
    }
}

/// The units: seconds, milliseconds, microseconds and nanoseconds for time; gigabytes,
/// megabytes, kilobytes and bytes for sizes; counts have none, and groups of digits.
pub proof fn lemma_units(x: nat)
    ensures
        x < 1_000 ==> value_text(x as int, ValueUnit::Nanoseconds) == decimal(x) + "ns"@,
        x < 1_000 ==> value_text(x as int, ValueUnit::Bytes) == decimal(x) + "B"@,
        value_text(x as int, ValueUnit::Nanoseconds) == metric_text(
            x as int,
            "s"@,
            "ms"@,
            "us"@,
            "ns"@,
        ),
        value_text(x as int, ValueUnit::Bytes) == metric_text(
            x as int,
            "GB"@,
            "MB"@,
            "KB"@,
            "B"@,
        ),
        value_text(x as int, ValueUnit::Count) == grouped(decimal(x)),
{
    reveal_strlit("");
    if x < 1_000 {
        lemma_metric_text(x, "s"@, "ms"@, "us"@, "ns"@);
        lemma_metric_text(x, "GB"@, "MB"@, "KB"@, "B"@);
    }
    assert(value_text(x as int, ValueUnit::Count) =~= grouped(decimal(x)));
}

/// The text of a percentage stands in brackets: its sign, and its tenths rounded to the
/// nearest. There is none without a total.
pub proof fn lemma_percent_text(value: int, total: int)
    ensures
        total == 0 ==> percent_text(value, total).len() == 0,
        total != 0 ==> exists|t: nat|
            #![trigger decimal(t / 10)]
            {
                let one = pow2(1074) as int;
                let share = percent(value, total);
                let text = decimal(t / 10) + "."@ + seq![digit(t % 10)];
                &&& share > 0 ==> percent_text(value, total) == "("@ + text + "%)"@
                &&& share < 0 ==> percent_text(value, total) == "("@ + ("-"@ + text) + "%)"@
                &&& share >= 0 ==> -one <= 2 * (t * one - 10 * share) <= one
                &&& share < 0 ==> -one <= 2 * (t * one + 10 * share) <= one
            },
{
    reveal_strlit("");
    if total != 0 {
        let size = percent_magnitude(value, total);
        let t = scaled_to_int(size, 10);
        let text = decimal(t / 10) + "."@ + seq![digit(t % 10)];
        vstd::arithmetic::power2::lemma_pow2_pos(1074);
        lemma_rounded_half(size * 10, pow2(1074));
        assert(percent_text(value, total) =~= "("@ + (sign_text((value < 0) != (total < 0)) + text)
            + "%)"@);
        assert(""@ + text =~= text);
        if percent(value, total) > 0 {
            assert(percent_text(value, total) =~= "("@ + text + "%)"@);
        }
        assert(decimal(t / 10).len() >= 0);
    }
}

} // verus!
