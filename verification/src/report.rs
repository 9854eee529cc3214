//! What is told about a source: a verdict, a data class, and sizes as text.

use crate::stats::{
    lemma_occurrences_counted, lemma_printable_counted, occurrences, printable_sum, Histogram,
};
use vstd::arithmetic::div_mod::{
    lemma_fundamental_div_mod, lemma_fundamental_div_mod_converse, lemma_mod_bound,
};
use vstd::arithmetic::power2::{
    lemma2_to64, lemma2_to64_rest, lemma_pow2_pos, lemma_pow2_unfold, pow2,
};
use vstd::prelude::*;

verus! {

/// Overall compressibility verdict.
#[derive(Debug, Clone, Copy, PartialEq, Eq, Structural)]
pub enum Verdict {
    /// Ratio at least 3.
    High,
    /// Ratio 1.75 to 3.
    Good,
    /// Ratio 1.15 to 1.75.
    Moderate,
    /// Ratio below 1.15.
    Low,
}

/// The bits of 3.0 as a double-precision number.
pub const RATIO_3: u64 = 0x4008_0000_0000_0000;

/// The bits of 1.75 as a double-precision number.
pub const RATIO_1_75: u64 = 0x3FFC_0000_0000_0000;

/// The bits of 1.15 as a double-precision number.
pub const RATIO_1_15: u64 = 0x3FF2_6666_6666_6666;

/// The bits of positive infinity: what lies above is no number, or negative.
pub const INFINITE: u64 = 0x7FF0_0000_0000_0000;

impl Verdict {
    /// The verdict on a ratio, given by the bits of a double-precision
    /// number. Those of numbers that are not negative are ordered like the
    /// numbers; a negative ratio, or one that is no number, is low.
    pub fn from_ratio(bits: u64) -> (res: Self)
        ensures
            res == if bits > INFINITE {
                Verdict::Low
            } else if bits >= RATIO_3 {
                Verdict::High
            } else if bits >= RATIO_1_75 {
                Verdict::Good
            } else if bits >= RATIO_1_15 {
                Verdict::Moderate
            } else {
                Verdict::Low
            },
    {
        if bits > INFINITE {
            Verdict::Low
        } else if bits >= RATIO_3 {
            Verdict::High
        } else if bits >= RATIO_1_75 {
            Verdict::Good
        } else if bits >= RATIO_1_15 {
            Verdict::Moderate
        } else {
            Verdict::Low
        }
    }

    /// The verdict in words.
    pub fn label(self) -> (res: &'static str)
        ensures
            res@ == match self {
                Verdict::High => "💡 High Compressibility"@,
                Verdict::Good => "✅ Good Compressibility"@,
                Verdict::Moderate => "➖ Moderate Compressibility"@,
                Verdict::Low => "⚠️  Low Compressibility — likely already compressed"@,
            },
    {
        match self {
            Verdict::High => "💡 High Compressibility",
            Verdict::Good => "✅ Good Compressibility",
            Verdict::Moderate => "➖ Moderate Compressibility",
            Verdict::Low => "⚠️  Low Compressibility — likely already compressed",
        }
    }
}

/// Whether `i` is the first of the highest.
pub open spec fn first_highest(heights: Seq<i64>, i: int) -> bool {
    &&& 0 <= i < heights.len()
    &&& forall|k: int| 0 <= k < i ==> #[trigger] heights[k] < heights[i]
    &&& forall|k: int| i <= k < heights.len() ==> #[trigger] heights[k] <= heights[i]
}

/// The "best value" of some levels: the knee of the cost/reduction curve, the
/// first of the points that are highest above the straight line between the
/// cheapest and the most expensive level. `heights` orders the points by how
/// far above the line they are. Of two levels, the second is the better value
/// if what it gains is `worth_it`.
pub fn best_value(heights: &[i64], worth_it: bool) -> (res: Option<usize>)
    ensures
        match res {
            None => heights@.len() == 0,
            Some(i) => if heights@.len() == 2 {
                i == if worth_it {
                    1int
                } else {
                    0int
                }
            } else {
                first_highest(heights@, i as int)
            },
        },
{
    let n: usize = heights.len();
    if n == 0 {
        return None;
    }
    if n == 2 {
        return Some(
            if worth_it {
                1
            } else {
                0
            },
        );
    }
    let mut best: usize = 0;
    let mut i: usize = 1;
    while i < n
        invariant
            1 <= i <= n,
            n == heights@.len(),
            first_highest(heights@.take(i as int), best as int),
        decreases n - i,
    {
        let ghost now = heights@.take(i as int);
        let ghost next = heights@.take(i + 1);
        proof {
            assert(now[best as int] == heights@[best as int]);
            assert(next =~= now.push(heights@[i as int]));
        }
        if heights[i] > heights[best] {
            best = i;
        }
        i = i + 1;
    }
    proof {
        assert(heights@.take(n as int) =~= heights@);
    }
    Some(best)
}

/// Where the entropy of some bytes lies: at least 7.7 bits per byte, at most
/// 2, or between.
#[derive(Debug, Clone, Copy, PartialEq, Eq, Structural)]
pub enum EntropyBand {
    High,
    Medium,
    Low,
}

/// Whether more than one in twenty bytes is NUL.
pub open spec fn many_nuls(hist: Histogram) -> bool {
    20 * hist.counts@[0] > hist.total
}

/// Whether more than nine in ten bytes are printable ASCII or common
/// whitespace.
pub open spec fn mostly_printable(hist: Histogram) -> bool {
    10 * printable_sum(hist.counts@, 256) > 9 * hist.total
}

/// Data classification from the byte histogram and its entropy.
pub fn classify(hist: &Histogram, band: EntropyBand) -> (res: &'static str)
    requires
        printable_sum(hist.counts@, 256) <= u64::MAX,
    ensures
        res@ == match band {
            EntropyBand::High => "High-entropy data (encrypted or already compressed)"@,
            EntropyBand::Low => "Highly repetitive data"@,
            EntropyBand::Medium => if many_nuls(*hist) {
                "Binary data"@
            } else if mostly_printable(*hist) {
                "Structured text/data"@
            } else {
                "Mixed binary data"@
            },
        },
{
    match band {
        EntropyBand::High => "High-entropy data (encrypted or already compressed)",
        EntropyBand::Low => "Highly repetitive data",
        EntropyBand::Medium => {
            if 20 * hist.counts[0] as u128 > hist.total as u128 {
                "Binary data"
            } else if 10 * hist.printable_count() as u128 > 9 * hist.total as u128 {
                "Structured text/data"
            } else {
                "Mixed binary data"
            }
        },
    }
}

/// The digit `d`, of 0 to 9.
pub open spec fn digit(d: nat) -> char {
    if d == 0 {
        '0'
    } else if d == 1 {
        '1'
    } else if d == 2 {
        '2'
    } else if d == 3 {
        '3'
    } else if d == 4 {
        '4'
    } else if d == 5 {
        '5'
    } else if d == 6 {
        '6'
    } else if d == 7 {
        '7'
    } else if d == 8 {
        '8'
    } else {
        '9'
    }
}

/// A number in decimal.
pub open spec fn decimal(n: nat) -> Seq<char>
    decreases n,
{
    if n < 10 {
        seq![digit(n)]
    } else {
        decimal(n / 10).push(digit(n % 10))
    }
}

/// `n / 2^e`, rounded to the nearest whole number, a half to the even one.
pub open spec fn round_shift(n: nat, e: nat) -> nat {
    let unit = pow2(e);
    let q = n / unit;
    let r = n % unit;
    if 2 * r > unit || (2 * r == unit && q % 2 == 1) {
        q + 1
    } else {
        q
    }
}

/// How many bits `n` has above the 53 that a double-precision number keeps.
pub open spec fn lost_bits(n: nat) -> nat
    decreases n,
{
    if n < 0x20_0000_0000_0000 {
        0
    } else {
        lost_bits(n / 2) + 1
    }
}

/// The double-precision number that is nearest to `n`.
pub open spec fn nearest_double(n: nat) -> nat {
    round_shift(n, lost_bits(n)) * pow2(lost_bits(n))
}

/// How often a size is divided by 1024: while it is at least that, up to
/// petabytes.
pub open spec fn unit_of(n: nat) -> nat {
    if n < 0x10_0000 {
        1
    } else if n < 0x4000_0000 {
        2
    } else if n < 0x100_0000_0000 {
        3
    } else if n < 0x4_0000_0000_0000 {
        4
    } else {
        5
    }
}

/// The name of a unit.
pub open spec fn unit_name(u: nat) -> Seq<char> {
    if u == 1 {
        "KB"@
    } else if u == 2 {
        "MB"@
    } else if u == 3 {
        "GB"@
    } else if u == 4 {
        "TB"@
    } else {
        "PB"@
    }
}

/// A size as text, 1024-based: whole bytes, or two decimals of the largest
/// unit that it fills.
pub open spec fn size_text(bytes: nat) -> Seq<char> {
    let n = nearest_double(bytes);
    let u = unit_of(n);
    let hundredths = round_shift(100 * n, 10 * u);
    if bytes < 1024 {
        decimal(bytes) + " B"@
    } else {
        decimal(hundredths / 100) + "."@ + seq![digit(hundredths / 10 % 10), digit(hundredths % 10)]
            + " "@ + unit_name(u)
    }
}

/// Append one digit.
fn push_digit(text: &mut String, d: u64)
    requires
        d < 10,
    ensures
        final(text)@ == old(text)@.push(digit(d as nat)),
{
    proof {
        reveal_strlit("0");
        reveal_strlit("1");
        reveal_strlit("2");
        reveal_strlit("3");
        reveal_strlit("4");
        reveal_strlit("5");
        reveal_strlit("6");
        reveal_strlit("7");
        reveal_strlit("8");
        reveal_strlit("9");
    }
    let one: &str = if d == 0 {
        "0"
    } else if d == 1 {
        "1"
    } else if d == 2 {
        "2"
    } else if d == 3 {
        "3"
    } else if d == 4 {
        "4"
    } else if d == 5 {
        "5"
    } else if d == 6 {
        "6"
    } else if d == 7 {
        "7"
    } else if d == 8 {
        "8"
    } else {
        "9"
    };
    text.append(one);
    assert(text@ =~= old(text)@.push(digit(d as nat)));
}

/// Append a number in decimal.
fn push_decimal(text: &mut String, n: u64)
    ensures
        final(text)@ == old(text)@ + decimal(n as nat),
    decreases n,
{
    if n >= 10 {
        push_decimal(text, n / 10);
    }
    push_digit(text, n % 10);
    assert(text@ =~= old(text)@ + decimal(n as nat));
}

/// `n / unit`, rounded to the nearest whole number, a half to the even one;
/// `unit` is `2^e`.
fn round_div(n: u128, unit: u128, Ghost(e): Ghost<nat>) -> (res: u128)
    requires
        unit == pow2(e),
        1 <= unit <= 0x4_0000_0000_0000,
    ensures
        res == round_shift(n as nat, e),
        res <= n / unit + 1,
{
    let q: u128 = n / unit;
    let r: u128 = n % unit;
    if 2 * r > unit || (2 * r == unit && q % 2 == 1) {
        proof {
            if q == u128::MAX {
                lemma_fundamental_div_mod(n as int, unit as int);
                assert(unit * q >= q) by (nonlinear_arith)
                    requires
                        unit >= 1,
                        q >= 0,
                ;
            }
        }
        q + 1
    } else {
        q
    }
}

/// The double-precision number that is nearest to `bytes`.
fn to_double(bytes: u64) -> (res: u128)
    ensures
        res == nearest_double(bytes as nat),
        res <= 0x2_0000_0000_0000_0000,
        bytes < 0x20_0000_0000_0000 ==> res == bytes,
        bytes >= 1024 ==> res >= 1024,
{
    let mut m: u64 = bytes;
    let mut unit: u64 = 1;
    let ghost mut e: nat = 0;
    proof {
        lemma2_to64();
    }
    while m >= 0x20_0000_0000_0000
        invariant
            lost_bits(bytes as nat) == e + lost_bits(m as nat),
            unit == pow2(e),
            1 <= unit <= 0x1000,
            m * unit <= bytes,
            bytes < (m + 1) * unit,
            e == 0 ==> m == bytes,
            e > 0 ==> m >= 0x10_0000_0000_0000,
        decreases m,
    {
        proof {
            assert(unit < 0x800) by (nonlinear_arith)
                requires
                    m >= 0x20_0000_0000_0000,
                    m * unit <= bytes,
                    bytes <= 0xffff_ffff_ffff_ffff,
                    unit >= 1,
            ;
            lemma_pow2_unfold(e + 1);
            assert((m / 2) * (2 * unit) <= m * unit) by (nonlinear_arith)
                requires
                    unit >= 1,
                    m >= 0,
            ;
            assert((m + 1) * unit <= (m / 2 + 1) * (2 * unit)) by (nonlinear_arith)
                requires
                    unit >= 1,
                    m >= 0,
            ;
            e = e + 1;
        }
        m = m / 2;
        unit = unit * 2;
    }
    proof {
        assert((m + 1) * unit == m * unit + unit) by (nonlinear_arith);
        lemma_fundamental_div_mod_converse(
            bytes as int,
            unit as int,
            m as int,
            bytes - m * unit,
        );
    }
    let rounded: u128 = round_div(bytes as u128, unit as u128, Ghost(e));
    proof {
        assert(rounded * unit <= 0x20_0000_0000_0000 * 0x1000) by (nonlinear_arith)
            requires
                rounded <= 0x20_0000_0000_0000,
                unit <= 0x1000,
        ;
        assert(rounded * unit >= rounded) by (nonlinear_arith)
            requires
                unit >= 1,
                rounded >= 0,
        ;
    }
    rounded * unit as u128
}

/// A size as text: 12345678 gives "11.77 MB" (1024-based, two decimals).
pub fn human_size(bytes: u64) -> (res: String)
    ensures
        res@ == size_text(bytes as nat),
{
    let mut text: String = String::new();
    if bytes < 1024 {
        push_decimal(&mut text, bytes);
        text.append(" B");
        assert(text@ =~= decimal(bytes as nat) + " B"@);
        return text;
    }
    let n: u128 = to_double(bytes);
    let ghost u = unit_of(n as nat);
    let (unit, name): (u128, &str) = if n < 0x10_0000 {
        (0x400, "KB")
    } else if n < 0x4000_0000 {
        (0x10_0000, "MB")
    } else if n < 0x100_0000_0000 {
        (0x4000_0000, "GB")
    } else if n < 0x4_0000_0000_0000 {
        (0x100_0000_0000, "TB")
    } else {
        (0x4_0000_0000_0000, "PB")
    };
    proof {
        lemma2_to64();
        lemma2_to64_rest();
    }
    let hundredths: u128 = round_div(100 * n, unit, Ghost(10 * u));
    let h: u64 = hundredths as u64;
    push_decimal(&mut text, h / 100);
    text.append(".");
    push_digit(&mut text, h / 10 % 10);
    push_digit(&mut text, h % 10);
    text.append(" ");
    text.append(name);
    proof {
        let d = decimal((h / 100) as nat);
        let pair = seq![digit((h / 10 % 10) as nat), digit((h % 10) as nat)];
        assert((d + "."@).push(pair[0]).push(pair[1]) =~= d + "."@ + pair);
        assert(text@ =~= d + "."@ + pair + " "@ + unit_name(u));
    }
    text
}

/// What a budget's number is counted in.
#[derive(Debug, Clone, Copy, PartialEq, Eq, Structural)]
pub enum Scale {
    /// A percentage of the input.
    Percent,
    /// That many bytes.
    Bytes(u64),
}

/// Whether a byte is an ASCII letter.
pub open spec fn is_letter(b: u8) -> bool {
    65 <= b <= 90 || 97 <= b <= 122
}

/// Whether `b` is the ASCII letter `upper`, in either case.
pub open spec fn is_the_letter(b: u8, upper: u8) -> bool {
    b == upper || b == upper + 32
}

/// Where the first letter of some text stands, its length if it has none.
pub open spec fn first_letter(text: Seq<u8>) -> nat
    decreases text.len(),
{
    if text.len() == 0 {
        0
    } else if is_letter(text[0]) {
        0
    } else {
        1 + first_letter(text.skip(1))
    }
}

/// The bytes that a unit stands for: K, M or G, with or without a B.
pub open spec fn unit_bytes(unit: Seq<u8>) -> Option<u64> {
    if unit.len() == 1 || (unit.len() == 2 && is_the_letter(unit[1], 66)) {
        if is_the_letter(unit[0], 75) {
            Some(0x400)
        } else if is_the_letter(unit[0], 77) {
            Some(0x10_0000)
        } else if is_the_letter(unit[0], 71) {
            Some(0x4000_0000)
        } else {
            None
        }
    } else {
        None
    }
}

/// How a budget is read: how much of the text is its number, and what that is
/// counted in. None if the unit is not known.
pub open spec fn budget_scale(text: Seq<u8>) -> Option<(nat, Scale)> {
    let i = first_letter(text);
    if text.len() > 0 && text.last() == 37 {
        Some(((text.len() - 1) as nat, Scale::Percent))
    } else if i == text.len() {
        Some((text.len(), Scale::Bytes(1)))
    } else {
        match unit_bytes(text.skip(i as int)) {
            Some(bytes) => Some((i, Scale::Bytes(bytes))),
            None => None,
        }
    }
}

proof fn lemma_first_letter(text: Seq<u8>, i: nat)
    requires
        i <= text.len(),
        forall|k: int| 0 <= k < i ==> !is_letter(#[trigger] text[k]),
        i < text.len() ==> is_letter(text[i as int]),
    ensures
        first_letter(text) == i,
    decreases i,
{
    if i > 0 {
        assert(!is_letter(text[0]));
        let rest = text.skip(1);
        assert forall|k: int| 0 <= k < i - 1 implies !is_letter(#[trigger] rest[k]) by {
            assert(!is_letter(text[k + 1]));
        }
        lemma_first_letter(rest, (i - 1) as nat);
    }
}

/// Read a budget such as `64MB`, `500K`, `1024` or `0.1%`: how many of its
/// bytes are the number, and what that is counted in. None if the unit is not
/// known.
pub fn parse_budget(text: &[u8]) -> (res: Option<(usize, Scale)>)
    ensures
        match res {
            Some((end, scale)) => budget_scale(text@) == Some((end as nat, scale)) && end
                <= text@.len(),
            None => budget_scale(text@) is None,
        },
{
    let n: usize = text.len();
    if n > 0 && text[n - 1] == 37 {
        return Some((n - 1, Scale::Percent));
    }
    let mut i: usize = 0;
    while i < n && !((65 <= text[i] && text[i] <= 90) || (97 <= text[i] && text[i] <= 122))
        invariant
            i <= n,
            n == text@.len(),
            forall|k: int| 0 <= k < i ==> !is_letter(#[trigger] text@[k]),
        decreases n - i,
    {
        i = i + 1;
    }
    proof {
        lemma_first_letter(text@, i as nat);
    }
    if i == n {
        return Some((n, Scale::Bytes(1)));
    }
    let ghost unit = text@.skip(i as int);
    let known: bool = n - i == 1 || (n - i == 2 && (text[i + 1] == 66 || text[i + 1] == 98));
    let b: u8 = text[i];
    proof {
        assert(unit[0] == b);
        assert(unit.len() == n - i);
        assert(n - i == 2 ==> unit[1] == text@[i + 1]);
    }
    if known && (b == 75 || b == 107) {
        Some((i, Scale::Bytes(0x400)))
    } else if known && (b == 77 || b == 109) {
        Some((i, Scale::Bytes(0x10_0000)))
    } else if known && (b == 71 || b == 103) {
        Some((i, Scale::Bytes(0x4000_0000)))
    } else {
        None
    }
}

/// The number that some decimal digits stand for.
pub open spec fn number_in(text: Seq<char>) -> nat
    decreases text.len(),
{
    if text.len() == 0 {
        0
    } else {
        (10 * number_in(text.drop_last()) + (text.last() as int - 48)) as nat
    }
}

/// A number in decimal reads back as the number: it is all digits, and begins
/// with a zero only if it is one.
pub proof fn lemma_decimal_reads_back(n: nat)
    ensures
        number_in(decimal(n)) == n,
        decimal(n).len() >= 1,
        forall|i: int| 0 <= i < decimal(n).len() ==> 48 <= (#[trigger] decimal(n)[i]) as int <= 57,
        decimal(n)[0] == '0' ==> n == 0,
    decreases n,
{
    if n < 10 {
        assert(number_in(decimal(n).drop_last()) == 0);
    } else {
        lemma_decimal_reads_back(n / 10);
        assert(decimal(n).drop_last() =~= decimal(n / 10));
    }
}

/// Rounding goes to the nearest whole number, and from halfway to the even one.
pub proof fn lemma_rounds_to_nearest(n: nat, e: nat)
    ensures
        ({
            let q = round_shift(n, e) as int;
            let unit = pow2(e) as int;
            &&& 2 * n - unit <= 2 * (q * unit) <= 2 * n + unit
            &&& 2 * (q * unit) == 2 * n + unit || 2 * (q * unit) == 2 * n - unit ==> q % 2 == 0
        }),
{
    let unit = pow2(e) as int;
    let k = n as int / unit;
    let r = n as int % unit;
    let q = round_shift(n, e) as int;
    lemma_pow2_pos(e);
    lemma_fundamental_div_mod(n as int, unit);
    lemma_mod_bound(n as int, unit);
    assert(unit * k == k * unit) by (nonlinear_arith);
    assert((k + 1) * unit == k * unit + unit) by (nonlinear_arith);
    assert(q == k || q == k + 1);
}

/// Rounding to a double keeps 53 bits: as many are lost as a number has more.
pub proof fn lemma_lost_bits(n: nat)
    ensures
        n < 0x20_0000_0000_0000 * pow2(lost_bits(n)),
        lost_bits(n) > 0 ==> n >= 0x10_0000_0000_0000 * pow2(lost_bits(n)),
    decreases n,
{
    lemma2_to64();
    if n >= 0x20_0000_0000_0000 {
        lemma_lost_bits(n / 2);
        lemma_pow2_unfold(lost_bits(n));
        let p = pow2((lost_bits(n) - 1) as nat);
        assert(0x20_0000_0000_0000 * (2 * p) == 2 * (0x20_0000_0000_0000 * p)) by (nonlinear_arith);
        assert(0x10_0000_0000_0000 * (2 * p) == 2 * (0x10_0000_0000_0000 * p)) by (nonlinear_arith);
    }
}

/// The unit of a size is the largest that it fills, up to petabytes.
pub proof fn lemma_largest_unit(n: nat)
    requires
        n >= 1024,
    ensures
        1 <= unit_of(n) <= 5,
        pow2(10 * unit_of(n)) <= n,
        unit_of(n) < 5 ==> n < pow2(10 * unit_of(n) + 10),
{
    lemma2_to64();
    lemma2_to64_rest();
}

proof fn lemma_number_then_unit(number: Seq<u8>, unit: Seq<u8>)
    requires
        forall|k: int| 0 <= k < number.len() ==> !is_letter(#[trigger] number[k]),
        unit.len() > 0 ==> is_letter(unit[0]),
    ensures
        first_letter(number + unit) == number.len(),
        (number + unit).skip(number.len() as int) == unit,
{
    let text = number + unit;
    assert forall|k: int| 0 <= k < number.len() implies !is_letter(#[trigger] text[k]) by {
        assert(text[k] == number[k]);
    }
    if unit.len() > 0 {
        assert(text[number.len() as int] == unit[0]);
    }
    lemma_first_letter(text, number.len());
    assert(text.skip(number.len() as int) =~= unit);
}

/// How a budget is read: what ends in a percent sign is a share; a number alone
/// is in bytes; K, M and G, in either case and with or without a B, stand for
/// 2^10, 2^20 and 2^30 bytes; and a number with any other letter behind it is
/// no budget.
pub proof fn lemma_budget_units(number: Seq<u8>, letter: u8, b: u8)
    requires
        forall|k: int| 0 <= k < number.len() ==> !is_letter(#[trigger] number[k]),
        65 <= letter <= 90 || 97 <= letter <= 122,
        b == 66 || b == 98,
    ensures
        budget_scale(number.push(37)) == Some((number.len(), Scale::Percent)),
        number.len() == 0 || number.last() != 37 ==> budget_scale(number) == Some(
            (number.len(), Scale::Bytes(1)),
        ),
        ({
            let scale = if letter == 75 || letter == 107 {
                Some((number.len(), Scale::Bytes(1024)))
            } else if letter == 77 || letter == 109 {
                Some((number.len(), Scale::Bytes(1048576)))
            } else if letter == 71 || letter == 103 {
                Some((number.len(), Scale::Bytes(1073741824)))
            } else {
                None
            };
            &&& budget_scale(number + seq![letter]) == scale
            &&& budget_scale(number + seq![letter, b]) == scale
        }),
{
    assert(is_letter(letter));
    lemma_number_then_unit(number, Seq::empty());
    assert(number + Seq::<u8>::empty() =~= number);
    lemma_number_then_unit(number, seq![letter]);
    lemma_number_then_unit(number, seq![letter, b]);
    assert((number + seq![letter]).last() == letter);
    assert((number + seq![letter, b]).last() == b);
}

/// What is binary and what is text, told from the bytes: binary data has more
/// than one NUL in twenty bytes, text more than nine bytes in ten that are
/// printable.
pub proof fn lemma_class_thresholds(hist: Histogram, data: Seq<u8>)
    requires
        hist.of(data),
    ensures
        many_nuls(hist) <==> 20 * data.filter(|b: u8| b == 0).len() > data.len(),
        mostly_printable(hist) <==> 10 * data.filter(
            |b: u8| 0x20 <= b <= 0x7e || b == 9 || b == 10 || b == 12 || b == 13,
        ).len() > 9 * data.len(),
{
    lemma_occurrences_counted(data, 0);
    lemma_printable_counted(hist, data);
    assert(hist.counts@[0u8 as int] == occurrences(data, 0));
}

/// The nearest double is no further away than half of what the bits that are
/// lost are worth; a number of up to 53 bits is one.
pub proof fn lemma_nearest_double(n: nat)
    ensures
        2 * n - pow2(lost_bits(n)) <= 2 * nearest_double(n) <= 2 * n + pow2(lost_bits(n)),
        n < 0x20_0000_0000_0000 ==> nearest_double(n) == n,
{
    lemma_rounds_to_nearest(n, lost_bits(n));
    lemma2_to64();
}

/// A size as text: whole bytes below 1024; else two decimals of the largest unit
/// that it fills, off by no more than half of the last one.
pub proof fn lemma_size_text(bytes: nat) -> (hundredths: nat)
    requires
        bytes < 0x20_0000_0000_0000,
    ensures
        bytes < 1024 ==> size_text(bytes) == decimal(bytes) + " B"@,
        bytes >= 1024 ==> {
            let u = unit_of(bytes);
            &&& size_text(bytes) == decimal(hundredths / 100) + "."@ + seq![
                digit(hundredths / 10 % 10),
                digit(hundredths % 10),
            ] + " "@ + unit_name(u)
            &&& 200 * bytes - pow2(10 * u) <= 2 * (hundredths * pow2(10 * u)) <= 200 * bytes + pow2(
                10 * u,
            )
        },
{
    lemma_nearest_double(bytes);
    lemma_rounds_to_nearest(100 * bytes, 10 * unit_of(bytes));
    round_shift(100 * bytes, 10 * unit_of(bytes))
}

} // verus!
