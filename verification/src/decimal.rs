//! Decimal numbers in ASCII, as the wire messages carry them.

use vstd::prelude::*;

verus! {

/// Whether `b` is an ASCII digit.
pub open spec fn is_digit(b: u8) -> bool {
    0x30 <= b <= 0x39
}

/// Whether every byte of `s` is an ASCII digit.
pub open spec fn all_digits(s: Seq<u8>) -> bool {
    forall|i: int| 0 <= i < s.len() ==> is_digit(#[trigger] s[i])
}

/// The number that the digits `s` write, most significant digit first.
pub open spec fn digits_value(s: Seq<u8>) -> nat
    decreases s.len(),
{
    if s.len() == 0 {
        0
    } else {
        digits_value(s.drop_last()) * 10 + (s.last() - 0x30) as nat
    }
}

/// The digits of `n`, without leading zeros; `0` is written as one digit.
pub open spec fn decimal_digits(n: nat) -> Seq<u8>
    decreases n,
{
    if n < 10 {
        seq![(0x30 + n) as u8]
    } else {
        decimal_digits(n / 10).push((0x30 + n % 10) as u8)
    }
}

/// The number that `s` writes, if `s` is one or more digits and the number
/// is at most `limit`.
pub open spec fn parse_number(s: Seq<u8>, limit: nat) -> Option<nat> {
    if s.len() > 0 && all_digits(s) && digits_value(s) <= limit {
        Some(digits_value(s))
    } else {
        None
    }
}

/// Digit `i` of a fraction, counted from the decimal point; 0 where the
/// fraction has no such digit.
pub open spec fn fraction_digit(s: Seq<u8>, i: int) -> nat {
    if 0 <= i < s.len() {
        (s[i] - 0x30) as nat
    } else {
        0
    }
}

/// The first six digits of a fraction, in millionths. Digits after the
/// sixth are cut off.
pub open spec fn fraction_millionths(s: Seq<u8>) -> nat {
    fraction_digit(s, 0) * 100_000 + fraction_digit(s, 1) * 10_000 + fraction_digit(s, 2) * 1_000
        + fraction_digit(s, 3) * 100 + fraction_digit(s, 4) * 10 + fraction_digit(s, 5)
}

/// The six digits that write `f` millionths.
pub open spec fn six_digits(f: nat) -> Seq<u8> {
    seq![
        (0x30 + f / 100_000 % 10) as u8,
        (0x30 + f / 10_000 % 10) as u8,
        (0x30 + f / 1_000 % 10) as u8,
        (0x30 + f / 100 % 10) as u8,
        (0x30 + f / 10 % 10) as u8,
        (0x30 + f % 10) as u8,
    ]
}

/// Where the first byte equal to `b` stands in `s`, or the length of `s` if
/// there is none.
pub open spec fn first_index_of(s: Seq<u8>, b: u8) -> int
    decreases s.len(),
{
    if s.len() == 0 {
        0
    } else if s[0] == b {
        0
    } else {
        1 + first_index_of(s.skip(1), b)
    }
}

/// The number in millionths that the decimal `s` writes: one or more digits,
/// then optionally a point and any number of digits, of which the first six
/// count. `None` if `s` is not of that form or the number is over `limit`.
pub open spec fn parse_fixed(s: Seq<u8>, limit: nat) -> Option<nat> {
    let point = first_index_of(s, 0x2E);
    let whole = s.subrange(0, point);
    let fraction = if point < s.len() {
        s.subrange(point + 1, s.len() as int)
    } else {
        Seq::empty()
    };
    if whole.len() > 0 && all_digits(whole) && all_digits(fraction) && digits_value(whole)
        * 1_000_000 + fraction_millionths(fraction) <= limit {
        Some(digits_value(whole) * 1_000_000 + fraction_millionths(fraction))
    } else {
        None
    }
}

/// How many digits after the point write `f` millionths: as many as reach
/// the last digit that is not 0, and none for 0.
pub open spec fn fraction_len(f: nat) -> nat {
    if f % 10 != 0 {
        6
    } else if f % 100 != 0 {
        5
    } else if f % 1_000 != 0 {
        4
    } else if f % 10_000 != 0 {
        3
    } else if f % 100_000 != 0 {
        2
    } else if f % 1_000_000 != 0 {
        1
    } else {
        0
    }
}

/// The part of the decimal after the whole part: nothing for a whole
/// number, else a point and the digits up to the last that is not 0.
pub open spec fn fraction_text(f: nat) -> Seq<u8> {
    if fraction_len(f) == 0 {
        Seq::empty()
    } else {
        seq![0x2Eu8] + six_digits(f).subrange(0, fraction_len(f) as int)
    }
}

/// The shortest decimal that writes `n` millionths: the whole part, and for
/// a number that is not whole a point and the digits after it up to the
/// last that is not 0.
pub open spec fn format_fixed(n: nat) -> Seq<u8> {
    decimal_digits(n / 1_000_000) + fraction_text(n % 1_000_000)
}

/// The first index of `b` is within `s`, no earlier byte is `b`, and the
/// byte there is `b` unless the index is the length.
pub proof fn lemma_first_index_of(s: Seq<u8>, b: u8)
    ensures
        0 <= first_index_of(s, b) <= s.len(),
        forall|i: int| 0 <= i < first_index_of(s, b) ==> s[i] != b,
        first_index_of(s, b) < s.len() ==> s[first_index_of(s, b)] == b,
    decreases s.len(),
{
    if s.len() > 0 && s[0] != b {
        lemma_first_index_of(s.skip(1), b);
        let r = first_index_of(s.skip(1), b);
        assert forall|i: int| 0 <= i < 1 + r implies s[i] != b by {
            if i > 0 {
                assert(s.skip(1)[i - 1] == s[i]);
            }
        }
        if r < s.skip(1).len() {
            assert(s.skip(1)[r] == s[1 + r]);
        }
    }
}

/// An index at which `b` stands, with no `b` before it, is the first index.
pub proof fn lemma_first_index_is(s: Seq<u8>, b: u8, at: int)
    requires
        0 <= at <= s.len(),
        forall|i: int| 0 <= i < at ==> s[i] != b,
        at < s.len() ==> s[at] == b,
    ensures
        first_index_of(s, b) == at,
{
    lemma_first_index_of(s, b);
    let f = first_index_of(s, b);
    if f < at {
        assert(s[f] != b);
    }
}

/// The digits of a number write that number, and are digits.
pub proof fn lemma_decimal_digits(n: nat)
    ensures
        decimal_digits(n).len() > 0,
        all_digits(decimal_digits(n)),
        digits_value(decimal_digits(n)) == n,
    decreases n,
{
    if n < 10 {
        let s = decimal_digits(n);
        assert(s.drop_last() =~= Seq::<u8>::empty());
        assert(digits_value(s.drop_last()) == 0);
    } else {
        lemma_decimal_digits(n / 10);
        let s = decimal_digits(n);
        assert(s.drop_last() =~= decimal_digits(n / 10));
    }
}

/// Six digits write the millionths they were made from.
pub proof fn lemma_six_digits(f: nat)
    requires
        f < 1_000_000,
    ensures
        six_digits(f).len() == 6,
        all_digits(six_digits(f)),
        fraction_millionths(six_digits(f)) == f,
{
    let s = six_digits(f);
    let d0 = f / 100_000 % 10;
    let d1 = f / 10_000 % 10;
    let d2 = f / 1_000 % 10;
    let d3 = f / 100 % 10;
    let d4 = f / 10 % 10;
    let d5 = f % 10;
    assert(f / 10 == (f / 100) * 10 + d4);
    assert(f / 100 == (f / 1_000) * 10 + d3);
    assert(f / 1_000 == (f / 10_000) * 10 + d2);
    assert(f / 10_000 == (f / 100_000) * 10 + d1);
    assert(f / 100_000 == d0);
    assert(f == (f / 10) * 10 + d5);
    assert(fraction_digit(s, 0) == d0);
    assert(fraction_digit(s, 1) == d1);
    assert(fraction_digit(s, 2) == d2);
    assert(fraction_digit(s, 3) == d3);
    assert(fraction_digit(s, 4) == d4);
    assert(fraction_digit(s, 5) == d5);
}

/// Whether `b` is an ASCII digit.
pub fn digit(b: u8) -> (r: bool)
    ensures
        r == is_digit(b),
{
    0x30 <= b && b <= 0x39
}

/// Reads the digits `s[from..to]` as a number no larger than `limit`.
pub fn read_number(s: &[u8], from: usize, to: usize, limit: u64) -> (r: Option<u64>)
    requires
        from <= to <= s@.len(),
    ensures
        r matches Some(v) ==> parse_number(s@.subrange(from as int, to as int), limit as nat)
            == Some(v as nat),
        r is None ==> parse_number(s@.subrange(from as int, to as int), limit as nat) is None,
{
    let ghost text = s@.subrange(from as int, to as int);
    if from == to {
        return None;
    }
    let mut value: u64 = 0;
    let mut i: usize = from;
    while i < to
        invariant
            from <= i <= to <= s@.len(),
            text == s@.subrange(from as int, to as int),
            all_digits(text.subrange(0, i - from)),
            value == digits_value(text.subrange(0, i - from)),
            value <= limit,
        decreases to - i,
    {
        let b = s[i];
        let ghost prefix = text.subrange(0, i - from);
        let ghost longer = text.subrange(0, i + 1 - from);
        proof {
            assert(longer.drop_last() =~= prefix);
            assert(longer.last() == b);
        }
        if !digit(b) {
            assert(!is_digit(text[i - from]));
            return None;
        }
        let d: u64 = (b - 0x30) as u64;
        if d > limit || value > (limit - d) / 10 {
            proof {
                assert(digits_value(longer) > limit);
                if all_digits(text) {
                    lemma_digits_value_grows(text, i + 1 - from);
                }
            }
            return None;
        }
        value = value * 10 + d;
        i = i + 1;
        proof {
            assert forall|j: int| 0 <= j < longer.len() implies is_digit(#[trigger] longer[j]) by {
                if j < prefix.len() {
                    assert(prefix[j] == longer[j]);
                }
            }
        }
    }
    assert(text.subrange(0, i - from) =~= text);
    Some(value)
}

/// A number written with more digits is no smaller than the number its
/// leading digits write.
pub proof fn lemma_digits_value_grows(s: Seq<u8>, n: int)
    requires
        0 <= n <= s.len(),
        all_digits(s),
    ensures
        digits_value(s.subrange(0, n)) <= digits_value(s),
    decreases s.len() - n,
{
    if n < s.len() {
        lemma_digits_value_grows(s, n + 1);
        let longer = s.subrange(0, n + 1);
        assert(longer.drop_last() =~= s.subrange(0, n));
        assert(is_digit(s[n]));
        assert(longer.last() == s[n]);
    } else {
        assert(s.subrange(0, n) =~= s);
    }
}

/// Writes `n` in decimal.
pub fn write_number(n: u64) -> (out: Vec<u8>)
    ensures
        out@ == decimal_digits(n as nat),
    decreases n,
{
    if n < 10 {
        let mut out: Vec<u8> = Vec::new();
        out.push(0x30 + n as u8);
        assert(out@ =~= decimal_digits(n as nat));
        out
    } else {
        let mut out = write_number(n / 10);
        out.push(0x30 + (n % 10) as u8);
        out
    }
}

/// Digit `k` of the fraction that starts at `start`, or 0 past its end.
fn fraction_digit_at(s: &[u8], start: usize, k: usize) -> (d: u64)
    requires
        start <= s@.len(),
        all_digits(s@.subrange(start as int, s@.len() as int)),
    ensures
        d == fraction_digit(s@.subrange(start as int, s@.len() as int), k as int),
        d <= 9,
{
    if k < s.len() - start {
        assert(is_digit(s@.subrange(start as int, s@.len() as int)[k as int]));
        (s[start + k] - 0x30) as u64
    } else {
        0
    }
}

/// Reads the decimal `s` as a number of millionths no larger than `limit`.
#[verifier::loop_isolation(false)]
pub fn read_fixed(s: &[u8], limit: u64) -> (r: Option<u64>)
    ensures
        r matches Some(v) ==> parse_fixed(s@, limit as nat) == Some(v as nat),
        r is None ==> parse_fixed(s@, limit as nat) is None,
{
    let mut point: usize = 0;
    while point < s.len() && s[point] != 0x2E
        invariant
            point <= s@.len(),
            forall|i: int| 0 <= i < point ==> s@[i] != 0x2E,
        decreases s@.len() - point,
    {
        point = point + 1;
    }
    proof {
        lemma_first_index_is(s@, 0x2E, point as int);
    }
    let ghost whole_text = s@.subrange(0, point as int);
    let whole = match read_number(s, 0, point, limit / 1_000_000) {
        None => {
            return None;
        },
        Some(w) => w,
    };
    let start: usize = if point < s.len() {
        point + 1
    } else {
        point
    };
    let ghost fraction = s@.subrange(start as int, s@.len() as int);
    proof {
        if point == s@.len() {
            assert(fraction =~= Seq::<u8>::empty());
        }
    }
    let mut i: usize = start;
    while i < s.len()
        invariant
            start <= i <= s@.len(),
            fraction == s@.subrange(start as int, s@.len() as int),
            forall|j: int| 0 <= j < i - start ==> is_digit(#[trigger] fraction[j]),
        decreases s@.len() - i,
    {
        if !digit(s[i]) {
            assert(!is_digit(fraction[i - start]));
            return None;
        }
        i = i + 1;
    }
    let d0 = fraction_digit_at(s, start, 0);
    let d1 = fraction_digit_at(s, start, 1);
    let d2 = fraction_digit_at(s, start, 2);
    let d3 = fraction_digit_at(s, start, 3);
    let d4 = fraction_digit_at(s, start, 4);
    let d5 = fraction_digit_at(s, start, 5);
    let millionths: u64 = d0 * 100_000 + d1 * 10_000 + d2 * 1_000 + d3 * 100 + d4 * 10 + d5;
    let total: u128 = whole as u128 * 1_000_000 + millionths as u128;
    if total > limit as u128 {
        return None;
    }
    Some(total as u64)
}

/// Writes `n` millionths as the shortest decimal.
pub fn write_fixed(n: u64) -> (out: Vec<u8>)
    ensures
        out@ == format_fixed(n as nat),
{
    let mut out = write_number(n / 1_000_000);
    let ghost whole = out@;
    let f: u64 = n % 1_000_000;
    let kept: usize = if f % 10 != 0 {
        6
    } else if f % 100 != 0 {
        5
    } else if f % 1_000 != 0 {
        4
    } else if f % 10_000 != 0 {
        3
    } else if f % 100_000 != 0 {
        2
    } else if f != 0 {
        1
    } else {
        0
    };
    if kept == 0 {
        assert(out@ =~= format_fixed(n as nat));
        return out;
    }
    let mut digits: Vec<u8> = Vec::new();
    digits.push(0x30 + (f / 100_000 % 10) as u8);
    digits.push(0x30 + (f / 10_000 % 10) as u8);
    digits.push(0x30 + (f / 1_000 % 10) as u8);
    digits.push(0x30 + (f / 100 % 10) as u8);
    digits.push(0x30 + (f / 10 % 10) as u8);
    digits.push(0x30 + (f % 10) as u8);
    assert(digits@ =~= six_digits(f as nat));
    out.push(0x2E);
    let mut i: usize = 0;
    while i < kept
        invariant
            i <= kept <= 6,
            digits@.len() == 6,
            out@ == whole + seq![0x2Eu8] + digits@.subrange(0, i as int),
        decreases kept - i,
    {
        out.push(digits[i]);
        i = i + 1;
        assert(out@ =~= whole + seq![0x2Eu8] + digits@.subrange(0, i as int));
    }
    assert(out@ =~= format_fixed(n as nat));
    out
}

/// A number written in decimal reads back as itself.
pub proof fn lemma_number_round_trip(n: nat, limit: nat)
    requires
        n <= limit,
    ensures
        parse_number(decimal_digits(n), limit) == Some(n),
{
    lemma_decimal_digits(n);
}

/// The digits kept after the point write the millionths they were cut
/// from: every digit cut off is 0.
pub proof fn lemma_fraction_text(f: nat)
    requires
        f < 1_000_000,
    ensures
        ({
            let kept = six_digits(f).subrange(0, fraction_len(f) as int);
            &&& all_digits(kept)
            &&& fraction_millionths(kept) == f
            &&& fraction_len(f) == 0 <==> f == 0
        }),
{
    lemma_six_digits(f);
    let six = six_digits(f);
    let k = fraction_len(f) as int;
    let kept = six.subrange(0, k);
    assert forall|i: int| 0 <= i < kept.len() implies is_digit(#[trigger] kept[i]) by {
        assert(kept[i] == six[i]);
        assert(is_digit(six[i]));
    }
    assert(f / 10 == (f / 100) * 10 + f / 10 % 10);
    assert(f / 100 == (f / 1_000) * 10 + f / 100 % 10);
    assert(f / 1_000 == (f / 10_000) * 10 + f / 1_000 % 10);
    assert(f / 10_000 == (f / 100_000) * 10 + f / 10_000 % 10);
    assert(f == (f / 10) * 10 + f % 10);
    assert forall|i: int| 0 <= i < 6 implies fraction_digit(kept, i) == fraction_digit(six, i) by {
        if i < k {
            assert(kept[i] == six[i]);
        } else {
            assert(fraction_digit(kept, i) == 0);
            assert(fraction_digit(six, 5) == f % 10);
            assert(fraction_digit(six, 4) == f / 10 % 10);
            assert(fraction_digit(six, 3) == f / 100 % 10);
            assert(fraction_digit(six, 2) == f / 1_000 % 10);
            assert(fraction_digit(six, 1) == f / 10_000 % 10);
            assert(fraction_digit(six, 0) == f / 100_000 % 10);
        }
    }
}

/// The shortest decimal holds digits and at most one point, after a first
/// digit.
pub proof fn lemma_format_fixed_bytes(n: nat)
    ensures
        format_fixed(n).len() > 0,
        forall|i: int|
            0 <= i < format_fixed(n).len() ==> is_digit(#[trigger] format_fixed(n)[i])
                || format_fixed(n)[i] == 0x2E,
{
    let whole = decimal_digits(n / 1_000_000);
    let f = n % 1_000_000;
    let text = format_fixed(n);
    lemma_decimal_digits(n / 1_000_000);
    lemma_six_digits(f);
    lemma_fraction_text(f);
    let six = six_digits(f);
    assert forall|i: int| 0 <= i < text.len() implies is_digit(#[trigger] text[i]) || text[i]
        == 0x2E by {
        if i < whole.len() {
            assert(text[i] == whole[i]);
            assert(is_digit(whole[i]));
        } else if i > whole.len() {
            assert(text[i] == six[i - whole.len() - 1]);
            assert(is_digit(six[i - whole.len() - 1]));
        }
    }
}

/// A number of millionths written as the shortest decimal reads back as
/// itself.
pub proof fn lemma_fixed_round_trip(n: nat, limit: nat)
    requires
        n <= limit,
    ensures
        parse_fixed(format_fixed(n), limit) == Some(n),
{
    let whole = decimal_digits(n / 1_000_000);
    let f = n % 1_000_000;
    let kept = six_digits(f).subrange(0, fraction_len(f) as int);
    let text = format_fixed(n);
    lemma_decimal_digits(n / 1_000_000);
    lemma_fraction_text(f);
    assert forall|i: int| 0 <= i < whole.len() implies text[i] != 0x2E by {
        assert(is_digit(whole[i]));
        assert(text[i] == whole[i]);
    }
    if fraction_len(f) == 0 {
        assert(text =~= whole);
        lemma_first_index_is(text, 0x2E, whole.len() as int);
        assert(text.subrange(0, whole.len() as int) =~= whole);
        assert(fraction_millionths(Seq::<u8>::empty()) == 0);
    } else {
        assert(text[whole.len() as int] == 0x2E);
        lemma_first_index_is(text, 0x2E, whole.len() as int);
        assert(text.subrange(0, whole.len() as int) =~= whole);
        assert(text.subrange(whole.len() as int + 1, text.len() as int) =~= kept);
    }
}

} // verus!
