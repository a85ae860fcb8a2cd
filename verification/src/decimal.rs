//! Decimal numbers as the user writes them, read as spans of time.
//!
//! A number is an optional sign, digits with at most one point among them,
//! before them or after them, and an optional exponent: `e` or `E`, an
//! optional sign, digits. It is read exactly: the span is the number times
//! the unit, rounded down to the nanosecond. A number below zero is no span.

use crate::time::{Duration, NANOS_PER_SEC, SECS_PER_DAY};
use crate::utils::{
    all_digits, chars_of, digit_of, is_digit, lemma_number_step, lemma_pow10_grows,
    lemma_pow10_positive, number, pow10,
};
use vstd::arithmetic::div_mod::{
    lemma_basic_div, lemma_div_denominator, lemma_fundamental_div_mod,
    lemma_hoist_over_denominator,
};
use vstd::prelude::*;

verus! {

/// Whether `c` is a sign.
pub open spec fn is_sign(c: char) -> bool {
    c == '+' || c == '-'
}

/// Whether `c` opens an exponent.
pub open spec fn is_exponent_mark(c: char) -> bool {
    c == 'e' || c == 'E'
}

/// The length of the sign that `s` begins with: one or zero.
pub open spec fn sign_len(s: Seq<char>) -> int {
    if s.len() > 0 && is_sign(s[0]) {
        1
    } else {
        0
    }
}

/// Whether `s` begins with a minus.
pub open spec fn is_negative(s: Seq<char>) -> bool {
    s.len() > 0 && s[0] == '-'
}

/// Whether the mantissa of `s` ends at `i`: at the first exponent mark, or
/// at the end of `s` where it has none.
pub open spec fn ends_mantissa(s: Seq<char>, i: int) -> bool {
    &&& 0 <= i <= s.len()
    &&& forall|j: int| 0 <= j < i ==> !is_exponent_mark(#[trigger] s[j])
    &&& i < s.len() ==> is_exponent_mark(s[i])
}

/// Where the mantissa of `s` ends.
pub open spec fn mantissa_end(s: Seq<char>) -> int {
    choose|i: int| ends_mantissa(s, i)
}

/// What stands between the sign and the exponent mark.
pub open spec fn mantissa(s: Seq<char>) -> Seq<char> {
    s.subrange(sign_len(s), mantissa_end(s))
}

/// What stands after the exponent mark; nothing where `s` has none.
pub open spec fn exponent_text(s: Seq<char>) -> Seq<char> {
    if mantissa_end(s) < s.len() {
        s.skip(mantissa_end(s) + 1)
    } else {
        Seq::empty()
    }
}

/// The exponent without its sign.
pub open spec fn exponent_digits(s: Seq<char>) -> Seq<char> {
    exponent_text(s).skip(sign_len(exponent_text(s)))
}

/// The exponent of `s`; zero where it has none.
pub open spec fn exponent(s: Seq<char>) -> int {
    if is_negative(exponent_text(s)) {
        -(number(exponent_digits(s)) as int)
    } else {
        number(exponent_digits(s)) as int
    }
}

/// Whether the whole part of the mantissa `m` ends at `i`: at the first
/// point, or at the end of `m` where it has no point.
pub open spec fn ends_whole(m: Seq<char>, i: int) -> bool {
    &&& 0 <= i <= m.len()
    &&& forall|j: int| 0 <= j < i ==> #[trigger] m[j] != '.'
    &&& i < m.len() ==> m[i] == '.'
}

/// What stands before the first point of the mantissa `m`.
pub open spec fn whole_part(m: Seq<char>) -> Seq<char> {
    m.take(choose|i: int| ends_whole(m, i))
}

/// What stands after the first point of the mantissa `m`; nothing where it
/// has no point.
pub open spec fn fraction_part(m: Seq<char>) -> Seq<char> {
    let i = choose|i: int| ends_whole(m, i);
    if i < m.len() {
        m.skip(i + 1)
    } else {
        Seq::empty()
    }
}

/// The digits of the mantissa of `s`, without the point.
pub open spec fn digits(s: Seq<char>) -> Seq<char> {
    whole_part(mantissa(s)) + fraction_part(mantissa(s))
}

/// Whether `s` is written as a number: an optional sign, then digits with at
/// most one point, at least one digit, then nothing or an exponent mark, an
/// optional sign and at least one digit.
pub open spec fn is_number(s: Seq<char>) -> bool {
    &&& all_digits(whole_part(mantissa(s)))
    &&& all_digits(fraction_part(mantissa(s)))
    &&& digits(s).len() > 0
    &&& mantissa_end(s) < s.len() ==> exponent_digits(s).len() > 0
    &&& all_digits(exponent_digits(s))
}

/// Whether `s` is a decimal number that is not below zero.
pub open spec fn is_decimal(s: Seq<char>) -> bool {
    is_number(s) && (is_negative(s) ==> number(digits(s)) == 0)
}

/// The nanoseconds in as many units of `unit_secs` seconds as the decimal
/// number `s` says, rounded down.
pub open spec fn decimal_nanos(s: Seq<char>, unit_secs: nat) -> nat {
    let unit = unit_secs * NANOS_PER_SEC;
    let shift = exponent(s) - fraction_part(mantissa(s)).len();
    if shift >= 0 {
        (number(digits(s)) * pow10(shift as nat) * unit) as nat
    } else {
        ((number(digits(s)) * unit) / (pow10((-shift) as nat) as int)) as nat
    }
}

/// The longest span that can be held, in nanoseconds.
pub open spec fn max_nanos() -> nat {
    (u64::MAX * NANOS_PER_SEC + (NANOS_PER_SEC - 1)) as nat
}

/// Whether `res` is the span of as many units of `unit_secs` seconds as `s`
/// says: none where `s` is no decimal number, is below zero, or says more
/// than can be held.
pub open spec fn reads_as(s: Seq<char>, unit_secs: nat, res: Option<Duration>) -> bool {
    if is_decimal(s) && decimal_nanos(s, unit_secs) <= max_nanos() {
        res matches Some(d) && d.wf() && d.as_nanos() == decimal_nanos(s, unit_secs)
    } else {
        res is None
    }
}

/// The mantissa of a text ends at one place only.
proof fn lemma_ends_mantissa_unique(s: Seq<char>, i: int)
    requires
        ends_mantissa(s, i),
    ensures
        mantissa_end(s) == i,
{
    let k = choose|k: int| ends_mantissa(s, k);
    if k < i {
        assert(!is_exponent_mark(s[k]));
    }
    if i < k {
        assert(!is_exponent_mark(s[i]));
    }
}

/// The whole part of a mantissa ends at one place only.
proof fn lemma_ends_whole_unique(m: Seq<char>, i: int)
    requires
        ends_whole(m, i),
    ensures
        (choose|k: int| ends_whole(m, k)) == i,
        whole_part(m) == m.take(i),
        fraction_part(m) == if i < m.len() {
            m.skip(i + 1)
        } else {
            Seq::empty()
        },
{
    let k = choose|k: int| ends_whole(m, k);
    if k < i {
        assert(m[k] != '.');
    }
    if i < k {
        assert(m[i] != '.');
    }
}

/// The mantissa of every text ends somewhere.
proof fn lemma_ends_mantissa_exists(s: Seq<char>, from: int)
    requires
        0 <= from <= s.len(),
        forall|j: int| 0 <= j < from ==> !is_exponent_mark(#[trigger] s[j]),
    ensures
        exists|i: int| from <= i && ends_mantissa(s, i),
    decreases s.len() - from,
{
    if from == s.len() || is_exponent_mark(s[from]) {
        assert(ends_mantissa(s, from));
    } else {
        lemma_ends_mantissa_exists(s, from + 1);
    }
}

/// The whole part of every mantissa ends somewhere.
proof fn lemma_ends_whole_exists(m: Seq<char>, from: int)
    requires
        0 <= from <= m.len(),
        forall|j: int| 0 <= j < from ==> #[trigger] m[j] != '.',
    ensures
        exists|i: int| from <= i && ends_whole(m, i),
    decreases m.len() - from,
{
    if from == m.len() || m[from] == '.' {
        assert(ends_whole(m, from));
    } else {
        lemma_ends_whole_exists(m, from + 1);
    }
}

/// A text is no number where, before any exponent mark, something stands
/// that is neither a digit nor the first point.
proof fn lemma_stray(s: Seq<char>, i: int)
    requires
        sign_len(s) <= i < s.len(),
        forall|j: int| 0 <= j <= i ==> !is_exponent_mark(#[trigger] s[j]),
        !is_digit(s[i]),
        s[i] == '.' ==> exists|w: int| sign_len(s) <= w < i && s[w] == '.',
    ensures
        !is_number(s),
{
    let sl = sign_len(s);
    lemma_ends_mantissa_exists(s, i + 1);
    let ea = choose|e: int| i + 1 <= e && ends_mantissa(s, e);
    lemma_ends_mantissa_unique(s, ea);
    let m = mantissa(s);
    assert(m[i - sl] == s[i]);
    lemma_ends_whole_exists(m, 0);
    let ww = choose|k: int| 0 <= k && ends_whole(m, k);
    lemma_ends_whole_unique(m, ww);
    if s[i] == '.' {
        let w = choose|w: int| sl <= w < i && s[w] == '.';
        assert(m[w - sl] == '.');
        if ww > w - sl {
            assert(m[w - sl] != '.');
        }
    } else if ww == i - sl {
        assert(m[ww] == '.');
    }
    if ww > i - sl {
        assert(whole_part(m)[i - sl] == s[i]);
    } else {
        assert(ww < i - sl);
        assert(fraction_part(m)[i - sl - ww - 1] == s[i]);
    }
}

/// What a text was found to hold, where it is written as a number.
pub struct Scanned {
    /// Whether the text begins with a minus.
    pub negative: bool,
    /// The digits of the mantissa, without the point.
    pub digits: Vec<char>,
    /// Whether one of these digits is not zero.
    pub nonzero: bool,
    /// How many of them stand after the point.
    pub places: usize,
    /// Whether the exponent has a minus.
    pub exponent_negative: bool,
    /// The exponent without its sign, where it is not above [`EXPONENT_CAP`].
    pub exponent_size: u128,
    /// Whether the exponent without its sign is above [`EXPONENT_CAP`].
    pub exponent_huge: bool,
}

/// The size up to which an exponent is held exactly. Every exponent above
/// it shifts a number out of what a span can hold, or below a nanosecond.
pub const EXPONENT_CAP: u128 = 1_000_000_000_000_000_000_000_000_000_000;

impl Scanned {
    /// Whether `self` holds what the number `s` is made of.
    pub open spec fn is_scan_of(self, s: Seq<char>) -> bool {
        &&& self.negative == is_negative(s)
        &&& self.digits@ == digits(s)
        &&& all_digits(self.digits@)
        &&& self.digits@.len() > 0
        &&& self.nonzero == (number(self.digits@) > 0)
        &&& self.places == fraction_part(mantissa(s)).len()
        &&& self.exponent_negative == is_negative(exponent_text(s))
        &&& self.exponent_size <= EXPONENT_CAP
        &&& !self.exponent_huge ==> self.exponent_size == number(exponent_digits(s))
        &&& self.exponent_huge ==> number(exponent_digits(s)) > EXPONENT_CAP
    }
}

/// Whether `c` is a decimal digit.
fn is_digit_char(c: char) -> (res: bool)
    ensures
        res == is_digit(c),
{
    let v = c as u32;
    48 <= v && v <= 57
}

/// The value of a decimal digit.
fn digit_value(c: char) -> (res: u8)
    requires
        is_digit(c),
    ensures
        res == digit_of(c),
        res <= 9,
{
    (c as u32 - 48) as u8
}

/// Takes over the digits that stand in `cs` from `from` on, up to the first
/// character that is no digit.
fn take_digits(cs: &Vec<char>, from: usize, ds: &mut Vec<char>, nonzero: &mut bool) -> (to: usize)
    requires
        from <= cs@.len(),
        all_digits(old(ds)@),
        *old(nonzero) == (number(old(ds)@) > 0),
    ensures
        from <= to <= cs@.len(),
        final(ds)@ == old(ds)@ + cs@.subrange(from as int, to as int),
        all_digits(cs@.subrange(from as int, to as int)),
        all_digits(final(ds)@),
        *final(nonzero) == (number(final(ds)@) > 0),
        to < cs@.len() ==> !is_digit(cs@[to as int]),
{
    let n = cs.len();
    let mut i = from;
    proof {
        assert(ds@ =~= old(ds)@ + cs@.subrange(from as int, i as int));
    }
    while i < n && is_digit_char(cs[i])
        invariant
            n == cs@.len(),
            from <= i <= n,
            ds@ == old(ds)@ + cs@.subrange(from as int, i as int),
            all_digits(cs@.subrange(from as int, i as int)),
            all_digits(ds@),
            *nonzero == (number(ds@) > 0),
        decreases n - i,
    {
        let d = digit_value(cs[i]);
        proof {
            let next = ds@.push(cs@[i as int]);
            assert(next.drop_last() =~= ds@);
            assert(number(next) == number(ds@) * 10 + digit_of(cs@[i as int]));
            assert(next =~= old(ds)@ + cs@.subrange(from as int, i + 1));
            assert forall|j: int| 0 <= j < next.len() implies is_digit(#[trigger] next[j]) by {
                if j < ds@.len() {
                    assert(next[j] == ds@[j]);
                }
            }
            let run = cs@.subrange(from as int, i + 1);
            assert forall|j: int| 0 <= j < run.len() implies is_digit(#[trigger] run[j]) by {
                if j < run.len() - 1 {
                    assert(cs@.subrange(from as int, i as int)[j] == run[j]);
                }
            }
        }
        if d != 0 {
            *nonzero = true;
        }
        ds.push(cs[i]);
        i += 1;
    }
    i
}

/// The exponent that was read: whether it has a minus, its size where that
/// is not above [`EXPONENT_CAP`], and whether it is above.
pub struct ScannedExponent {
    /// Whether the exponent has a minus.
    pub negative: bool,
    /// The exponent without its sign, where it is not above [`EXPONENT_CAP`].
    pub size: u128,
    /// Whether the exponent without its sign is above [`EXPONENT_CAP`].
    pub huge: bool,
}

/// Reads the exponent that stands in `cs` from `from` on: an optional sign
/// and digits to the end, at least one.
fn read_exponent(cs: &Vec<char>, from: usize) -> (res: Option<ScannedExponent>)
    requires
        from <= cs@.len(),
    ensures
        ({
            let x = cs@.skip(from as int);
            let xd = x.skip(sign_len(x));
            match res {
                Some(e) => {
                    &&& xd.len() > 0
                    &&& all_digits(xd)
                    &&& e.negative == is_negative(x)
                    &&& e.size <= EXPONENT_CAP
                    &&& !e.huge ==> e.size == number(xd)
                    &&& e.huge ==> number(xd) > EXPONENT_CAP
                },
                None => xd.len() == 0 || !all_digits(xd),
            }
        }),
{
    let n = cs.len();
    let ghost x = cs@.skip(from as int);
    let mut i = from;
    let mut negative = false;
    if i < n && (cs[i] == '+' || cs[i] == '-') {
        negative = cs[i] == '-';
        assert(x[0] == cs@[i as int]);
        i += 1;
    } else if i < n {
        assert(x[0] == cs@[i as int]);
    }
    let xs = i;
    let ghost xd = x.skip(sign_len(x));
    assert(xd =~= cs@.skip(xs as int));
    if i == n {
        return None;
    }
    let mut size: u128 = 0;
    let mut huge = false;
    assert(xd.take(0) =~= Seq::<char>::empty());
    while i < n
        invariant
            n == cs@.len(),
            xs <= i <= n,
            xd == cs@.skip(xs as int),
            xd == cs@.skip(from as int).skip(sign_len(cs@.skip(from as int))),
            all_digits(xd.take(i - xs)),
            size <= EXPONENT_CAP,
            !huge ==> size == number(xd.take(i - xs)),
            huge ==> number(xd.take(i - xs)) > EXPONENT_CAP,
        decreases n - i,
    {
        if !is_digit_char(cs[i]) {
            proof {
                assert(xd[i - xs] == cs@[i as int]);
                assert(!all_digits(xd));
            }
            return None;
        }
        proof {
            assert(xd[i - xs] == cs@[i as int]);
            lemma_number_step(xd, i - xs);
            assert forall|j: int| 0 <= j < i - xs + 1 implies is_digit(
                #[trigger] xd.take(i - xs + 1)[j],
            ) by {
                if j < i - xs {
                    assert(xd.take(i - xs)[j] == xd[j]);
                }
            }
        }
        if !huge {
            let next = size * 10 + digit_value(cs[i]) as u128;
            if next > EXPONENT_CAP {
                huge = true;
            } else {
                size = next;
            }
        }
        i += 1;
    }
    proof {
        assert(xd.take(xd.len() as int) =~= xd);
    }
    Some(ScannedExponent { negative, size, huge })
}

/// Takes a text apart into sign, digits and exponent, where it is written
/// as a number.
pub fn scan(s: &str) -> (res: Option<Scanned>)
    ensures
        match res {
            Some(found) => is_number(s@) && found.is_scan_of(s@),
            None => !is_number(s@),
        },
{
    let cs = chars_of(s);
    let n = cs.len();
    let ghost text = cs@;
    let mut negative = false;
    let mut sl: usize = 0;
    if n > 0 && (cs[0] == '+' || cs[0] == '-') {
        negative = cs[0] == '-';
        sl = 1;
    }
    assert(sl == sign_len(text));
    let mut ds: Vec<char> = Vec::new();
    let mut nonzero = false;
    let w = take_digits(&cs, sl, &mut ds, &mut nonzero);
    let mut ea = w;
    if w < n && cs[w] == '.' {
        ea = take_digits(&cs, w + 1, &mut ds, &mut nonzero);
    }
    let ghost whole = text.subrange(sl as int, w as int);
    let ghost fraction = if w < ea {
        text.subrange(w + 1, ea as int)
    } else {
        Seq::<char>::empty()
    };
    let places = if w < ea {
        ea - (w + 1)
    } else {
        0
    };
    proof {
        assert(ds@ =~= whole + fraction);
        assert forall|j: int| 0 <= j < ea implies !is_exponent_mark(#[trigger] text[j]) by {
            if j < sl {
            } else if j < w {
                assert(is_digit(whole[j - sl]));
            } else if j == w {
            } else {
                assert(is_digit(fraction[j - w - 1]));
            }
        }
    }
    if ea < n && !(cs[ea] == 'e' || cs[ea] == 'E') {
        proof {
            if text[ea as int] == '.' {
                assert(w < ea);
                assert(text[w as int] == '.');
            }
            lemma_stray(text, ea as int);
        }
        return None;
    }
    proof {
        assert(ends_mantissa(text, ea as int));
        lemma_ends_mantissa_unique(text, ea as int);
        let m = mantissa(text);
        assert(m =~= text.subrange(sl as int, ea as int));
        assert(ends_whole(m, w - sl)) by {
            assert forall|j: int| 0 <= j < w - sl implies #[trigger] m[j] != '.' by {
                assert(is_digit(whole[j]));
            }
        }
        lemma_ends_whole_unique(m, w - sl);
        assert(whole_part(m) =~= whole);
        assert(fraction_part(m) =~= fraction);
        assert(digits(text) == ds@);
    }
    if ds.len() == 0 {
        return None;
    }
    let exponent = if ea < n {
        assert(exponent_text(text) == text.skip(ea + 1));
        match read_exponent(&cs, ea + 1) {
            Some(e) => e,
            None => {
                return None;
            },
        }
    } else {
        proof {
            assert(exponent_text(text) =~= Seq::<char>::empty());
            assert(exponent_digits(text) =~= Seq::<char>::empty());
        }
        ScannedExponent { negative: false, size: 0, huge: false }
    };
    Some(
        Scanned {
            negative,
            digits: ds,
            nonzero,
            places,
            exponent_negative: exponent.negative,
            exponent_size: exponent.size,
            exponent_huge: exponent.huge,
        },
    )
}

/// The longest span that can be held, in nanoseconds.
pub const MAX_NANOS: u128 = 18_446_744_073_709_551_615_999_999_999;

/// The nanoseconds of the longest unit, a day.
pub const MAX_UNIT: u128 = 86_400_000_000_000;

/// The number of two runs of digits written one after the other.
proof fn lemma_number_concat(a: Seq<char>, b: Seq<char>)
    ensures
        number(a + b) == number(a) * pow10(b.len()) + number(b),
    decreases b.len(),
{
    if b.len() == 0 {
        assert(a + b =~= a);
        assert(number(b) == 0);
        assert(pow10(0) == 1);
        assert(number(a) * 1 == number(a)) by (nonlinear_arith);
    } else {
        let bf = b.drop_last();
        assert((a + b).drop_last() =~= a + bf);
        assert((a + b).last() == b.last());
        lemma_number_concat(a, bf);
        let na = number(a) as int;
        let p = pow10(bf.len()) as int;
        let nbf = number(bf) as int;
        let d = digit_of(b.last()) as int;
        assert(pow10(b.len()) == 10 * p);
        assert(number(a + b) == number(a + bf) * 10 + d);
        assert(number(b) == nbf * 10 + d);
        assert((na * p + nbf) * 10 + d == na * (10 * p) + (nbf * 10 + d)) by (nonlinear_arith);
    }
}

/// The number of one digit is the value of that digit.
proof fn lemma_number_single(c: char)
    ensures
        number(seq![c]) == digit_of(c),
{
    assert(seq![c].drop_last() =~= Seq::<char>::empty());
    assert(seq![c].last() == c);
    assert(number(Seq::<char>::empty()) == 0);
    assert(number(seq![c]) == number(seq![c].drop_last()) * 10 + digit_of(seq![c].last()));
}

/// A number of so many digits stays below that power of ten.
proof fn lemma_number_below(s: Seq<char>)
    requires
        all_digits(s),
    ensures
        number(s) < pow10(s.len()),
    decreases s.len(),
{
    if s.len() > 0 {
        let f = s.drop_last();
        assert forall|i: int| 0 <= i < f.len() implies is_digit(#[trigger] f[i]) by {
            assert(f[i] == s[i]);
        }
        lemma_number_below(f);
        assert(is_digit(s[s.len() - 1]));
        assert(pow10(s.len()) == 10 * pow10(f.len()));
    }
}

/// Powers of ten multiply as their exponents add.
proof fn lemma_pow10_add(a: nat, b: nat)
    ensures
        pow10(a + b) == pow10(a) * pow10(b),
    decreases b,
{
    if b == 0 {
        assert(pow10(a) * 1 == pow10(a)) by (nonlinear_arith);
    } else {
        lemma_pow10_add(a, (b - 1) as nat);
        let x = pow10(a) as int;
        let y = pow10((b - 1) as nat) as int;
        assert(pow10(b) == 10 * y);
        assert(pow10(a + b) == 10 * pow10((a + b - 1) as nat));
        assert(10 * (x * y) == x * (10 * y)) by (nonlinear_arith);
    }
}

/// Carrying one digit further to the left: the product with the digit in
/// front, cut by one place more, follows from the product so far.
proof fn lemma_carry_step(u: int, d: int, n: int, p: int)
    requires
        0 <= u,
        0 <= d,
        0 <= n,
        0 < p,
    ensures
        ((d * p + n) * u) / (p * 10) == (d * u + (n * u) / p) / 10,
{
    let x = n * u;
    let j = d * u;
    assert(0 <= x) by (nonlinear_arith)
        requires
            0 <= n,
            0 <= u,
            x == n * u,
    ;
    assert(0 <= j) by (nonlinear_arith)
        requires
            0 <= d,
            0 <= u,
            j == d * u,
    ;
    assert(0 <= j * p) by (nonlinear_arith)
        requires
            0 <= j,
            0 < p,
    ;
    lemma_hoist_over_denominator(x, j, p as nat);
    assert(x / p + j == (x + j * p) / p);
    lemma_div_denominator(x + j * p, p, 10);
    assert((d * p + n) * u == x + j * p) by (nonlinear_arith)
        requires
            x == n * u,
            j == d * u,
    ;
}

/// A product cut at a power of ten, where the number splits at that power.
proof fn lemma_split_div(hi: int, lo: int, u: int, p: int)
    requires
        0 <= hi,
        0 <= lo,
        0 <= u,
        0 < p,
    ensures
        ((hi * p + lo) * u) / p == hi * u + (lo * u) / p,
{
    let x = lo * u;
    let j = hi * u;
    lemma_hoist_over_denominator(x, j, p as nat);
    assert((hi * p + lo) * u == x + j * p) by (nonlinear_arith)
        requires
            x == lo * u,
            j == hi * u,
    ;
}

/// A number shifted down by more places than it and the unit have digits
/// comes to nothing.
proof fn lemma_vanishes(ds: Seq<char>, u: int, q: nat)
    requires
        all_digits(ds),
        0 <= u <= MAX_UNIT,
        q >= ds.len() + 14,
    ensures
        (number(ds) * u) / (pow10(q) as int) == 0,
{
    lemma_number_below(ds);
    lemma_pow10_add(ds.len(), 14);
    lemma_pow10_grows(ds.len() + 14, q);
    assert(pow10(14) == 100_000_000_000_000) by {
        reveal_with_fuel(pow10, 15);
    }
    let m = number(ds) as int;
    let a = pow10(ds.len()) as int;
    let b = pow10(14) as int;
    assert(m * u < a * b) by (nonlinear_arith)
        requires
            0 <= m < a,
            0 <= u < b,
    ;
    assert(0 <= m * u) by (nonlinear_arith)
        requires
            0 <= m,
            0 <= u,
    ;
    lemma_basic_div(m * u, pow10(q) as int);
}

/// A number that is not zero, shifted up by twenty places or more, is more
/// than a span can hold, whatever the unit.
proof fn lemma_overflows(m: int, shift: nat, u: int)
    requires
        1 <= m,
        20 <= shift,
        1_000_000_000 <= u,
    ensures
        m * pow10(shift) * u > MAX_NANOS,
{
    lemma_pow10_grows(20, shift);
    assert(pow10(20) == 100_000_000_000_000_000_000) by {
        reveal_with_fuel(pow10, 21);
    }
    let p = pow10(shift) as int;
    assert(m * p * u >= 100_000_000_000_000_000_000 * 1_000_000_000) by (nonlinear_arith)
        requires
            1 <= m,
            100_000_000_000_000_000_000 <= p,
            1_000_000_000 <= u,
    ;
}

/// The number that digits write, times ten to the power of `shift`, times
/// `u`, where that is no more than a span can hold.
fn scale_up(ds: &Vec<char>, shift: u32, u: u128) -> (res: Option<u128>)
    requires
        all_digits(ds@),
        shift < 20,
        1_000_000_000 <= u <= MAX_UNIT,
    ensures
        res matches Some(t) ==> t == number(ds@) * pow10(shift as nat) * u && t <= MAX_NANOS,
        res is None ==> number(ds@) * pow10(shift as nat) * u > MAX_NANOS,
{
    let ghost whole = number(ds@) as int;
    let ghost power = pow10(shift as nat) as int;
    proof {
        lemma_pow10_positive(shift as nat);
    }
    let mut m: u128 = 0;
    let mut over = false;
    let mut i: usize = 0;
    while i < ds.len()
        invariant
            i <= ds@.len(),
            all_digits(ds@),
            !over ==> m == number(ds@.take(i as int)) && m <= MAX_NANOS,
            over ==> number(ds@.take(i as int)) > MAX_NANOS,
        decreases ds@.len() - i,
    {
        proof {
            lemma_number_step(ds@, i as int);
        }
        if !over {
            let next = m * 10 + digit_value(ds[i]) as u128;
            if next > MAX_NANOS {
                over = true;
            } else {
                m = next;
            }
        }
        i += 1;
    }
    proof {
        assert(ds@.take(ds@.len() as int) =~= ds@);
    }
    if over {
        proof {
            let wp = whole * power;
            assert(wp >= whole) by (nonlinear_arith)
                requires
                    0 <= whole,
                    1 <= power,
                    wp == whole * power,
            ;
            assert(wp * u >= wp) by (nonlinear_arith)
                requires
                    0 <= wp,
                    1 <= u,
            ;
        }
        return None;
    }
    let mut t: u32 = 0;
    while t < shift
        invariant
            t <= shift < 20,
            whole == number(ds@),
            power == pow10(shift as nat),
            1_000_000_000 <= u <= MAX_UNIT,
            m == whole * pow10(t as nat),
            m <= MAX_NANOS,
        decreases shift - t,
    {
        let next = m * 10;
        proof {
            assert(pow10((t + 1) as nat) == 10 * pow10(t as nat));
            let pt = pow10(t as nat) as int;
            assert(whole * (10 * pt) == (whole * pt) * 10) by (nonlinear_arith);
        }
        if next > MAX_NANOS {
            proof {
                lemma_pow10_grows((t + 1) as nat, shift as nat);
                let pn = pow10((t + 1) as nat) as int;
                let wp = whole * power;
                assert(wp >= whole * pn && wp >= 0) by (nonlinear_arith)
                    requires
                        0 <= whole,
                        0 <= pn <= power,
                        wp == whole * power,
                ;
                assert(wp * u >= wp) by (nonlinear_arith)
                    requires
                        0 <= wp,
                        1 <= u,
                ;
            }
            return None;
        }
        m = next;
        t += 1;
    }
    let limit = MAX_NANOS / u;
    proof {
        let top = MAX_NANOS as int;
        let ui = u as int;
        lemma_fundamental_div_mod(top, ui);
        assert(0 <= top % ui && top % ui < ui) by (nonlinear_arith)
            requires
                0 < ui,
        ;
    }
    if m > limit {
        proof {
            let mi = m as int;
            let li = limit as int;
            let ui = u as int;
            assert(mi * ui >= (li + 1) * ui) by (nonlinear_arith)
                requires
                    mi >= li + 1,
                    0 <= ui,
            ;
            assert((li + 1) * ui == ui * li + ui) by (nonlinear_arith);
        }
        return None;
    }
    proof {
        let mi = m as int;
        let li = limit as int;
        let ui = u as int;
        assert(mi * ui <= li * ui) by (nonlinear_arith)
            requires
                0 <= mi <= li,
                0 <= ui,
        ;
        assert(li * ui == ui * li) by (nonlinear_arith);
    }
    Some(m * u)
}

/// The number that digits write, times `u`, cut by `q` decimal places,
/// where that is no more than a span can hold.
fn scale_down(ds: &Vec<char>, q: u128, u: u128) -> (res: Option<u128>)
    requires
        all_digits(ds@),
        0 < q,
        1_000_000_000 <= u <= MAX_UNIT,
    ensures
        res matches Some(t) ==> t == (number(ds@) * u) / (pow10(q as nat) as int) && t
            <= MAX_NANOS,
        res is None ==> (number(ds@) * u) / (pow10(q as nat) as int) > MAX_NANOS,
{
    let len = ds.len();
    if q >= len as u128 + 14 {
        proof {
            lemma_vanishes(ds@, u as int, q as nat);
        }
        return Some(0);
    }
    let a: usize = if q <= len as u128 {
        len - q as usize
    } else {
        0
    };
    let extra: u32 = if q <= len as u128 {
        0
    } else {
        (q - len as u128) as u32
    };
    let ghost front = ds@.take(a as int);
    let ghost back = ds@.subrange(a as int, len as int);
    let mut hi: u128 = 0;
    let mut over = false;
    let mut i: usize = 0;
    while i < a
        invariant
            i <= a <= ds@.len(),
            all_digits(ds@),
            !over ==> hi == number(ds@.take(i as int)) && hi <= u64::MAX,
            over ==> number(ds@.take(i as int)) > u64::MAX,
        decreases a - i,
    {
        proof {
            lemma_number_step(ds@, i as int);
        }
        if !over {
            let next = hi * 10 + digit_value(ds[i]) as u128;
            if next > u64::MAX as u128 {
                over = true;
            } else {
                hi = next;
            }
        }
        i += 1;
    }
    let mut carry: u128 = 0;
    let mut j: usize = len;
    proof {
        assert(ds@.subrange(len as int, len as int) =~= Seq::<char>::empty());
        assert(pow10(0) == 1);
        assert((0 * u) / 1 == 0) by (nonlinear_arith);
    }
    while j > a
        invariant
            a <= j <= len,
            len == ds@.len(),
            all_digits(ds@),
            1_000_000_000 <= u <= MAX_UNIT,
            carry == (number(ds@.subrange(j as int, len as int)) * u) / (pow10(
                (len - j) as nat,
            ) as int),
            carry < u,
        decreases j,
    {
        j -= 1;
        let d = digit_value(ds[j]) as u128;
        proof {
            let rest = ds@.subrange(j + 1, len as int);
            let more = ds@.subrange(j as int, len as int);
            assert(more =~= seq![ds@[j as int]] + rest);
            lemma_number_concat(seq![ds@[j as int]], rest);
            lemma_number_single(ds@[j as int]);
            let p = pow10(rest.len()) as int;
            lemma_pow10_positive(rest.len());
            assert(pow10((len - j) as nat) == 10 * p);
            lemma_carry_step(u as int, d as int, number(rest) as int, p);
            assert(p * 10 == 10 * p);
            assert(d * u <= 9 * u) by (nonlinear_arith)
                requires
                    0 <= d <= 9,
                    0 <= u,
            ;
            assert(0 <= d * u) by (nonlinear_arith)
                requires
                    0 <= d,
                    0 <= u,
            ;
        }
        carry = (d * u + carry) / 10;
    }
    let ghost cut = carry as int;
    let mut t: u32 = 0;
    while t < extra
        invariant
            t <= extra,
            0 <= cut,
            carry == cut / (pow10(t as nat) as int),
        decreases extra - t,
    {
        proof {
            lemma_pow10_positive(t as nat);
            lemma_div_denominator(cut, pow10(t as nat) as int, 10);
            assert(pow10((t + 1) as nat) == 10 * pow10(t as nat));
            assert(pow10(t as nat) * 10 == 10 * pow10(t as nat));
        }
        carry = carry / 10;
        t += 1;
    }
    proof {
        let nf = number(front) as int;
        let nb = number(back) as int;
        let ui = u as int;
        assert(ds@ =~= front + back);
        lemma_number_concat(front, back);
        lemma_pow10_positive(back.len());
        lemma_pow10_positive(q as nat);
        if q <= len {
            assert(back.len() == q);
            lemma_split_div(nf, nb, ui, pow10(q as nat) as int);
            assert(cut == (nb * ui) / (pow10(q as nat) as int));
            assert(carry == cut);
        } else {
            assert(front =~= Seq::<char>::empty());
            assert(nf == 0);
            assert(back =~= ds@);
            lemma_pow10_add(len as nat, extra as nat);
            lemma_pow10_positive(extra as nat);
            assert(0 <= nb * ui) by (nonlinear_arith)
                requires
                    0 <= nb,
                    0 <= ui,
            ;
            lemma_div_denominator(nb * ui, pow10(len as nat) as int, pow10(extra as nat) as int);
        }
        assert((number(ds@) * u) / (pow10(q as nat) as int) == nf * ui + carry);
    }
    if over {
        proof {
            let nf = number(front) as int;
            let ui = u as int;
            assert(nf * ui >= 18_446_744_073_709_551_616 * 1_000_000_000) by (nonlinear_arith)
                requires
                    nf >= 18_446_744_073_709_551_616,
                    ui >= 1_000_000_000,
            ;
        }
        return None;
    }
    proof {
        let hi_int = hi as int;
        let ui = u as int;
        assert(hi_int * ui <= 18_446_744_073_709_551_615 * 86_400_000_000_000) by (nonlinear_arith)
            requires
                0 <= hi_int <= 18_446_744_073_709_551_615,
                0 <= ui <= 86_400_000_000_000,
        ;
    }
    let total = hi * u + carry;
    if total > MAX_NANOS {
        None
    } else {
        Some(total)
    }
}

/// The span of `total` nanoseconds.
fn span_of(total: u128) -> (res: Duration)
    requires
        total <= MAX_NANOS,
    ensures
        res.wf(),
        res.as_nanos() == total,
{
    let secs = total / 1_000_000_000;
    let sub = total % 1_000_000_000;
    match Duration::new(secs as u64, sub as u32) {
        Some(d) => d,
        None => {
            assert(false);
            Duration::zero()
        },
    }
}

/// The span of `total` nanoseconds, where there is such a total.
fn conclude(total: Option<u128>) -> (res: Option<Duration>)
    requires
        total matches Some(t) ==> t <= MAX_NANOS,
    ensures
        total is None ==> res is None,
        total matches Some(t) ==> res matches Some(d) && d.wf() && d.as_nanos() == t,
{
    match total {
        Some(t) => Some(span_of(t)),
        None => None,
    }
}

/// Reads `s` as a decimal number of units of `unit_secs` seconds each.
pub(crate) fn read_decimal(s: &str, unit_secs: u64) -> (res: Option<Duration>)
    requires
        1 <= unit_secs <= SECS_PER_DAY,
    ensures
        reads_as(s@, unit_secs as nat, res),
{
    let found = match scan(s) {
        Some(found) => found,
        None => {
            return None;
        },
    };
    let u: u128 = (unit_secs as u128) * 1_000_000_000;
    let len = found.digits.len();
    let ghost m = number(found.digits@) as int;
    let ghost unit = unit_secs as nat * NANOS_PER_SEC;
    let ghost size = number(exponent_digits(s@)) as int;
    let ghost shift = exponent(s@) - found.places;
    assert(unit == u);
    if !found.nonzero {
        proof {
            if shift >= 0 {
                assert(0 * pow10(shift as nat) * unit == 0) by (nonlinear_arith);
            } else {
                lemma_pow10_positive((-shift) as nat);
                assert(0 * unit == 0) by (nonlinear_arith);
            }
        }
        return Some(Duration::zero());
    }
    if found.negative {
        return None;
    }
    let places = found.places as u128;
    if found.exponent_negative {
        assert(shift == -size - places);
        if found.exponent_huge {
            proof {
                lemma_vanishes(found.digits@, u as int, (-shift) as nat);
            }
            return Some(Duration::zero());
        }
        let q = places + found.exponent_size;
        if q == 0 {
            assert(shift == 0);
            return conclude(scale_up(&found.digits, 0, u));
        }
        assert(-shift == q);
        return conclude(scale_down(&found.digits, q, u));
    }
    assert(shift == size - places);
    if found.exponent_huge {
        proof {
            lemma_overflows(m, shift as nat, u as int);
        }
        return None;
    }
    if found.exponent_size >= places {
        let p = found.exponent_size - places;
        assert(shift == p);
        if p >= 20 {
            proof {
                lemma_overflows(m, shift as nat, u as int);
            }
            return None;
        }
        return conclude(scale_up(&found.digits, p as u32, u));
    }
    assert(-shift == places - found.exponent_size);
    conclude(scale_down(&found.digits, places - found.exponent_size, u))
}

} // verus!
