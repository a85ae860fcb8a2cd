//! Durations as the user reads and writes them: a span shown with one
//! decimal place, a decimal number of minutes or days read as a span, and the
//! windows over which accrued value is summed up.

use crate::decimal::{read_decimal, reads_as};
use crate::log::{LogRecord, TaskLog};
use crate::time::{
    Duration, UnixTime, NANOS_PER_SEC, SECS_PER_DAY, SECS_PER_HOUR, SECS_PER_MINUTE,
};
use vstd::prelude::*;
use vstd::string::*;

verus! {

/// The character of a decimal digit.
pub open spec fn digit_char(d: nat) -> char
    recommends
        d < 10,
{
    if d == 0 {
        '0'
    } else if d == 1 {
        '1'
    } else if d == 2 {
        '2'
    } else if d == 3 {
        '3'
    } else if d == 4 {
        '4'
    } else if d == 5 {
        '5'
    } else if d == 6 {
        '6'
    } else if d == 7 {
        '7'
    } else if d == 8 {
        '8'
    } else {
        '9'
    }
}

/// The decimal numeral of `n`, without leading zeros.
pub open spec fn numeral(n: nat) -> Seq<char>
    decreases n,
{
    if n < 10 {
        seq![digit_char(n)]
    } else {
        numeral(n / 10).push(digit_char(n % 10))
    }
}

/// The unit in which a span of `nanos` nanoseconds is shown: days above one
/// day, hours above one hour, minutes otherwise. Given as the seconds of the
/// unit.
pub open spec fn shown_unit(nanos: int) -> nat {
    if nanos > SECS_PER_DAY * NANOS_PER_SEC {
        SECS_PER_DAY as nat
    } else if nanos > SECS_PER_HOUR * NANOS_PER_SEC {
        SECS_PER_HOUR as nat
    } else {
        SECS_PER_MINUTE as nat
    }
}

/// The letter that stands for a unit.
pub open spec fn unit_letter(unit_secs: nat) -> char {
    if unit_secs == SECS_PER_DAY {
        'd'
    } else if unit_secs == SECS_PER_HOUR {
        'h'
    } else {
        'm'
    }
}

/// A span of `nanos` nanoseconds in tenths of the given unit, rounded to the
/// nearest tenth, a half upwards.
pub open spec fn tenths(nanos: int, unit_secs: nat) -> nat {
    ((nanos * 10 + unit_secs * NANOS_PER_SEC / 2) / (unit_secs * NANOS_PER_SEC as int)) as nat
}

/// A span of `nanos` nanoseconds as the user reads it: the number of units
/// with one decimal place, followed by the letter of the unit.
pub open spec fn shown(nanos: int) -> Seq<char> {
    let unit = shown_unit(nanos);
    let t = tenths(nanos, unit);
    numeral(t / 10).push('.').push(digit_char(t % 10)).push(unit_letter(unit))
}

/// The text of one decimal digit.
fn digit_str(d: u8) -> (res: &'static str)
    requires
        d < 10,
    ensures
        res@ == seq![digit_char(d as nat)],
{
    proof {
        reveal_strlit("0");
        reveal_strlit("1");
        reveal_strlit("2");
        reveal_strlit("3");
        reveal_strlit("4");
        reveal_strlit("5");
        reveal_strlit("6");
        reveal_strlit("7");
        reveal_strlit("8");
        reveal_strlit("9");
    }
    let res = if d == 0 {
        "0"
    } else if d == 1 {
        "1"
    } else if d == 2 {
        "2"
    } else if d == 3 {
        "3"
    } else if d == 4 {
        "4"
    } else if d == 5 {
        "5"
    } else if d == 6 {
        "6"
    } else if d == 7 {
        "7"
    } else if d == 8 {
        "8"
    } else {
        "9"
    };
    assert(res@ =~= seq![digit_char(d as nat)]);
    res
}

/// Appends the decimal numeral of `n` to `out`.
fn push_numeral(out: &mut String, n: u128)
    ensures
        final(out)@ == old(out)@ + numeral(n as nat),
    decreases n,
{
    if n >= 10 {
        push_numeral(out, n / 10);
    }
    out.append(digit_str((n % 10) as u8));
    assert(out@ =~= old(out)@ + numeral(n as nat));
}

/// Shows a span with one decimal place: in days where it is longer than a
/// day, else in hours where it is longer than an hour, else in minutes.
pub fn dur_format(dur: Duration) -> (res: String)
    ensures
        res@ == shown(dur.as_nanos()),
{
    proof {
        use_type_invariant(&dur);
        Duration::lemma_order_is_numeric(dur, dur);
        reveal_strlit(".");
        reveal_strlit("d");
        reveal_strlit("h");
        reveal_strlit("m");
    }
    let secs = dur.as_secs();
    let sub = dur.subsec_nanos();
    let nanos: u128 = (secs as u128) * 1_000_000_000 + (sub as u128);
    let day: u128 = 86_400_000_000_000;
    let hour: u128 = 3_600_000_000_000;
    let minute: u128 = 60_000_000_000;
    let (unit, letter): (u128, &'static str) = if nanos > day {
        (day, "d")
    } else if nanos > hour {
        (hour, "h")
    } else {
        (minute, "m")
    };
    let t: u128 = (nanos * 10 + unit / 2) / unit;
    let mut out = String::new();
    push_numeral(&mut out, t / 10);
    out.append(".");
    out.append(digit_str((t % 10) as u8));
    out.append(letter);
    proof {
        let u = shown_unit(dur.as_nanos());
        assert(unit == u * NANOS_PER_SEC);
        assert(t == tenths(dur.as_nanos(), u));
        assert(letter@ =~= seq![unit_letter(u)]);
        assert(out@ =~= shown(dur.as_nanos()));
    }
    out
}

/// Whether `s` names one of the windows over which accrued value is summed
/// up: a single digit from 1 to 4.
pub open spec fn is_window(s: Seq<char>) -> bool {
    s.len() == 1 && (s[0] == '1' || s[0] == '2' || s[0] == '3' || s[0] == '4')
}

/// The seconds of the window that `c` names: a day, a week, thirty days, or
/// a span that reaches back before any task.
pub open spec fn window_secs(c: char) -> nat {
    if c == '1' {
        86_400
    } else if c == '2' {
        604_800
    } else if c == '3' {
        2_592_000
    } else {
        1_000_000_000
    }
}

/// The window that the choice `s` names.
pub fn value_since(s: &str) -> (res: Duration)
    requires
        is_window(s@),
    ensures
        res.wf(),
        res.secs() == window_secs(s@[0]),
        res.nanos() == 0,
{
    let c = s.get_char(0);
    if c == '1' {
        Duration::from_secs(86_400)
    } else if c == '2' {
        Duration::from_secs(86_400 * 7)
    } else if c == '3' {
        Duration::from_secs(86_400 * 30)
    } else {
        Duration::from_secs(1_000_000_000)
    }
}

/// Whether `c` is a decimal digit.
pub open spec fn is_digit(c: char) -> bool {
    48 <= c as u32 <= 57
}

/// The value of a decimal digit.
pub open spec fn digit_of(c: char) -> nat {
    (c as u32 - 48) as nat
}

/// Whether `s` holds decimal digits only.
pub open spec fn all_digits(s: Seq<char>) -> bool {
    forall|i: int| 0 <= i < s.len() ==> is_digit(#[trigger] s[i])
}

/// The number that the digits of `s` write; zero for no digits.
pub open spec fn number(s: Seq<char>) -> nat
    decreases s.len(),
{
    if s.len() == 0 {
        0
    } else {
        number(s.drop_last()) * 10 + digit_of(s.last())
    }
}

/// Ten to the power of `k`.
pub open spec fn pow10(k: nat) -> nat
    decreases k,
{
    if k == 0 {
        1
    } else {
        10 * pow10((k - 1) as nat)
    }
}

/// The number of one digit more is ten times the number so far and the
/// digit.
pub proof fn lemma_number_step(s: Seq<char>, i: int)
    requires
        0 <= i < s.len(),
    ensures
        number(s.take(i + 1)) == number(s.take(i)) * 10 + digit_of(s[i]),
{
    assert(s.take(i + 1).drop_last() =~= s.take(i));
}

/// The characters of a text.
pub(crate) fn chars_of(s: &str) -> (res: Vec<char>)
    ensures
        res@ == s@,
{
    let mut out: Vec<char> = Vec::new();
    for c in it: s.chars()
        invariant
            it.seq() == s@,
            out@ == s@.take(it.index()),
    {
        proof {
            assert(s@.take(it.index() + 1) =~= s@.take(it.index()).push(c));
        }
        out.push(c);
    }
    proof {
        assert(s@.take(s@.len() as int) =~= s@);
    }
    out
}

/// Powers of ten are positive.
pub proof fn lemma_pow10_positive(k: nat)
    ensures
        pow10(k) > 0,
    decreases k,
{
    if k > 0 {
        lemma_pow10_positive((k - 1) as nat);
    }
}

/// Powers of ten grow with the exponent.
pub proof fn lemma_pow10_grows(a: nat, b: nat)
    requires
        a <= b,
    ensures
        pow10(a) <= pow10(b),
        a < b ==> 10 * pow10(a) <= pow10(b),
    decreases b - a,
{
    lemma_pow10_positive(a);
    if a < b {
        lemma_pow10_grows(a, (b - 1) as nat);
    }
}

/// Reads a decimal number of minutes as a span, rounded down to the
/// nanosecond.
pub fn str_as_mins(s: &str) -> (res: Option<Duration>)
    ensures
        reads_as(s@, SECS_PER_MINUTE as nat, res),
{
    read_decimal(s, SECS_PER_MINUTE)
}

/// Reads a decimal number of days as a span, rounded down to the nanosecond.
pub fn str_as_days(s: &str) -> (res: Option<Duration>)
    ensures
        reads_as(s@, SECS_PER_DAY as nat, res),
{
    read_decimal(s, SECS_PER_DAY)
}

/// Whether `s` writes a number of whole seconds: decimal digits, at least
/// one, that stay within 64 bits.
pub open spec fn is_seconds(s: Seq<char>) -> bool {
    s.len() > 0 && all_digits(s) && number(s) <= u64::MAX
}

/// Reads a number of whole seconds, as the remote side writes the time of a
/// completion.
pub fn str_as_secs(s: &str) -> (res: Option<Duration>)
    ensures
        is_seconds(s@) ==> res == Some(Duration::of_secs(number(s@) as u64)),
        !is_seconds(s@) ==> res is None,
{
    let cs = chars_of(s);
    let n = cs.len();
    if n == 0 {
        return None;
    }
    let mut i: usize = 0;
    let mut value: u64 = 0;
    let mut over = false;
    while i < n
        invariant
            n == cs@.len(),
            cs@ == s@,
            i <= n,
            all_digits(s@.take(i as int)),
            !over ==> value == number(s@.take(i as int)),
            over ==> number(s@.take(i as int)) > u64::MAX,
        decreases n - i,
    {
        let v = cs[i] as u32;
        if v < 48 || v > 57 {
            proof {
                assert(!is_digit(s@[i as int]));
            }
            return None;
        }
        proof {
            lemma_number_step(s@, i as int);
            assert forall|j: int| 0 <= j < i + 1 implies is_digit(#[trigger] s@.take(i + 1)[j]) by {
                if j < i {
                    assert(s@.take(i as int)[j] == s@[j]);
                }
            }
        }
        if !over {
            let d = (v - 48) as u64;
            if value > (u64::MAX - d) / 10 {
                over = true;
            } else {
                value = value * 10 + d;
            }
        }
        i += 1;
    }
    proof {
        assert(s@.take(n as int) =~= s@);
    }
    if over {
        None
    } else {
        Some(Duration::from_secs(value))
    }
}

/// The decimal numeral of a number is read back as that number.
pub proof fn lemma_numeral_reads_back(n: nat)
    ensures
        numeral(n).len() > 0,
        all_digits(numeral(n)),
        number(numeral(n)) == n,
    decreases n,
{
    if n < 10 {
        let s = numeral(n);
        assert(s.len() == 1 && s[0] == digit_char(n));
        assert(s.drop_last() =~= Seq::<char>::empty());
        assert(number(s.drop_last()) == 0);
    } else {
        lemma_numeral_reads_back(n / 10);
        let front = numeral(n / 10);
        let s = numeral(n);
        assert(s.drop_last() =~= front);
        assert(s.last() == digit_char(n % 10));
        assert forall|i: int| 0 <= i < s.len() implies is_digit(#[trigger] s[i]) by {
            if i < front.len() {
                assert(s[i] == front[i]);
            }
        }
    }
}

/// Writes a number of whole seconds as the remote side holds the time of a
/// completion: in decimal digits.
pub fn secs_as_str(secs: u64) -> (res: String)
    ensures
        res@ == numeral(secs as nat),
        is_seconds(res@),
        number(res@) == secs,
{
    let mut out = String::new();
    push_numeral(&mut out, secs as u128);
    proof {
        lemma_numeral_reads_back(secs as nat);
        assert(out@ =~= numeral(secs as nat));
    }
    out
}

/// The ages of the records of `log` at `now`, each as the user reads it,
/// oldest record first, with a comma and a blank between two of them.
pub open spec fn ages_shown(log: Seq<LogRecord>, now: UnixTime) -> Seq<char>
    decreases log.len(),
{
    if log.len() == 0 {
        Seq::empty()
    } else if log.len() == 1 {
        shown(now.as_nanos() - log[0].time.as_nanos())
    } else {
        ages_shown(log.drop_last(), now) + seq![',', ' '] + shown(
            now.as_nanos() - log.last().time.as_nanos(),
        )
    }
}

/// Shows how long ago each completion of `log` was. No record may lie after
/// `now`.
pub fn logstr(log: &TaskLog, now: UnixTime) -> (res: String)
    requires
        forall|i: int| 0 <= i < log@.len() ==> !now.lt((#[trigger] log@[i]).time),
    ensures
        res@ == ages_shown(log@, now),
{
    let ages = log.time_since(now);
    let mut out = String::new();
    let mut i: usize = 0;
    proof {
        reveal_strlit(", ");
        assert(log@.take(0) =~= Seq::<LogRecord>::empty());
    }
    while i < ages.len()
        invariant
            i <= ages@.len(),
            ages@.len() == log@.len(),
            forall|j: int|
                0 <= j < log@.len() ==> (#[trigger] ages@[j]).as_nanos() == now.as_nanos()
                    - log@[j].time.as_nanos(),
            out@ == ages_shown(log@.take(i as int), now),
        decreases ages@.len() - i,
    {
        if i > 0 {
            out.append(", ");
        }
        let one = dur_format(ages[i]);
        out.append(one.as_str());
        proof {
            reveal_strlit(", ");
            let upto = log@.take(i + 1);
            assert(upto.drop_last() =~= log@.take(i as int));
            assert(upto.last() == log@[i as int]);
            assert(", "@ =~= seq![',', ' ']);
            if i == 0 {
                assert(upto[0] == log@[0]);
                assert(out@ =~= ages_shown(upto, now));
            } else {
                assert(out@ =~= ages_shown(upto, now));
            }
        }
        i += 1;
    }
    proof {
        assert(log@.take(log@.len() as int) =~= log@);
    }
    out
}

} // verus!
