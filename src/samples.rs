//! Small computations: Fibonacci numbers, temperature conversion, the
//! verses of a cumulative song, and the rounds of a number-guessing game.
use vstd::prelude::*;

verus! {

/// The Fibonacci sequence, with `fib(n) == n` for `n <= 1`.
pub open spec fn fib(n: int) -> int
    decreases n,
{
    if n <= 1 {
        n
    } else {
        fib(n - 1) + fib(n - 2)
    }
}

proof fn lemma_fib_monotone(n: int)
    requires
        n >= 0,
    ensures
        0 <= fib(n) <= fib(n + 1),
    decreases n,
{
    if n >= 1 {
        lemma_fib_monotone(n - 1);
    }
}

proof fn lemma_fib_bounded_by(m: int, n: int)
    requires
        0 <= m <= n,
    ensures
        fib(m) <= fib(n),
    decreases n - m,
{
    if m < n {
        lemma_fib_bounded_by(m, n - 1);
        lemma_fib_monotone(n - 1);
    }
}

proof fn lemma_fib_46()
    ensures
        fib(46) == 1836311903,
{
    assert(fib(0) == 0);
    assert(fib(1) == 1);
    assert(fib(2) == 1);
    assert(fib(3) == 2);
    assert(fib(4) == 3);
    assert(fib(5) == 5);
    assert(fib(6) == 8);
    assert(fib(7) == 13);
    assert(fib(8) == 21);
    assert(fib(9) == 34);
    assert(fib(10) == 55);
    assert(fib(11) == 89);
    assert(fib(12) == 144);
    assert(fib(13) == 233);
    assert(fib(14) == 377);
    assert(fib(15) == 610);
    assert(fib(16) == 987);
    assert(fib(17) == 1597);
    assert(fib(18) == 2584);
    assert(fib(19) == 4181);
    assert(fib(20) == 6765);
    assert(fib(21) == 10946);
    assert(fib(22) == 17711);
    assert(fib(23) == 28657);
    assert(fib(24) == 46368);
    assert(fib(25) == 75025);
    assert(fib(26) == 121393);
    assert(fib(27) == 196418);
    assert(fib(28) == 317811);
    assert(fib(29) == 514229);
    assert(fib(30) == 832040);
    assert(fib(31) == 1346269);
    assert(fib(32) == 2178309);
    assert(fib(33) == 3524578);
    assert(fib(34) == 5702887);
    assert(fib(35) == 9227465);
    assert(fib(36) == 14930352);
    assert(fib(37) == 24157817);
    assert(fib(38) == 39088169);
    assert(fib(39) == 63245986);
    assert(fib(40) == 102334155);
    assert(fib(41) == 165580141);
    assert(fib(42) == 267914296);
    assert(fib(43) == 433494437);
    assert(fib(44) == 701408733);
    assert(fib(45) == 1134903170);
    assert(fib(46) == 1836311903);
}

/// The `n`-th Fibonacci number, computed by the two-call recursion.
/// Inputs of one or less are returned as they are; from 47 on the
/// result no longer fits an `i32`.
pub fn nth_fibonacci_number(n: i32) -> (r: i32)
    requires
        n <= 46,
    ensures
        r == fib(n as int),
    decreases n,
{
    if n <= 1 {
        return n;
    }
    proof {
        lemma_fib_46();
        lemma_fib_bounded_by(n as int, 46);
        lemma_fib_monotone(n - 2);
    }
    let a: i32 = nth_fibonacci_number(n - 1);
    let b: i32 = nth_fibonacci_number(n - 2);
    a + b
}

/// Returns the fixed value nineteen.
pub fn i_am_returning_a_value() -> (r: i32)
    ensures
        r == 19,
{
    19
}

/// Integer division by a positive divisor, rounding toward zero as Rust's
/// `/` does.
pub open spec fn div_toward_zero(a: int, b: int) -> int
    recommends
        b > 0,
{
    if a >= 0 {
        a / b
    } else {
        -((-a) / b)
    }
}

/// Degrees Celsius to degrees Fahrenheit, `c * 9 / 5 + 32` in integers.
pub fn celsius_to_fahrenheit(c: i32) -> (f: i64)
    ensures
        f == div_toward_zero(c * 9, 5) + 32,
{
    let c9: i64 = c as i64 * 9;
    c9 / 5 + 32
}

/// Degrees Fahrenheit to degrees Celsius, `(f - 32) * 5 / 9` in integers.
pub fn fahrenheit_to_celsius(f: i32) -> (c: i64)
    ensures
        c == div_toward_zero((f - 32) * 5, 9),
{
    let d: i64 = (f as i64 - 32) * 5;
    d / 9
}

/// One line of a verse of the cumulative song: the opening line of the
/// verse of a day, the word "And", or the gift of a day.
#[derive(Clone, Copy, Debug, PartialEq, Eq, Structural)]
pub enum VerseLine {
    Opening(usize),
    And,
    Gift(usize),
}

/// The lines that announce the gift of day `i` within the verse of `day`:
/// from the second verse on, the first day's gift is preceded by "And".
pub open spec fn gift_lines(day: int, i: int) -> Seq<VerseLine> {
    if day > 0 && i == 0 {
        seq![VerseLine::And, VerseLine::Gift(0)]
    } else {
        seq![VerseLine::Gift(i as usize)]
    }
}

/// The gifts of days `i` down to 0.
pub open spec fn countdown(day: int, i: int) -> Seq<VerseLine>
    decreases i + 1,
{
    if i < 0 {
        Seq::empty()
    } else {
        gift_lines(day, i) + countdown(day, i - 1)
    }
}

/// The verse of day `day` (counted from 0): its opening line, then every
/// gift from that day's down to the first day's.
pub open spec fn verse_spec(day: int) -> Seq<VerseLine> {
    seq![VerseLine::Opening(day as usize)] + countdown(day, day)
}

/// The lines of the verse of day `day`, counted from 0.
pub fn verse(day: usize) -> (lines: Vec<VerseLine>)
    requires
        day < 12,
    ensures
        lines@ == verse_spec(day as int),
{
    let mut lines: Vec<VerseLine> = Vec::new();
    lines.push(VerseLine::Opening(day));
    let mut i: usize = day + 1;
    proof {
        assert(lines@ + countdown(day as int, day as int) =~= verse_spec(day as int));
    }
    while i > 0
        invariant
            i <= day + 1,
            day < 12,
            lines@ + countdown(day as int, i - 1) == verse_spec(day as int),
        decreases i,
    {
        i -= 1;
        let ghost before = lines@;
        if day > 0 && i == 0 {
            lines.push(VerseLine::And);
        }
        lines.push(VerseLine::Gift(i));
        proof {
            assert(lines@ =~= before + gift_lines(day as int, i as int));
            assert(before + countdown(day as int, i as int) =~= lines@ + countdown(
                day as int,
                i - 1,
            ));
        }
    }
    proof {
        assert(countdown(day as int, -1) =~= Seq::<VerseLine>::empty());
        assert(lines@ + Seq::<VerseLine>::empty() =~= lines@);
    }
    lines
}

/// How a guess compares with the secret number.
#[derive(Clone, Copy, Debug, PartialEq, Eq, Structural)]
pub enum GuessOutcome {
    TooSmall,
    TooBig,
    Win,
}

/// Judges one guess against the secret number.
pub fn judge_guess(guess: u32, secret: u32) -> (o: GuessOutcome)
    ensures
        guess < secret ==> o == GuessOutcome::TooSmall,
        guess > secret ==> o == GuessOutcome::TooBig,
        guess == secret ==> o == GuessOutcome::Win,
{
    if guess < secret {
        GuessOutcome::TooSmall
    } else if guess > secret {
        GuessOutcome::TooBig
    } else {
        GuessOutcome::Win
    }
}

/// Relies on rand's `thread_rng` and `Rng::gen_range` over an inclusive
/// range: the value drawn lies in the range. (`thread_rng` panics only
/// where the system's entropy source cannot be read.)
#[verifier::external_body]
fn draw_between(low: u32, high: u32) -> (r: u32)
    requires
        low <= high,
    ensures
        low <= r <= high,
{
    rand::Rng::gen_range(&mut rand::thread_rng(), low..=high)
}

/// Draws the secret number of a round, from 1 to 100.
pub fn secret_number() -> (r: u32)
    ensures
        1 <= r <= 100,
{
    draw_between(1, 100)
}

/// What `str::trim` leaves of `s`: `s` without its leading and trailing
/// whitespace.
pub uninterp spec fn trimmed(s: Seq<char>) -> Seq<char>;

/// Relies on `str::trim`: the result depends on the characters alone.
#[verifier::external_body]
fn trim_whitespace<'a>(s: &'a str) -> (r: &'a str)
    ensures
        r@ == trimmed(s@),
{
    s.trim()
}

pub open spec fn is_digit(c: char) -> bool {
    '0' <= c && c <= '9'
}

/// The number that a string of decimal digits writes.
pub open spec fn digits_value(d: Seq<char>) -> int
    decreases d.len(),
{
    if d.len() == 0 {
        0
    } else {
        digits_value(d.drop_last()) * 10 + (d.last() as int - '0' as int)
    }
}

/// The digits of `t`, without one leading plus sign.
pub open spec fn unsigned_digits(t: Seq<char>) -> Seq<char> {
    if t.len() > 0 && t[0] == '+' {
        t.drop_first()
    } else {
        t
    }
}

/// The `u32` that `t` writes in decimal: an optional plus sign, then one
/// digit or more, of a value that fits.
pub open spec fn decimal_value(t: Seq<char>) -> Option<u32> {
    let d = unsigned_digits(t);
    if d.len() > 0 && (forall|i: int| 0 <= i < d.len() ==> is_digit(#[trigger] d[i]))
        && digits_value(d) <= u32::MAX {
        Some(digits_value(d) as u32)
    } else {
        None
    }
}

proof fn lemma_digits_value_grows(d: Seq<char>, i: int)
    requires
        0 <= i <= d.len(),
        forall|k: int| 0 <= k < d.len() ==> is_digit(#[trigger] d[k]),
    ensures
        digits_value(d.subrange(0, i)) <= digits_value(d),
        0 <= digits_value(d.subrange(0, i)),
    decreases d.len() - i,
{
    if i < d.len() {
        lemma_digits_value_grows(d, i + 1);
        let p = d.subrange(0, i + 1);
        assert(p.drop_last() =~= d.subrange(0, i));
        assert(is_digit(p.last()));
    } else {
        assert(d.subrange(0, i) =~= d);
        lemma_digits_value_nonneg(d);
    }
}

proof fn lemma_digits_value_nonneg(d: Seq<char>)
    requires
        forall|k: int| 0 <= k < d.len() ==> is_digit(#[trigger] d[k]),
    ensures
        0 <= digits_value(d),
    decreases d.len(),
{
    if d.len() > 0 {
        lemma_digits_value_nonneg(d.drop_last());
        assert(is_digit(d[d.len() - 1]));
    }
}

/// Reads a number written in decimal, as `u32`'s `FromStr` does.
pub fn parse_decimal(t: &str) -> (r: Option<u32>)
    ensures
        r == decimal_value(t@),
{
    let n: usize = t.unicode_len();
    let mut i: usize = 0;
    if n > 0 && t.get_char(0) == '+' {
        i = 1;
    }
    let ghost d = unsigned_digits(t@);
    proof {
        if n > 0 && t@[0] == '+' {
            assert forall|k: int| 0 <= k < d.len() implies d[k] == t@[k + 1] by {}
        } else {
            assert(d == t@);
        }
    }
    let start: usize = i;
    if i == n {
        return None;
    }
    let mut acc: u64 = 0;
    while i < n
        invariant
            start <= i <= n,
            n == t@.len(),
            d == unsigned_digits(t@),
            d.len() == n - start,
            forall|k: int| 0 <= k < d.len() ==> d[k] == t@[k + start],
            forall|k: int| 0 <= k < i - start ==> is_digit(#[trigger] d[k]),
            acc == digits_value(d.subrange(0, i - start)),
            acc <= u32::MAX,
        decreases n - i,
    {
        let c = t.get_char(i);
        if !('0' <= c && c <= '9') {
            proof {
                assert(d[i - start] == c);
                assert(!is_digit(d[i - start]));
                assert(decimal_value(t@) is None);
            }
            return None;
        }
        let ghost p = d.subrange(0, i - start + 1);
        proof {
            assert(p.drop_last() =~= d.subrange(0, i - start));
            assert(p.last() == c);
        }
        acc = acc * 10 + (c as u64 - '0' as u64);
        proof {
            assert(acc == digits_value(p));
        }
        i += 1;
        if acc > 4294967295 {
            proof {
                if forall|k: int| 0 <= k < d.len() ==> is_digit(#[trigger] d[k]) {
                    lemma_digits_value_grows(d, i - start);
                    assert(d.subrange(0, i - start) == p);
                }
                assert(decimal_value(t@) is None);
            }
            return None;
        }
    }
    proof {
        assert(d.subrange(0, d.len() as int) =~= d);
    }
    Some(acc as u32)
}

/// Reads a guess as typed: surrounding whitespace is ignored, and what is
/// left must be a number that fits a `u32`.
pub fn parse_guess(s: &str) -> (r: Option<u32>)
    ensures
        r == decimal_value(trimmed(s@)),
{
    parse_decimal(trim_whitespace(s))
}

} // verus!
