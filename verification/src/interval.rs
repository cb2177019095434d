use crate::text;
use vstd::prelude::*;
use vstd::slice::slice_subrange;
use vstd::string::*;

verus! {

/// Shortest polling period accepted. The device answers a measurement request
/// over BLE, and below a few milliseconds the requests only queue up behind
/// replies that cannot arrive any faster, so the floor is a guard against a
/// value that would look like it worked while merely flooding the link.
pub const MIN_NANOS: u64 = 10_000_000;

/// Longest polling period accepted: a day.
pub const MAX_NANOS: u64 = 86_400_000_000_000;

/// What a count of nanoseconds must stay below for its seconds to fit in 64
/// bits.
pub const NANOS_LIMIT: u128 = 18_446_744_073_709_551_616_000_000_000;

/// How long to wait between measurement requests, in nanoseconds.
///
/// A type of its own, so that "positive and not absurdly small" is established
/// once: the value becomes the period of a timer, which cannot run with a
/// period of zero.
#[derive(Clone, Copy, Debug, PartialEq, Eq, Structural)]
pub struct Interval {
    nanos: u64,
}

/// Why a text is not an interval.
#[derive(Clone, Copy, Debug, PartialEq, Eq, Structural)]
pub enum IntervalError {
    NotANumber,
    Negative,
    TooBigOrNan,
    TooShort,
    TooLong,
}

/// A number as it may be written.
pub enum Amount {
    /// `mantissa` times ten to the power of `exponent`, negated where
    /// `negative` holds.
    Number { negative: bool, mantissa: nat, exponent: int },
    Infinite { negative: bool },
    Nan,
}

/// `mantissa` times ten to the power of `exponent`.
pub struct Decimal {
    pub mantissa: nat,
    pub exponent: int,
}

/// Ten to the power of `n`.
pub open spec fn ten(n: nat) -> nat
    decreases n,
{
    if n == 0 {
        1
    } else {
        10 * ten((n - 1) as nat)
    }
}

pub open spec fn is_digit(c: char) -> bool {
    '0' <= c <= '9'
}

/// The number that decimal digits spell.
pub open spec fn value(s: Seq<char>) -> nat
    decreases s.len(),
{
    if s.len() == 0 {
        0
    } else {
        (value(s.drop_last()) * 10 + (s.last() as u32 - '0' as u32)) as nat
    }
}

/// How many digits `s` starts with.
pub open spec fn digit_run(s: Seq<char>) -> nat
    decreases s.len(),
{
    if s.len() > 0 && is_digit(s[0]) {
        1 + digit_run(s.drop_first())
    } else {
        0
    }
}

/// `c` in lower case, where it is an ASCII letter.
pub open spec fn lower(c: char) -> char {
    if 'A' <= c <= 'Z' {
        (c as u32 + 32) as char
    } else {
        c
    }
}

/// Whether `s` spells `word` but for the case of its ASCII letters.
pub open spec fn spells(s: Seq<char>, word: Seq<char>) -> bool {
    s.len() == word.len() && forall|i: int| 0 <= i < s.len() ==> lower(#[trigger] s[i]) == word[i]
}

/// What `s` says after a sign: whether it is `-`, and what is left.
pub open spec fn signed(s: Seq<char>) -> (bool, Seq<char>) {
    if s.len() > 0 && (s[0] == '+' || s[0] == '-') {
        (s[0] == '-', s.drop_first())
    } else {
        (false, s)
    }
}

/// What `s` says as an exponent: nothing, or `e`, a sign if there is one, and
/// digits.
pub open spec fn exponent(s: Seq<char>) -> Option<int> {
    if s.len() == 0 {
        Some(0)
    } else if s[0] == 'e' || s[0] == 'E' {
        let (negative, rest) = signed(s.drop_first());
        if rest.len() > 0 && digit_run(rest) == rest.len() {
            Some(
                if negative {
                    -value(rest)
                } else {
                    value(rest) as int
                },
            )
        } else {
            None
        }
    } else {
        None
    }
}

/// What `s` says as a number without a sign: digits, with a point somewhere
/// among them if there is one, and an exponent.
pub open spec fn unsigned_number(s: Seq<char>) -> Option<Decimal> {
    let a = digit_run(s) as int;
    let pointed = a < s.len() && s[a] == '.';
    let b = if pointed {
        digit_run(s.skip(a + 1)) as int
    } else {
        0
    };
    let rest = if pointed {
        s.skip(a + 1 + b)
    } else {
        s.skip(a)
    };
    match exponent(rest) {
        Some(e) if a + b > 0 => Some(
            Decimal {
                mantissa: value(
                    if pointed {
                        s.take(a) + s.subrange(a + 1, a + 1 + b)
                    } else {
                        s.take(a)
                    },
                ),
                exponent: e - b,
            },
        ),
        _ => None,
    }
}

/// What `s` says as a number.
pub open spec fn amount(s: Seq<char>) -> Option<Amount> {
    let (negative, rest) = signed(s);
    if spells(rest, "inf"@) || spells(rest, "infinity"@) {
        Some(Amount::Infinite { negative })
    } else if spells(rest, "nan"@) {
        Some(Amount::Nan)
    } else {
        match unsigned_number(rest) {
            Some(Decimal { mantissa, exponent }) => Some(Amount::Number { negative, mantissa, exponent }),
            None => None,
        }
    }
}

/// `a / b` to the nearest integer, and to the even one of two that are equally
/// near.
pub open spec fn rounded(a: nat, b: nat) -> nat {
    let (q, r) = (a / b, a % b);
    if 2 * r > b || (2 * r == b && q % 2 == 1) {
        q + 1
    } else {
        q
    }
}

/// `mantissa` times ten to the power of `exponent`, to the nearest integer.
pub open spec fn scaled(mantissa: nat, exponent: int) -> nat {
    if exponent >= 0 {
        mantissa * ten(exponent as nat)
    } else {
        rounded(mantissa, ten((-exponent) as nat))
    }
}

/// The text of a number and the power of ten by which it counts nanoseconds:
/// seconds, or milliseconds after `ms`.
pub open spec fn unit(s: Seq<char>) -> (Seq<char>, int) {
    if s.len() >= 2 && s[s.len() - 2] == 'm' && s.last() == 's' {
        (s.take(s.len() - 2), 6)
    } else if s.len() >= 1 && s.last() == 's' {
        (s.drop_last(), 9)
    } else {
        (s, 9)
    }
}

/// The nanoseconds that a number of units makes.
pub open spec fn nanos_of(a: Option<Amount>, power: int) -> Result<u64, IntervalError> {
    match a {
        None => Err(IntervalError::NotANumber),
        Some(Amount::Nan) => Err(IntervalError::TooBigOrNan),
        Some(Amount::Infinite { negative }) => Err(
            if negative {
                IntervalError::Negative
            } else {
                IntervalError::TooBigOrNan
            },
        ),
        Some(Amount::Number { negative, mantissa, exponent }) => {
            let n = scaled(mantissa, exponent + power);
            if negative && mantissa > 0 {
                Err(IntervalError::Negative)
            } else if n >= NANOS_LIMIT {
                Err(IntervalError::TooBigOrNan)
            } else if n < MIN_NANOS {
                Err(IntervalError::TooShort)
            } else if n > MAX_NANOS {
                Err(IntervalError::TooLong)
            } else {
                Ok(n as u64)
            }
        },
    }
}

/// What `s` says as an interval: seconds (`1`, `0.5`, `2s`) or milliseconds
/// (`500ms`).
pub open spec fn parsed(s: Seq<char>) -> Result<u64, IntervalError> {
    let (number, power) = unit(text::trim(s));
    nanos_of(amount(text::trim(number)), power)
}

proof fn lemma_ten_positive(n: nat)
    ensures
        ten(n) >= 1,
    decreases n,
{
    if n > 0 {
        lemma_ten_positive((n - 1) as nat);
    }
}

proof fn lemma_ten_sum(a: nat, b: nat)
    ensures
        ten(a + b) == ten(a) * ten(b),
    decreases b,
{
    if b > 0 {
        lemma_ten_sum(a, (b - 1) as nat);
        let (x, y) = (ten(a), ten((b - 1) as nat));
        assert(10 * (x * y) == x * (10 * y)) by (nonlinear_arith);
    } else {
        assert(ten(a) * 1 == ten(a));
    }
}

proof fn lemma_ten_grows(a: nat, b: nat)
    requires
        a <= b,
    ensures
        ten(a) <= ten(b),
    decreases b,
{
    if a < b {
        lemma_ten_grows(a, (b - 1) as nat);
    }
}

spec fn all_digits(s: Seq<char>) -> bool {
    forall|i: int| 0 <= i < s.len() ==> is_digit(#[trigger] s[i])
}

proof fn lemma_digit_run(s: Seq<char>)
    ensures
        digit_run(s) <= s.len(),
        all_digits(s.take(digit_run(s) as int)),
        digit_run(s) < s.len() ==> !is_digit(s[digit_run(s) as int]),
    decreases s.len(),
{
    if s.len() > 0 && is_digit(s[0]) {
        let t = s.drop_first();
        lemma_digit_run(t);
        let n = digit_run(s);
        assert forall|i: int| 0 <= i < n implies is_digit(#[trigger] s.take(n as int)[i]) by {
            if i > 0 {
                assert(t.take(n - 1)[i - 1] == s[i]);
            }
        }
    }
}

/// Digits before anything else make up the run.
proof fn lemma_digit_run_of(d: Seq<char>, rest: Seq<char>)
    requires
        all_digits(d),
        rest.len() > 0 ==> !is_digit(rest[0]),
    ensures
        digit_run(d + rest) == d.len(),
    decreases d.len(),
{
    if d.len() == 0 {
        assert(d + rest =~= rest);
    } else {
        assert(d[0] == (d + rest)[0]);
        assert((d + rest).drop_first() =~= d.drop_first() + rest);
        assert forall|i: int| 0 <= i < d.len() - 1 implies is_digit(
            #[trigger] d.drop_first()[i],
        ) by {
            assert(is_digit(d[i + 1]));
        }
        lemma_digit_run_of(d.drop_first(), rest);
    }
}

proof fn lemma_value_bound(s: Seq<char>)
    requires
        all_digits(s),
    ensures
        value(s) < ten(s.len()),
    decreases s.len(),
{
    if s.len() > 0 {
        let t = s.drop_last();
        assert forall|i: int| 0 <= i < t.len() implies is_digit(#[trigger] t[i]) by {
            assert(is_digit(s[i]));
        }
        assert(is_digit(s[s.len() - 1]));
        lemma_value_bound(t);
    }
}

proof fn lemma_value_sum(a: Seq<char>, b: Seq<char>)
    requires
        all_digits(b),
    ensures
        value(a + b) == value(a) * ten(b.len()) + value(b),
    decreases b.len(),
{
    if b.len() == 0 {
        assert(a + b =~= a);
        assert(value(a) * 1 == value(a));
    } else {
        let t = b.drop_last();
        assert((a + b).drop_last() =~= a + t);
        assert((a + b).last() == b.last());
        assert forall|i: int| 0 <= i < t.len() implies is_digit(#[trigger] t[i]) by {
            assert(is_digit(b[i]));
        }
        assert(is_digit(b[b.len() - 1]));
        lemma_value_sum(a, t);
        let (x, p) = (value(a), ten(t.len()));
        assert(10 * (x * p) == x * (10 * p)) by (nonlinear_arith);
    }
}

fn is_decimal_digit(c: char) -> (b: bool)
    ensures
        b == is_digit(c),
{
    '0' <= c && c <= '9'
}

fn run(s: &[char]) -> (n: usize)
    ensures
        n == digit_run(s@),
        n <= s@.len(),
{
    let mut i: usize = 0;
    proof {
        assert(s@.skip(0) =~= s@);
    }
    while i < s.len() && is_decimal_digit(s[i])
        invariant
            i <= s@.len(),
            digit_run(s@) == i + digit_run(s@.skip(i as int)),
        decreases s@.len() - i,
    {
        proof {
            assert(s@.skip(i as int).drop_first() =~= s@.skip(i + 1));
        }
        i = i + 1;
    }
    i
}

fn to_lower(c: char) -> (l: char)
    ensures
        l == lower(c),
{
    if 'A' <= c && c <= 'Z' {
        (c as u8 + 32) as char
    } else {
        c
    }
}

fn spelled(s: &[char], word: &str) -> (b: bool)
    ensures
        b == spells(s@, word@),
{
    let w = text::chars(word);
    if s.len() != w.len() {
        return false;
    }
    let mut i: usize = 0;
    while i < s.len()
        invariant
            i <= s@.len(),
            s@.len() == w@.len(),
            w@ == word@,
            forall|j: int| 0 <= j < i ==> lower(#[trigger] s@[j]) == w@[j],
        decreases s@.len() - i,
    {
        if to_lower(s[i]) != w[i] {
            assert(lower(s@[i as int]) != word@[i as int]);
            return false;
        }
        i = i + 1;
    }
    true
}

/// Where the value of an exponent stops being counted.
const EXPONENT_CAP: u128 = 1_000_000_000_000_000_000_000_000_000_000_000_000;

/// The value of `s`, or the cap where it is more.
fn capped_value(s: &[char], cap: u128) -> (n: u128)
    requires
        all_digits(s@),
        1 <= cap <= EXPONENT_CAP,
    ensures
        n == (if value(s@) < cap {
            value(s@) as int
        } else {
            cap as int
        }),
{
    let mut n: u128 = 0;
    let mut i: usize = 0;
    while i < s.len()
        invariant
            i <= s@.len(),
            all_digits(s@),
            1 <= cap <= EXPONENT_CAP,
            n <= cap,
            n == (if value(s@.take(i as int)) < cap {
                value(s@.take(i as int)) as int
            } else {
                cap as int
            }),
        decreases s@.len() - i,
    {
        proof {
            assert(s@.take(i + 1).drop_last() =~= s@.take(i as int));
            assert(is_digit(s@[i as int]));
        }
        let d: u128 = s[i] as u128 - '0' as u128;
        let next: u128 = n * 10 + d;
        n = if next < cap {
            next
        } else {
            cap
        };
        i = i + 1;
    }
    proof {
        assert(s@.take(i as int) =~= s@);
    }
    n
}

/// Two exponents that are the same, or both beyond the cap on the same side.
spec fn near(exact: int, counted: int) -> bool {
    let cap = EXPONENT_CAP as int;
    ||| exact == counted
    ||| exact >= cap && counted == cap
    ||| exact <= -cap && counted == -cap
}

fn read_sign(s: &[char]) -> (r: (bool, &[char]))
    ensures
        (r.0, r.1@) == signed(s@),
        r.1@.len() <= s@.len(),
{
    if s.len() > 0 && (s[0] == '+' || s[0] == '-') {
        proof {
            assert(s@.drop_first() =~= s@.subrange(1, s@.len() as int));
        }
        (s[0] == '-', slice_subrange(s, 1, s.len()))
    } else {
        (false, s)
    }
}

fn read_exponent(s: &[char]) -> (r: Option<i128>)
    ensures
        r is Some <==> exponent(s@) is Some,
        r matches Some(e) ==> near(exponent(s@)->0, e as int) && -EXPONENT_CAP <= e
            <= EXPONENT_CAP,
{
    if s.len() == 0 {
        return Some(0);
    }
    if s[0] != 'e' && s[0] != 'E' {
        return None;
    }
    proof {
        assert(s@.drop_first() =~= s@.subrange(1, s@.len() as int));
    }
    let (negative, rest) = read_sign(slice_subrange(s, 1, s.len()));
    if rest.len() == 0 || run(rest) != rest.len() {
        return None;
    }
    proof {
        lemma_digit_run(rest@);
        assert(rest@.take(rest@.len() as int) =~= rest@);
    }
    let n: u128 = capped_value(rest, EXPONENT_CAP);
    Some(
        if negative {
            -(n as i128)
        } else {
            n as i128
        },
    )
}

/// A number as digits, with the power of ten of the last of them.
struct Digits {
    digits: Vec<char>,
    power: i128,
}

fn read_number(s: &[char]) -> (r: Option<Digits>)
    ensures
        r is Some <==> unsigned_number(s@) is Some,
        r matches Some(d) ==> {
            &&& all_digits(d.digits@)
            &&& d.digits@.len() > 0
            &&& value(d.digits@) == unsigned_number(s@)->0.mantissa
            &&& exists|e: int, c: int, b: nat|
                {
                    &&& #[trigger] near(e, c)
                    &&& -EXPONENT_CAP <= c <= EXPONENT_CAP
                    &&& b <= d.digits@.len()
                    &&& unsigned_number(s@)->0.exponent == e - b
                    &&& #[trigger] (c - b) == d.power
                }
        },
{
    let a: usize = run(s);
    proof {
        lemma_digit_run(s@);
        assert(s@.take(a as int) =~= s@.subrange(0, a as int));
        assert(s@.skip(a as int) =~= s@.subrange(a as int, s@.len() as int));
    }
    let mut digits: Vec<char> = Vec::new();
    append_all(&mut digits, slice_subrange(s, 0, a));
    proof {
        assert(digits@ =~= s@.take(a as int));
    }
    let mut b: usize = 0;
    let rest: &[char];
    if a < s.len() && s[a] == '.' {
        let tail = slice_subrange(s, a + 1, s.len());
        proof {
            assert(s@.skip(a + 1) =~= tail@);
            lemma_digit_run(tail@);
        }
        b = run(tail);
        proof {
            assert(s@.subrange(a + 1, a + 1 + b) =~= tail@.subrange(0, b as int));
            assert(tail@.take(b as int) =~= tail@.subrange(0, b as int));
            assert(s@.skip(a + 1 + b) =~= tail@.subrange(b as int, tail@.len() as int));
        }
        append_all(&mut digits, slice_subrange(tail, 0, b));
        rest = slice_subrange(tail, b, tail.len());
        proof {
            assert(digits@ == s@.take(a as int) + s@.subrange(a + 1, a + 1 + b));
            assert forall|i: int| 0 <= i < digits@.len() implies is_digit(
                #[trigger] digits@[i],
            ) by {
                if i < a {
                    assert(digits@[i] == s@.take(a as int)[i]);
                } else {
                    assert(digits@[i] == tail@.take(b as int)[i - a]);
                }
            }
        }
    } else {
        rest = slice_subrange(s, a, s.len());
    }
    match read_exponent(rest) {
        Some(c) => {
            if digits.len() == 0 {
                return None;
            }
            proof {
                assert(near(exponent(rest@)->0, c as int));
                assert((c as int - b as nat) == c - b);
            }
            Some(Digits { digits, power: c - b as i128 })
        },
        None => None,
    }
}

fn append_all(v: &mut Vec<char>, s: &[char])
    ensures
        final(v)@ == old(v)@ + s@,
{
    let ghost before = v@;
    let mut i: usize = 0;
    while i < s.len()
        invariant
            i <= s@.len(),
            v@ == before + s@.take(i as int),
        decreases s@.len() - i,
    {
        v.push(s[i]);
        i = i + 1;
    }
    proof {
        assert(s@.take(i as int) =~= s@);
    }
}

/// `n`, or the limit where it is more.
spec fn limited(n: nat) -> nat {
    if n < NANOS_LIMIT {
        n
    } else {
        NANOS_LIMIT as nat
    }
}

fn times_ten(start: u128, power: u128) -> (n: u128)
    requires
        start <= NANOS_LIMIT,
    ensures
        n == limited(start as nat * ten(power as nat)),
{
    let mut n: u128 = start;
    let mut i: u128 = 0;
    proof {
        let one = ten(0);
        assert(start as nat * one == start) by (nonlinear_arith)
            requires
                one == 1,
        ;
        assert(0 * ten(power as nat) == 0);
    }
    if n == 0 {
        return 0;
    }
    while i < power && n < NANOS_LIMIT
        invariant
            1 <= start <= NANOS_LIMIT,
            1 <= n <= NANOS_LIMIT,
            i <= power,
            n == limited(start as nat * ten(i as nat)),
        decreases NANOS_LIMIT - n,
    {
        proof {
            let (a, b) = (start as nat, ten(i as nat));
            assert(10 * (a * b) == a * (10 * b)) by (nonlinear_arith);
        }
        let next: u128 = n * 10;
        n = if next < NANOS_LIMIT {
            next
        } else {
            NANOS_LIMIT
        };
        i = i + 1;
    }
    proof {
        lemma_ten_grows(i as nat, power as nat);
        let (a, b, c) = (start as nat, ten(i as nat), ten(power as nat));
        assert(a * b <= a * c) by (nonlinear_arith)
            requires
                b <= c,
                0 <= a,
        ;
    }
    n
}

proof fn lemma_rounds_to_zero(v: nat, len: nat, k: nat)
    requires
        v < ten(len),
        k > len,
    ensures
        rounded(v, ten(k)) == 0,
{
    lemma_ten_grows(len, (k - 1) as nat);
    assert(2 * v < ten(k));
    vstd::arithmetic::div_mod::lemma_basic_div(v as int, ten(k) as int);
    vstd::arithmetic::div_mod::lemma_small_mod(v, ten(k));
}

/// How a number whose first fractional digit is `d` rounds.
proof fn lemma_rounding(int_part: nat, d: nat, rest: nat, p: nat, whole: nat)
    requires
        p >= 1,
        d < 10,
        rest < p,
        whole == int_part * (10 * p) + (d * p + rest),
    ensures
        rounded(whole, 10 * p) == (if d > 5 || (d == 5 && (rest > 0 || int_part % 2 == 1)) {
            int_part + 1
        } else {
            int_part
        }),
{
    let r = (d * p + rest) as nat;
    assert(d * p <= 9 * p) by (nonlinear_arith)
        requires
            d <= 9,
    ;
    assert(r < 10 * p);
    vstd::arithmetic::div_mod::lemma_fundamental_div_mod_converse(
        whole as int,
        (10 * p) as int,
        int_part as int,
        r as int,
    );
    if d > 5 {
        assert(d * p >= 6 * p) by (nonlinear_arith)
            requires
                d >= 6,
        ;
    } else if d < 5 {
        assert(d * p <= 4 * p) by (nonlinear_arith)
            requires
                d <= 4,
        ;
    }
}

/// How digits round to those before `j`.
proof fn lemma_split(digits: Seq<char>, j: int)
    requires
        all_digits(digits),
        0 <= j < digits.len(),
    ensures
        all_digits(digits.subrange(0, j)),
        all_digits(digits.subrange(j + 1, digits.len() as int)),
        is_digit(digits[j]),
        ({
            let head = value(digits.subrange(0, j));
            let rest = value(digits.subrange(j + 1, digits.len() as int));
            rounded(value(digits), ten((digits.len() - j) as nat)) == (if digits[j] > '5' || (
            digits[j] == '5' && (rest > 0 || head % 2 == 1)) {
                head + 1
            } else {
                head
            })
        }),
{
    let head = digits.subrange(0, j);
    let tail = digits.subrange(j, digits.len() as int);
    let rest = digits.subrange(j + 1, digits.len() as int);
    let first = seq![digits[j]];
    assert(digits =~= head + tail);
    assert(tail =~= first + rest);
    assert forall|i: int| 0 <= i < head.len() implies is_digit(#[trigger] head[i]) by {
        assert(is_digit(digits[i]));
    }
    assert forall|i: int| 0 <= i < tail.len() implies is_digit(#[trigger] tail[i]) by {
        assert(is_digit(digits[i + j]));
    }
    assert forall|i: int| 0 <= i < rest.len() implies is_digit(#[trigger] rest[i]) by {
        assert(is_digit(digits[i + j + 1]));
    }
    assert(is_digit(digits[j]));
    lemma_value_sum(head, tail);
    lemma_value_sum(first, rest);
    assert(first.drop_last() =~= Seq::empty());
    assert(value(Seq::<char>::empty()) == 0);
    let d = (digits[j] as u32 - '0' as u32) as nat;
    assert(value(first) == d);
    lemma_value_bound(rest);
    lemma_ten_positive(rest.len());
    assert(ten(tail.len()) == 10 * ten(rest.len()));
    lemma_rounding(value(head), d, value(rest), ten(rest.len()), value(digits));
}

fn scale(digits: &[char], power: i128) -> (n: u128)
    requires
        all_digits(digits@),
        -2 * EXPONENT_CAP <= power <= 2 * EXPONENT_CAP,
    ensures
        n == limited(scaled(value(digits@), power as int)),
{
    if power >= 0 {
        let start: u128 = capped_value(digits, NANOS_LIMIT);
        proof {
            let (v, t) = (value(digits@), ten(power as nat));
            lemma_ten_positive(power as nat);
            if v >= NANOS_LIMIT {
                assert(v * t >= v) by (nonlinear_arith)
                    requires
                        t >= 1,
                ;
                assert(NANOS_LIMIT as nat * t >= NANOS_LIMIT as nat) by (nonlinear_arith)
                    requires
                        t >= 1,
                ;
            }
        }
        return times_ten(start, power as u128);
    }
    let k: u128 = (-power) as u128;
    if k > digits.len() as u128 {
        proof {
            lemma_value_bound(digits@);
            lemma_rounds_to_zero(value(digits@), digits@.len(), k as nat);
        }
        return 0;
    }
    let j: usize = digits.len() - k as usize;
    let (head, rest) = (slice_subrange(digits, 0, j), slice_subrange(digits, j + 1, digits.len()));
    proof {
        lemma_split(digits@, j as int);
    }
    let n: u128 = capped_value(head, NANOS_LIMIT);
    let d: char = digits[j];
    let above: bool = capped_value(rest, 1) != 0;
    if n < NANOS_LIMIT && (d > '5' || (d == '5' && (above || n % 2 == 1))) {
        n + 1
    } else {
        n
    }
}

/// What is beyond the cap of an exponent makes no difference.
proof fn lemma_near(v: nat, len: nat, exact: int, counted: int, shift: int)
    requires
        v < ten(len),
        len <= usize::MAX,
        near(exact, counted),
        -(usize::MAX as int) <= shift <= 9,
    ensures
        limited(scaled(v, exact + shift)) == limited(scaled(v, counted + shift)),
{
    if exact != counted {
        if counted > 0 {
            lemma_beyond(v, exact + shift);
            lemma_beyond(v, counted + shift);
        } else {
            lemma_rounds_to_zero(v, len, (-(exact + shift)) as nat);
            lemma_rounds_to_zero(v, len, (-(counted + shift)) as nat);
        }
    }
}

proof fn lemma_beyond(v: nat, power: int)
    requires
        power >= 29,
    ensures
        limited(scaled(v, power)) == (if v == 0 {
            0
        } else {
            NANOS_LIMIT as nat
        }),
{
    lemma_ten_grows(29, power as nat);
    reveal_with_fuel(ten, 31);
    let t = ten(power as nat);
    if v == 0 {
        assert(0 * t == 0);
    } else {
        assert(v * t >= t) by (nonlinear_arith)
            requires
                v >= 1,
        ;
    }
}

impl Interval {
    /// Whether the interval is one of those that are accepted.
    pub open spec fn wf(self) -> bool {
        MIN_NANOS <= self.nanos() <= MAX_NANOS
    }

    /// Every interval that exists is one of those that are accepted.
    #[verifier::type_invariant]
    spec fn accepted(self) -> bool {
        self.wf()
    }

    /// The interval in nanoseconds.
    pub closed spec fn nanos(self) -> u64 {
        self.nanos
    }

    /// The interval of `nanos` nanoseconds.
    pub closed spec fn of(nanos: u64) -> Interval {
        Interval { nanos }
    }

    /// An interval is what it is in nanoseconds.
    pub broadcast proof fn of_nanos(nanos: u64)
        ensures
            (#[trigger] Interval::of(nanos)).nanos() == nanos,
    {
    }

    /// The interval in nanoseconds.
    pub fn duration(self) -> (n: u64)
        ensures
            n == self.nanos(),
            self.wf(),
    {
        proof {
            use_type_invariant(&self);
        }
        self.nanos
    }

    /// An interval of `nanos` nanoseconds, where it is one of those that are
    /// accepted.
    pub fn from_nanos(nanos: u64) -> (r: Option<Interval>)
        ensures
            r is Some <==> MIN_NANOS <= nanos <= MAX_NANOS,
            r matches Some(i) ==> i == Interval::of(nanos) && i.wf(),
    {
        if MIN_NANOS <= nanos && nanos <= MAX_NANOS {
            Some(Interval { nanos })
        } else {
            None
        }
    }

    /// One second.
    pub fn default_interval() -> (i: Interval)
        ensures
            i.wf(),
            i == Interval::of(1_000_000_000),
    {
        Interval { nanos: 1_000_000_000 }
    }
}

fn read_nanos(s: &[char], power: i128) -> (r: Result<Interval, IntervalError>)
    requires
        power == 6 || power == 9,
    ensures
        r is Ok <==> nanos_of(amount(s@), power as int) is Ok,
        r matches Ok(i) ==> i.wf() && i == Interval::of(nanos_of(amount(s@), power as int)->Ok_0),
        r matches Err(e) ==> e == nanos_of(amount(s@), power as int)->Err_0,
{
    let (negative, rest) = read_sign(s);
    if spelled(rest, "inf") || spelled(rest, "infinity") {
        return Err(
            if negative {
                IntervalError::Negative
            } else {
                IntervalError::TooBigOrNan
            },
        );
    }
    if spelled(rest, "nan") {
        return Err(IntervalError::TooBigOrNan);
    }
    let d = match read_number(rest) {
        Some(d) => d,
        None => return Err(IntervalError::NotANumber),
    };
    let digits = d.digits.as_slice();
    if negative && capped_value(digits, 1) != 0 {
        return Err(IntervalError::Negative);
    }
    let count: usize = digits.len();
    assert(digits@.len() == count <= usize::MAX);
    let n: u128 = scale(digits, d.power + power);
    proof {
        let exact = unsigned_number(rest@)->0.exponent;
        let (e, c, b) = choose|e: int, c: int, b: nat|
            {
                &&& #[trigger] near(e, c)
                &&& -EXPONENT_CAP <= c <= EXPONENT_CAP
                &&& b <= digits@.len()
                &&& exact == e - b
                &&& #[trigger] (c - b) == d.power
            };
        lemma_value_bound(digits@);
        lemma_near(value(digits@), digits@.len(), e, c, power - b);
        assert(exact + power == e + (power - b));
        assert(d.power + power == c + (power - b));
    }
    if n >= NANOS_LIMIT {
        Err(IntervalError::TooBigOrNan)
    } else if n < MIN_NANOS as u128 {
        Err(IntervalError::TooShort)
    } else if n > MAX_NANOS as u128 {
        Err(IntervalError::TooLong)
    } else {
        Ok(Interval { nanos: n as u64 })
    }
}

/// Read an interval.
pub fn parse_interval(s: &str) -> (r: Result<Interval, IntervalError>)
    ensures
        r is Ok <==> parsed(s@) is Ok,
        r matches Ok(i) ==> i.wf() && i == Interval::of(parsed(s@)->Ok_0),
        r matches Err(e) ==> e == parsed(s@)->Err_0,
{
    let cs = text::chars(s);
    let t = text::trimmed(cs.as_slice());
    let n: usize = t.len();
    // `ms` first: taking the `s` alone would leave a trailing `m`.
    if n >= 2 && t[n - 2] == 'm' && t[n - 1] == 's' {
        proof {
            assert(t@.take(n - 2) =~= t@.subrange(0, n - 2));
        }
        read_nanos(text::trimmed(slice_subrange(t, 0, n - 2)), 6)
    } else if n >= 1 && t[n - 1] == 's' {
        proof {
            assert(t@.drop_last() =~= t@.subrange(0, n - 1));
        }
        read_nanos(text::trimmed(slice_subrange(t, 0, n - 1)), 9)
    } else {
        read_nanos(text::trimmed(t), 9)
    }
}

/// A fraction after its point, without trailing zeros; nothing where it is
/// zero. `f` counts units of which ten to the power of `width` make one.
pub open spec fn fraction(f: nat, width: nat) -> Seq<char>
    decreases f,
{
    if f == 0 {
        Seq::empty()
    } else if f % 10 == 0 && width > 0 {
        fraction(f / 10, (width - 1) as nat)
    } else {
        seq!['.'] + text::pad(text::decimal(f), width)
    }
}

/// An interval of `n` nanoseconds, in seconds or milliseconds.
pub open spec fn nanos_text(n: nat) -> Seq<char> {
    if n >= 1_000_000_000 {
        text::decimal(n / 1_000_000_000) + fraction(n % 1_000_000_000, 9) + "s"@
    } else {
        text::decimal(n / 1_000_000) + fraction(n % 1_000_000, 6) + "ms"@
    }
}

fn fraction_string(f: u64, width: usize) -> (s: String)
    ensures
        s@ == fraction(f as nat, width as nat),
{
    if f == 0 {
        return String::new();
    }
    let mut g: u64 = f;
    let mut w: usize = width;
    while g % 10 == 0 && w > 0
        invariant
            g > 0,
            fraction(f as nat, width as nat) == fraction(g as nat, w as nat),
        decreases g,
    {
        g = g / 10;
        w = w - 1;
    }
    let mut s = String::new();
    s.push('.');
    s.append(text::padded_string(g, 10, w).as_str());
    assert(s@ =~= seq!['.'] + text::pad(text::decimal(g as nat), w as nat));
    s
}

impl Interval {
    /// The interval in words: `1s`, `500ms`, `1.5s`.
    pub open spec fn text(self) -> Seq<char> {
        nanos_text(self.nanos() as nat)
    }

    /// Write the interval: `1s`, `500ms`, `1.5s`.
    pub fn display(self) -> (s: String)
        ensures
            s@ == self.text(),
    {
        nanos_string(self.nanos as u128)
    }
}

/// Write a span of `n` nanoseconds, in seconds or milliseconds.
pub fn nanos_string(n: u128) -> (s: String)
    requires
        n < NANOS_LIMIT,
    ensures
        s@ == nanos_text(n as nat),
{
    if n >= 1_000_000_000 {
        let mut s = text::decimal_string((n / 1_000_000_000) as u64);
        s.append(fraction_string((n % 1_000_000_000) as u64, 9).as_str());
        s.append("s");
        s
    } else {
        let mut s = text::decimal_string((n / 1_000_000) as u64);
        s.append(fraction_string((n % 1_000_000) as u64, 6).as_str());
        s.append("ms");
        s
    }
}

impl IntervalError {
    /// What is wrong with `given`, in words.
    pub open spec fn text(self, given: Seq<char>) -> Seq<char> {
        let q = text::quoted_text(given);
        match self {
            IntervalError::NotANumber => "invalid interval "@ + q
                + ": expected 0.5, 500ms, or 2s"@,
            IntervalError::Negative => "invalid interval "@ + q
                + ": cannot convert float seconds to Duration: value is negative"@,
            IntervalError::TooBigOrNan => "invalid interval "@ + q
                + ": cannot convert float seconds to Duration: value is either too big or NaN"@,
            IntervalError::TooShort => "interval "@ + q + " is shorter than the 10ms minimum"@,
            IntervalError::TooLong => "interval "@ + q + " is longer than the 86400s maximum"@,
        }
    }

    /// What is wrong with `given`, in words.
    pub fn message(self, given: &str) -> (s: String)
        ensures
            s@ == self.text(given@),
    {
        let q = text::quoted(given);
        let short = matches!(self, IntervalError::TooShort | IntervalError::TooLong);
        let mut s = if short {
            "interval ".to_owned()
        } else {
            "invalid interval ".to_owned()
        };
        s.append(q.as_str());
        match self {
            IntervalError::NotANumber => s.append(": expected 0.5, 500ms, or 2s"),
            IntervalError::Negative => s.append(
                ": cannot convert float seconds to Duration: value is negative",
            ),
            IntervalError::TooBigOrNan => s.append(
                ": cannot convert float seconds to Duration: value is either too big or NaN",
            ),
            IntervalError::TooShort => s.append(" is shorter than the 10ms minimum"),
            IntervalError::TooLong => s.append(" is longer than the 86400s maximum"),
        }
        s
    }
}

proof fn lemma_decimal(n: nat)
    ensures
        all_digits(text::decimal(n)),
        value(text::decimal(n)) == n,
        text::decimal(n).len() > 0,
    decreases n,
{
    let s = text::decimal(n);
    if n < 10 {
        assert(s.drop_last() =~= Seq::empty());
        assert(value(Seq::<char>::empty()) == 0);
        assert(s.last() == text::digit_char(n));
    } else {
        let t = text::decimal(n / 10);
        lemma_decimal(n / 10);
        assert(s.drop_last() =~= t);
        assert(s.last() == text::digit_char(n % 10));
        assert forall|i: int| 0 <= i < s.len() implies is_digit(#[trigger] s[i]) by {
            if i < t.len() {
                assert(s[i] == t[i]);
            }
        }
    }
}

proof fn lemma_decimal_width(n: nat, width: nat)
    requires
        n < ten(width),
        width > 0,
    ensures
        text::decimal(n).len() <= width,
    decreases width,
{
    if n >= 10 {
        if width == 1 {
            assert(ten(1) == 10) by {
                reveal_with_fuel(ten, 2);
            }
        } else {
            lemma_decimal_width(n / 10, (width - 1) as nat);
        }
    }
}

proof fn lemma_zeros(count: nat)
    ensures
        value(text::zeros(count)) == 0,
    decreases count,
{
    if count > 0 {
        assert(text::zeros(count).drop_last() =~= text::zeros((count - 1) as nat));
        lemma_zeros((count - 1) as nat);
    }
}

proof fn lemma_pad(n: nat, width: nat)
    requires
        n < ten(width),
        width > 0,
    ensures
        all_digits(text::pad(text::decimal(n), width)),
        text::pad(text::decimal(n), width).len() == width,
        value(text::pad(text::decimal(n), width)) == n,
{
    let d = text::decimal(n);
    lemma_decimal(n);
    lemma_decimal_width(n, width);
    if d.len() < width {
        let z = text::zeros((width - d.len()) as nat);
        lemma_zeros((width - d.len()) as nat);
        lemma_value_sum(z, d);
        assert(0 * ten(d.len()) == 0);
        assert forall|i: int| 0 <= i < (z + d).len() implies is_digit(#[trigger] (z + d)[i]) by {
            if i >= z.len() {
                assert((z + d)[i] == d[i - z.len()]);
            }
        }
    }
}

/// What is left of a fraction without its trailing zeros, and its width.
proof fn lemma_fraction(f: nat, width: nat) -> (r: (nat, nat))
    requires
        0 < f < ten(width),
    ensures
        0 < r.1 <= width,
        0 < r.0 < ten(r.1),
        r.0 * ten((width - r.1) as nat) == f,
        fraction(f, width) == seq!['.'] + text::pad(text::decimal(r.0), r.1),
    decreases f,
{
    if f % 10 == 0 {
        let r = lemma_fraction(f / 10, (width - 1) as nat);
        let (a, t) = (r.0, ten((width - 1 - r.1) as nat));
        assert(a * (10 * t) == 10 * (a * t)) by (nonlinear_arith);
        r
    } else {
        assert(f * 1 == f);
        (f, width)
    }
}

/// A number that starts and ends with a digit has nothing to trim.
proof fn lemma_trimmed(s: Seq<char>)
    requires
        s.len() > 0,
        !text::is_space(s[0]),
        !text::is_space(s.last()),
    ensures
        text::trim(s) == s,
{
}

/// What `whole` and a fraction spell.
proof fn lemma_amount(whole: nat, f: nat, width: nat)
    requires
        f < ten(width),
        width > 0,
    ensures
        ({
            let s = text::decimal(whole) + fraction(f, width);
            &&& s.len() > 0
            &&& is_digit(s[0])
            &&& is_digit(s.last())
            &&& amount(s) matches Some(Amount::Number { negative, mantissa, exponent })
            &&& !negative
            &&& exponent >= -width
            &&& mantissa * ten((width + exponent) as nat) == whole * ten(width) + f
        }),
{
    let d = text::decimal(whole);
    let s = d + fraction(f, width);
    lemma_decimal(whole);
    assert(is_digit(d[0]) && is_digit(d[d.len() - 1]));
    assert(s[0] == d[0]);
    reveal_strlit("inf");
    reveal_strlit("infinity");
    reveal_strlit("nan");
    assert(lower(s[0]) == s[0]);
    if f == 0 {
        assert(s =~= d);
        lemma_digit_run_of(d, Seq::empty());
        assert(d + Seq::<char>::empty() =~= d);
        assert(s.skip(d.len() as int) =~= Seq::empty());
        assert(s.take(d.len() as int) =~= d);
    } else {
        let (g, w) = lemma_fraction(f, width);
        let p = text::pad(text::decimal(g), w);
        lemma_pad(g, w);
        let tail = seq!['.'] + p;
        assert(s =~= d + tail);
        lemma_digit_run_of(d, tail);
        assert(s[d.len() as int] == '.');
        assert(s.skip(d.len() as int + 1) =~= p);
        lemma_digit_run_of(p, Seq::empty());
        assert(p + Seq::<char>::empty() =~= p);
        assert(s.skip(d.len() as int + 1 + p.len()) =~= Seq::empty());
        assert(s.take(d.len() as int) =~= d);
        assert(s.subrange(d.len() as int + 1, d.len() as int + 1 + p.len()) =~= p);
        assert(is_digit(p[p.len() - 1]));
        lemma_value_sum(d, p);
        let t = ten((width - w) as nat);
        lemma_ten_sum(w, (width - w) as nat);
        let m = whole * ten(w) + g;
        let tw = ten(w);
        assert(m * t == whole * (tw * t) + g * t) by (nonlinear_arith)
            requires
                m == whole * tw + g,
        ;
    }
}

/// An interval that is written out reads back as the same interval, so what a
/// status report shows can be given back as an option.
pub proof fn display_then_parse(i: Interval)
    requires
        i.wf(),
    ensures
        parsed(i.text()) == Ok::<u64, IntervalError>(i.nanos()),
{
    let n = i.nanos() as nat;
    reveal_strlit("s");
    reveal_strlit("ms");
    assert(ten(9) == 1_000_000_000 && ten(6) == 1_000_000) by {
        reveal_with_fuel(ten, 10);
    }
    let s = i.text();
    let (whole, f, width) = if n >= 1_000_000_000 {
        (n / 1_000_000_000, n % 1_000_000_000, 9nat)
    } else {
        (n / 1_000_000, n % 1_000_000, 6nat)
    };
    let number = text::decimal(whole) + fraction(f, width);
    lemma_amount(whole, f, width);
    assert(s[0] == number[0]);
    assert(s.last() == 's');
    lemma_trimmed(s);
    lemma_trimmed(number);
    let t = ten(width);
    if width == 9 {
        assert(s.drop_last() =~= number);
        assert(s[s.len() - 2] == number.last());
        assert(whole * t + f == n) by (nonlinear_arith)
            requires
                t == 1_000_000_000,
                whole == n / 1_000_000_000,
                f == n % 1_000_000_000,
        ;
    } else {
        assert(s[s.len() - 2] == 'm');
        assert(s.take(s.len() - 2) =~= number);
        assert(whole * t + f == n) by (nonlinear_arith)
            requires
                t == 1_000_000,
                whole == n / 1_000_000,
                f == n % 1_000_000,
        ;
    }
    assert(unit(text::trim(s)) == (number, width as int));
    let a = amount(number);
    assert(nanos_of(a, width as int) == Ok::<u64, IntervalError>(i.nanos())) by {
        if let Some(Amount::Number { negative, mantissa, exponent }) = a {
            assert(scaled(mantissa, exponent + width) == n);
        }
    }
}

/// What becomes of an interval of `n` nanoseconds: it is taken between ten
/// milliseconds and a day.
pub open spec fn verdict(n: nat) -> Result<u64, IntervalError> {
    if n < 10_000_000 {
        Err(IntervalError::TooShort)
    } else if n <= 86_400_000_000_000 {
        Ok(n as u64)
    } else if n < 18_446_744_073_709_551_616_000_000_000 {
        Err(IntervalError::TooLong)
    } else {
        Err(IntervalError::TooBigOrNan)
    }
}

proof fn lemma_scaled_amount(whole: nat, f: nat, width: nat, power: nat)
    requires
        0 < width <= power,
        f < ten(width),
    ensures
        ({
            let s = text::decimal(whole) + fraction(f, width);
            &&& nanos_of(amount(s), power as int) == verdict(
                whole * ten(power) + f * ten((power - width) as nat),
            )
            &&& text::bare(s)
            &&& s.len() > 0
            &&& is_digit(s[0])
            &&& is_digit(s.last())
        }),
{
    let s = text::decimal(whole) + fraction(f, width);
    lemma_amount(whole, f, width);
    if let Some(Amount::Number { negative, mantissa, exponent }) = amount(s) {
        let (e, r) = ((width + exponent) as nat, (power - width) as nat);
        lemma_ten_sum(e, r);
        lemma_ten_sum(width, r);
        let (a, b, c) = (ten(e), ten(r), ten(width));
        assert(e + r == exponent + power);
        assert(mantissa * (a * b) == (mantissa * a) * b) by (nonlinear_arith);
        assert((whole * c + f) * b == whole * (c * b) + f * b) by (nonlinear_arith);
    }
}

/// A number of seconds is written with an `s` behind it or with nothing, a number
/// of milliseconds with `ms`; white space around the number or the whole makes no
/// difference. What is written with a point counts to the last digit.
pub proof fn an_interval_is_what_it_says(
    whole: nat,
    f: nat,
    width: nat,
    before: Seq<char>,
    between: Seq<char>,
    after: Seq<char>,
)
    requires
        0 < width <= 6,
        f < ten(width),
        text::blank(before),
        text::blank(between),
        text::blank(after),
    ensures
        ({
            let number = text::decimal(whole) + fraction(f, width);
            let seconds = verdict(whole * 1_000_000_000 + f * ten((9 - width) as nat));
            let millis = verdict(whole * 1_000_000 + f * ten((6 - width) as nat));
            &&& parsed(before + (number + between + seq!['s']) + after) == seconds
            &&& parsed(before + number + after) == seconds
            &&& parsed(before + (number + between + seq!['m', 's']) + after) == millis
        }),
{
    assert(ten(9) == 1_000_000_000 && ten(6) == 1_000_000) by {
        reveal_with_fuel(ten, 10);
    }
    let number = text::decimal(whole) + fraction(f, width);
    let none = Seq::<char>::empty();
    lemma_scaled_amount(whole, f, width, 9);
    lemma_scaled_amount(whole, f, width, 6);
    let (a, b) = (number + between + seq!['s'], number + between + seq!['m', 's']);
    assert(a[0] == number[0] && b[0] == number[0]);
    assert(a.last() == 's' && b.last() == 's');
    text::white_space_around_makes_no_difference(before, a, after);
    text::white_space_around_makes_no_difference(before, b, after);
    text::white_space_around_makes_no_difference(before, number, after);
    text::white_space_around_makes_no_difference(none, number, between);
    assert(none + number + between =~= number + between);
    assert(a.drop_last() =~= number + between);
    assert(b.take(b.len() - 2) =~= number + between);
    assert(b[b.len() - 2] == 'm');
    assert(a[a.len() - 2] != 'm') by {
        if between.len() > 0 {
            assert(a[a.len() - 2] == between.last());
            assert(text::is_space(between[between.len() - 1]));
        } else {
            assert(a[a.len() - 2] == number.last());
        }
    }
}

/// What is written with an exponent counts that many powers of ten more, or less.
pub proof fn exponents_move_the_point(mantissa: nat, power: nat)
    ensures
        unsigned_number(text::decimal(mantissa) + seq!['e'] + text::decimal(power)) == Some(
            Decimal { mantissa, exponent: power as int },
        ),
        unsigned_number(text::decimal(mantissa) + seq!['e', '-'] + text::decimal(power)) == Some(
            Decimal { mantissa, exponent: -power },
        ),
{
    let (m, p) = (text::decimal(mantissa), text::decimal(power));
    lemma_decimal(mantissa);
    lemma_decimal(power);
    let none = Seq::<char>::empty();
    lemma_digit_run_of(p, none);
    assert(p + none =~= p);
    assert(is_digit(p[0]));
    let (s, t) = (m + seq!['e'] + p, m + seq!['e', '-'] + p);
    let (u, v) = (seq!['e'] + p, seq!['e', '-'] + p);
    assert(s =~= m + u);
    assert(t =~= m + v);
    lemma_digit_run_of(m, u);
    lemma_digit_run_of(m, v);
    let n = m.len() as int;
    assert(s.take(n) =~= m && t.take(n) =~= m);
    assert(s.skip(n) =~= u && t.skip(n) =~= v);
    assert(s[n] == 'e' && t[n] == 'e');
    assert(u.drop_first() =~= p);
    assert(v.drop_first().drop_first() =~= p);
}

/// A sign does not change what a number says but for the side of zero on which it
/// lies, and nothing below zero is an interval.
pub proof fn nothing_below_zero_is_an_interval(s: Seq<char>, power: int)
    requires
        amount(s) matches Some(Amount::Number { negative, mantissa, exponent }) && !negative
            && mantissa > 0,
        s.len() > 0,
        s[0] != '+',
        s[0] != '-',
    ensures
        nanos_of(amount(seq!['-'] + s), power) == Err::<u64, IntervalError>(IntervalError::Negative),
        nanos_of(amount(seq!['+'] + s), power) == nanos_of(amount(s), power),
{
    assert((seq!['-'] + s).drop_first() =~= s);
    assert((seq!['+'] + s).drop_first() =~= s);
}

/// A quotient is rounded to the nearest integer, and to the even one of two that
/// are equally near.
pub proof fn rounding_is_to_the_nearest(a: nat, b: nat)
    requires
        b > 0,
    ensures
        -(b as int) <= 2 * (a - rounded(a, b) * b) <= b,
        2 * (a - rounded(a, b) * b) == b || 2 * (a - rounded(a, b) * b) == -(b as int) ==> rounded(
            a,
            b,
        ) % 2 == 0,
{
    let (q, r) = ((a / b) as int, (a % b) as int);
    let d = b as int;
    vstd::arithmetic::div_mod::lemma_fundamental_div_mod(a as int, d);
    vstd::arithmetic::div_mod::lemma_mod_bound(a as int, d);
    assert(a == d * q + r);
    assert(q * d == d * q) by (nonlinear_arith);
    assert((q + 1) * d == d * q + d) by (nonlinear_arith);
}

} // verus!
