use vstd::prelude::*;
use vstd::slice::slice_subrange;
use vstd::string::*;

verus! {

/// `String::push` appends one character to the end of the string.
pub assume_specification[ String::push ](s: &mut String, c: char)
    ensures
        final(s)@ == old(s)@.push(c),
;

/// The characters of `s`, in order.
pub fn chars(s: &str) -> (cs: Vec<char>)
    ensures
        cs@ == s@,
{
    let mut cs: Vec<char> = Vec::new();
    for c in iter: s.chars()
        invariant
            iter.seq() == s@,
            cs@ == s@.take(iter.index() as int),
    {
        cs.push(c);
    }
    cs
}

/// The string made of `cs`.
pub fn string(cs: &[char]) -> (s: String)
    ensures
        s@ == cs@,
{
    let mut s = String::new();
    let mut i: usize = 0;
    while i < cs.len()
        invariant
            i <= cs@.len(),
            s@ == cs@.take(i as int),
        decreases cs@.len() - i,
    {
        s.push(cs[i]);
        i = i + 1;
    }
    s
}

/// Whether `c` has the Unicode `White_Space` property.
pub open spec fn is_space(c: char) -> bool {
    let u = c as u32;
    ||| 0x09 <= u <= 0x0d
    ||| u == 0x20
    ||| u == 0x85
    ||| u == 0xa0
    ||| u == 0x1680
    ||| 0x2000 <= u <= 0x200a
    ||| u == 0x2028
    ||| u == 0x2029
    ||| u == 0x202f
    ||| u == 0x205f
    ||| u == 0x3000
}

/// Whether `c` is white space.
pub fn space(c: char) -> (b: bool)
    ensures
        b == is_space(c),
{
    let u: u32 = c as u32;
    (0x09 <= u && u <= 0x0d) || u == 0x20 || u == 0x85 || u == 0xa0 || u == 0x1680 || (0x2000 <= u
        && u <= 0x200a) || u == 0x2028 || u == 0x2029 || u == 0x202f || u == 0x205f || u == 0x3000
}

/// `s` without its leading white space.
pub open spec fn trim_start(s: Seq<char>) -> Seq<char>
    decreases s.len(),
{
    if s.len() > 0 && is_space(s[0]) {
        trim_start(s.drop_first())
    } else {
        s
    }
}

/// `s` without its trailing white space.
pub open spec fn trim_end(s: Seq<char>) -> Seq<char>
    decreases s.len(),
{
    if s.len() > 0 && is_space(s.last()) {
        trim_end(s.drop_last())
    } else {
        s
    }
}

/// `s` without the white space at both ends.
pub open spec fn trim(s: Seq<char>) -> Seq<char> {
    trim_end(trim_start(s))
}

/// Drop the white space that `s` starts with.
pub fn trimmed_start(s: &[char]) -> (t: &[char])
    ensures
        t@ == trim_start(s@),
        t@.len() <= s@.len(),
{
    let mut i: usize = 0;
    proof {
        assert(s@.skip(0) =~= s@);
    }
    while i < s.len() && space(s[i])
        invariant
            i <= s@.len(),
            trim_start(s@) == trim_start(s@.skip(i as int)),
        decreases s@.len() - i,
    {
        proof {
            assert(s@.skip(i as int).drop_first() =~= s@.skip(i + 1));
        }
        i = i + 1;
    }
    proof {
        assert(s@.skip(i as int) =~= s@.subrange(i as int, s@.len() as int));
    }
    slice_subrange(s, i, s.len())
}

/// Drop the white space that `s` ends with.
pub fn trimmed_end(s: &[char]) -> (t: &[char])
    ensures
        t@ == trim_end(s@),
        t@.len() <= s@.len(),
{
    let mut n: usize = s.len();
    proof {
        assert(s@.take(n as int) =~= s@);
    }
    while n > 0 && space(s[n - 1])
        invariant
            n <= s@.len(),
            trim_end(s@) == trim_end(s@.take(n as int)),
        decreases n,
    {
        proof {
            assert(s@.take(n as int).drop_last() =~= s@.take(n - 1));
        }
        n = n - 1;
    }
    proof {
        assert(s@.take(n as int) =~= s@.subrange(0, n as int));
    }
    slice_subrange(s, 0, n)
}

/// Drop the white space at both ends of `s`.
pub fn trimmed(s: &[char]) -> (t: &[char])
    ensures
        t@ == trim(s@),
        t@.len() <= s@.len(),
{
    trimmed_end(trimmed_start(s))
}

/// Whether `s` spells `word`.
pub fn is_word(s: &[char], word: &str) -> (b: bool)
    ensures
        b == (s@ == word@),
{
    let w = chars(word);
    same(s, w.as_slice())
}

/// Whether `a` and `b` hold the same characters.
pub fn same(a: &[char], b: &[char]) -> (r: bool)
    ensures
        r == (a@ == b@),
{
    if a.len() != b.len() {
        return false;
    }
    let mut i: usize = 0;
    while i < a.len()
        invariant
            i <= a@.len(),
            a@.len() == b@.len(),
            forall|j: int| 0 <= j < i ==> a@[j] == b@[j],
        decreases a@.len() - i,
    {
        if a[i] != b[i] {
            return false;
        }
        i = i + 1;
    }
    assert(a@ =~= b@);
    true
}

/// Whether `s` holds `word` somewhere.
pub open spec fn contains_word(s: Seq<char>, word: Seq<char>) -> bool {
    exists|i: int|
        0 <= i && i + word.len() <= s.len() && #[trigger] s.subrange(i, i + word.len()) == word
}

/// Whether `s` holds `word` somewhere.
pub fn contains(s: &str, word: &str) -> (b: bool)
    ensures
        b == contains_word(s@, word@),
{
    let (cs, w) = (chars(s), chars(word));
    let (len, k): (usize, usize) = (cs.len(), w.len());
    if k > len {
        return false;
    }
    let n: usize = len - k;
    let mut i: usize = 0;
    while i < n
        invariant
            cs@ == s@,
            w@ == word@,
            i <= n,
            k == w@.len(),
            n + k == len == cs@.len(),
            forall|j: int| 0 <= j < i ==> #[trigger] cs@.subrange(j, j + k) != w@,
        decreases n - i,
    {
        if same(slice_subrange(cs.as_slice(), i, i + k), w.as_slice()) {
            assert(s@.subrange(i as int, i + word@.len()) == word@);
            return true;
        }
        i = i + 1;
    }
    let b = same(slice_subrange(cs.as_slice(), n, n + k), w.as_slice());
    proof {
        assert(b == (s@.subrange(n as int, n + word@.len()) == word@));
        if contains_word(s@, word@) {
            let j = choose|j: int|
                0 <= j && j + word@.len() <= s@.len() && #[trigger] s@.subrange(j, j + word@.len())
                    == word@;
            assert(cs@.subrange(j, j + k) == w@);
        }
    }
    b
}

/// How many bytes `s` takes in UTF-8.
pub open spec fn utf8_length(s: Seq<char>) -> nat {
    vstd::utf8::encode_utf8(s).len()
}

/// How many bytes `s` takes in UTF-8.
pub fn count_utf8(s: &str) -> (n: usize)
    ensures
        n == utf8_length(s@),
{
    s.as_bytes().len()
}

/// Where `c` first stands in `s`, or the length of `s` where it does not.
pub open spec fn find(s: Seq<char>, c: char) -> nat
    decreases s.len(),
{
    if s.len() == 0 || s[0] == c {
        0
    } else {
        1 + find(s.drop_first(), c)
    }
}

pub proof fn lemma_find(s: Seq<char>, c: char)
    ensures
        find(s, c) <= s.len(),
        find(s, c) < s.len() ==> s[find(s, c) as int] == c,
        forall|j: int| 0 <= j < find(s, c) ==> s[j] != c,
    decreases s.len(),
{
    if s.len() > 0 && s[0] != c {
        let t = s.drop_first();
        lemma_find(t, c);
        assert forall|j: int| 0 <= j < find(s, c) implies s[j] != c by {
            if j > 0 {
                assert(t[j - 1] != c);
            }
        }
    }
}

/// Where `c` first stands in `s`.
pub fn position(s: &[char], c: char) -> (i: usize)
    ensures
        i == find(s@, c),
        i <= s@.len(),
{
    let mut i: usize = 0;
    proof {
        assert(s@.skip(0) =~= s@);
    }
    while i < s.len() && s[i] != c
        invariant
            i <= s@.len(),
            find(s@, c) == i + find(s@.skip(i as int), c),
        decreases s@.len() - i,
    {
        proof {
            assert(s@.skip(i as int).drop_first() =~= s@.skip(i + 1));
        }
        i = i + 1;
    }
    i
}

/// `s` without one trailing carriage return.
pub open spec fn strip_cr(s: Seq<char>) -> Seq<char> {
    if s.len() > 0 && s.last() == '\r' {
        s.drop_last()
    } else {
        s
    }
}

/// The lines of `s`: each ends with a line feed, or with a carriage return and
/// a line feed, which are not part of it; the last may end with the text.
pub open spec fn lines(s: Seq<char>) -> Seq<Seq<char>>
    decreases s.len(),
{
    if s.len() == 0 {
        Seq::empty()
    } else {
        let i = find(s, '\n');
        if i >= s.len() {
            seq![s]
        } else {
            seq![strip_cr(s.take(i as int))] + lines(s.skip(i as int + 1))
        }
    }
}

/// The first line of `s`, and what follows it.
pub fn next_line(s: &[char]) -> (r: (&[char], &[char]))
    requires
        s@.len() > 0,
    ensures
        lines(s@) == seq![r.0@] + lines(r.1@),
        r.1@.len() < s@.len(),
{
    let i: usize = position(s, '\n');
    if i >= s.len() {
        let rest = slice_subrange(s, i, s.len());
        assert(rest@ =~= Seq::empty());
        assert(lines(s@) =~= seq![s@] + lines(rest@));
        return (s, rest);
    }
    let line = if i > 0 && s[i - 1] == '\r' {
        slice_subrange(s, 0, i - 1)
    } else {
        slice_subrange(s, 0, i)
    };
    let rest = slice_subrange(s, i + 1, s.len());
    assert(line@ =~= strip_cr(s@.take(i as int)));
    assert(rest@ =~= s@.skip(i + 1));
    (line, rest)
}

/// Whether `a` stands before `b` in the order of their characters.
pub open spec fn before(a: Seq<char>, b: Seq<char>) -> bool
    decreases a.len(),
{
    b.len() > 0 && (a.len() == 0 || a[0] < b[0] || (a[0] == b[0] && before(
        a.drop_first(),
        b.drop_first(),
    )))
}

/// Of two different texts one stands before the other.
pub proof fn lemma_before_total(a: Seq<char>, b: Seq<char>)
    ensures
        before(a, b) || before(b, a) || a == b,
        !(before(a, b) && before(b, a)),
        !before(a, a),
    decreases a.len(),
{
    if a.len() > 0 {
        lemma_before_total(a.drop_first(), a.drop_first());
    }
    if a.len() > 0 && b.len() > 0 && a[0] == b[0] {
        lemma_before_total(a.drop_first(), b.drop_first());
        if a.drop_first() == b.drop_first() {
            assert(a =~= seq![a[0]] + a.drop_first());
            assert(b =~= seq![b[0]] + b.drop_first());
        }
    } else if a.len() == 0 && b.len() == 0 {
        assert(a =~= b);
    }
}

pub proof fn lemma_before_transitive(a: Seq<char>, b: Seq<char>, c: Seq<char>)
    requires
        before(a, b),
        before(b, c),
    ensures
        before(a, c),
    decreases a.len(),
{
    if a.len() > 0 && a[0] == b[0] && b[0] == c[0] {
        lemma_before_transitive(a.drop_first(), b.drop_first(), c.drop_first());
    }
}

/// Whether `a` stands before `b`.
pub fn precedes(a: &[char], b: &[char]) -> (r: bool)
    ensures
        r == before(a@, b@),
{
    let mut i: usize = 0;
    proof {
        assert(a@.skip(0) =~= a@);
        assert(b@.skip(0) =~= b@);
    }
    while i < a.len() && i < b.len() && a[i] == b[i]
        invariant
            i <= a@.len(),
            i <= b@.len(),
            before(a@, b@) == before(a@.skip(i as int), b@.skip(i as int)),
        decreases a@.len() - i,
    {
        proof {
            assert(a@.skip(i as int).drop_first() =~= a@.skip(i + 1));
            assert(b@.skip(i as int).drop_first() =~= b@.skip(i + 1));
            assert(a@.skip(i as int)[0] == a@[i as int]);
            assert(b@.skip(i as int)[0] == b@[i as int]);
        }
        i = i + 1;
    }
    proof {
        let (s, t) = (a@.skip(i as int), b@.skip(i as int));
        assert(s.len() > 0 ==> s[0] == a@[i as int]);
        assert(t.len() > 0 ==> t[0] == b@[i as int]);
    }
    if i >= b.len() {
        false
    } else if i >= a.len() {
        true
    } else {
        a[i] < b[i]
    }
}

/// Why a text is not an integer.
#[derive(Clone, Copy, Debug, PartialEq, Eq, Structural)]
pub enum IntError {
    Empty,
    InvalidDigit,
    TooLarge,
}

/// The value of `c` as a digit in a base of up to sixteen.
pub open spec fn digit_value(c: char) -> Option<nat> {
    if '0' <= c <= '9' {
        Some((c as u32 - '0' as u32) as nat)
    } else if 'a' <= c <= 'f' {
        Some((c as u32 - 'a' as u32 + 10) as nat)
    } else if 'A' <= c <= 'F' {
        Some((c as u32 - 'A' as u32 + 10) as nat)
    } else {
        None
    }
}

/// The number that the digits `s` spell in base `radix`, at most `max`. What is
/// wrong furthest to the left is what is reported.
pub open spec fn digits(s: Seq<char>, radix: nat, max: nat) -> Result<nat, IntError>
    decreases s.len(),
{
    if s.len() == 0 {
        Ok(0)
    } else {
        match digits(s.drop_last(), radix, max) {
            Err(e) => Err(e),
            Ok(n) => match digit_value(s.last()) {
                Some(d) => if d >= radix {
                    Err(IntError::InvalidDigit)
                } else if n * radix + d > max {
                    Err(IntError::TooLarge)
                } else {
                    Ok((n * radix + d) as nat)
                },
                None => Err(IntError::InvalidDigit),
            },
        }
    }
}

/// What `s` says as an unsigned integer: digits, after a `+` if there is one.
pub open spec fn unsigned(s: Seq<char>, radix: nat, max: nat) -> Result<nat, IntError> {
    if s.len() == 0 {
        Err(IntError::Empty)
    } else if s[0] == '+' {
        if s.len() == 1 {
            Err(IntError::InvalidDigit)
        } else {
            digits(s.drop_first(), radix, max)
        }
    } else {
        digits(s, radix, max)
    }
}

pub proof fn lemma_unsigned_bound(s: Seq<char>, radix: nat, max: nat)
    requires
        unsigned(s, radix, max) is Ok,
    ensures
        unsigned(s, radix, max)->Ok_0 <= max,
{
    lemma_digits_bound(s, radix, max);
    lemma_digits_bound(s.drop_first(), radix, max);
}

pub proof fn lemma_digits_bound(s: Seq<char>, radix: nat, max: nat)
    ensures
        digits(s, radix, max) matches Ok(n) ==> n <= max,
    decreases s.len(),
{
    if s.len() > 0 {
        lemma_digits_bound(s.drop_last(), radix, max);
    }
}

/// A text that starts with something else than a digit spells no number.
pub proof fn lemma_digits_start(s: Seq<char>, radix: nat, max: nat)
    requires
        s.len() > 0,
        digit_value(s[0]) is None,
    ensures
        digits(s, radix, max) is Err,
    decreases s.len(),
{
    if s.len() > 1 {
        lemma_digits_start(s.drop_last(), radix, max);
    }
}

/// The value of `c` as a digit.
pub fn digit(c: char) -> (d: Option<u32>)
    ensures
        d is Some <==> digit_value(c) is Some,
        d matches Some(v) ==> v == digit_value(c)->0 && v < 16,
{
    if '0' <= c && c <= '9' {
        Some(c as u32 - '0' as u32)
    } else if 'a' <= c && c <= 'f' {
        Some(c as u32 - 'a' as u32 + 10)
    } else if 'A' <= c && c <= 'F' {
        Some(c as u32 - 'A' as u32 + 10)
    } else {
        None
    }
}

proof fn lemma_digits_prefix_error(s: Seq<char>, i: int, radix: nat, max: nat)
    requires
        0 <= i <= s.len(),
        digits(s.take(i), radix, max) is Err,
    ensures
        digits(s, radix, max) == digits(s.take(i), radix, max),
    decreases s.len() - i,
{
    if i == s.len() {
        assert(s.take(i) =~= s);
    } else {
        assert(s.take(i + 1).drop_last() =~= s.take(i));
        lemma_digits_prefix_error(s, i + 1, radix, max);
    }
}

fn read_digits(s: &[char], radix: u32, max: u64) -> (r: Result<u64, IntError>)
    requires
        2 <= radix <= 16,
    ensures
        r is Ok <==> digits(s@, radix as nat, max as nat) is Ok,
        r matches Ok(n) ==> digits(s@, radix as nat, max as nat) == Ok::<nat, IntError>(n as nat),
        r matches Err(e) ==> digits(s@, radix as nat, max as nat) == Err::<nat, IntError>(e),
{
    let mut n: u64 = 0;
    let mut i: usize = 0;
    while i < s.len()
        invariant
            2 <= radix <= 16,
            i <= s@.len(),
            n <= max,
            digits(s@.take(i as int), radix as nat, max as nat) == Ok::<nat, IntError>(n as nat),
        decreases s@.len() - i,
    {
        proof {
            assert(s@.take(i + 1).drop_last() =~= s@.take(i as int));
        }
        let d: u32 = match digit(s[i]) {
            Some(d) => d,
            None => {
                proof {
                    lemma_digits_prefix_error(s@, i + 1, radix as nat, max as nat);
                }
                return Err(IntError::InvalidDigit);
            },
        };
        if d >= radix {
            proof {
                lemma_digits_prefix_error(s@, i + 1, radix as nat, max as nat);
            }
            return Err(IntError::InvalidDigit);
        }
        let wide: u128 = n as u128;
        assert(0 <= wide * radix <= 0xffff_ffff_ffff_ffff * 16) by (nonlinear_arith)
            requires
                0 <= wide <= 0xffff_ffff_ffff_ffff,
                2 <= radix <= 16,
        ;
        let next: u128 = wide * (radix as u128) + (d as u128);
        if next > max as u128 {
            proof {
                lemma_digits_prefix_error(s@, i + 1, radix as nat, max as nat);
            }
            return Err(IntError::TooLarge);
        }
        n = next as u64;
        i = i + 1;
    }
    proof {
        assert(s@.take(i as int) =~= s@);
    }
    Ok(n)
}

/// Read `s` as an unsigned integer in base `radix`, at most `max`.
pub fn read_unsigned(s: &[char], radix: u32, max: u64) -> (r: Result<u64, IntError>)
    requires
        2 <= radix <= 16,
    ensures
        r is Ok <==> unsigned(s@, radix as nat, max as nat) is Ok,
        r matches Ok(n) ==> unsigned(s@, radix as nat, max as nat) == Ok::<nat, IntError>(n as nat),
        r matches Err(e) ==> unsigned(s@, radix as nat, max as nat) == Err::<nat, IntError>(e),
{
    if s.len() == 0 {
        return Err(IntError::Empty);
    }
    if s[0] == '+' {
        if s.len() == 1 {
            return Err(IntError::InvalidDigit);
        }
        proof {
            assert(s@.subrange(1, s@.len() as int) =~= s@.drop_first());
        }
        return read_digits(slice_subrange(s, 1, s.len()), radix, max);
    }
    read_digits(s, radix, max)
}

/// The digit that stands for `d`, in lower case.
pub open spec fn digit_char(d: nat) -> char
    recommends
        d < 16,
{
    if d < 10 {
        ('0' as u32 + d) as char
    } else {
        ('a' as u32 + (d - 10)) as char
    }
}

/// `n` written in base `radix`, without leading zeros.
pub open spec fn number(n: nat, radix: nat) -> Seq<char>
    recommends
        2 <= radix <= 16,
    decreases n,
{
    if n < radix || radix < 2 {
        seq![digit_char(n)]
    } else {
        proof {
            vstd::arithmetic::div_mod::lemma_div_decreases(n as int, radix as int);
        }
        number(n / radix, radix).push(digit_char(n % radix))
    }
}

/// `n` written in decimal.
pub open spec fn decimal(n: nat) -> Seq<char> {
    number(n, 10)
}

proof fn lemma_digit_char(d: nat)
    requires
        d < 16,
    ensures
        digit_value(digit_char(d)) == Some(d),
        digit_char(d) != '+',
        digit_char(d) != '-',
{
}

/// Reading back a number that was written gives the number.
pub proof fn lemma_number_reads_back(n: nat, radix: nat, max: nat)
    requires
        2 <= radix <= 16,
        n <= max,
    ensures
        digits(number(n, radix), radix, max) == Ok::<nat, IntError>(n),
        number(n, radix).len() > 0,
        number(n, radix)[0] != '+',
        number(n, radix)[0] != '-',
    decreases n,
{
    let s = number(n, radix);
    if n < radix {
        assert(s.drop_last() =~= Seq::empty());
        assert(digits(s.drop_last(), radix, max) == Ok::<nat, IntError>(0));
        lemma_digit_char(n);
        assert(s.last() == digit_char(n));
        assert(0 * radix + n == n);
    } else {
        vstd::arithmetic::div_mod::lemma_div_decreases(n as int, radix as int);
        vstd::arithmetic::div_mod::lemma_fundamental_div_mod(n as int, radix as int);
        let (q, r) = (n / radix, n % radix);
        vstd::arithmetic::div_mod::lemma_mod_bound(n as int, radix as int);
        assert(q * radix == radix * q) by (nonlinear_arith);
        lemma_digit_char(r);
        assert(s.last() == digit_char(r));
        lemma_number_reads_back(q, radix, max);
        assert(s.drop_last() =~= number(q, radix));
        assert(s[0] == number(q, radix)[0]);
    }
}

/// A number in decimal is made of digits, and starts with a zero only where it is
/// zero.
pub proof fn lemma_decimal_digits(n: nat)
    ensures
        decimal(n).len() > 0,
        forall|i: int| 0 <= i < decimal(n).len() ==> '0' <= #[trigger] decimal(n)[i] <= '9',
        decimal(n)[0] == '0' <==> n == 0,
    decreases n,
{
    if n >= 10 {
        lemma_decimal_digits(n / 10);
        assert(decimal(n) == decimal(n / 10).push(digit_char(n % 10)));
    }
}

/// A number in decimal that something else follows ends where the digits end.
pub proof fn lemma_decimal_ends(a: nat, after_a: Seq<char>, b: nat, after_b: Seq<char>)
    requires
        decimal(a) + after_a == decimal(b) + after_b,
        after_a.len() > 0,
        after_b.len() > 0,
        !('0' <= after_a[0] <= '9'),
        !('0' <= after_b[0] <= '9'),
    ensures
        a == b,
        after_a == after_b,
{
    let (da, db) = (decimal(a), decimal(b));
    let all = da + after_a;
    lemma_decimal_digits(a);
    lemma_decimal_digits(b);
    if da.len() < db.len() {
        assert(all[da.len() as int] == db[da.len() as int]);
    }
    if db.len() < da.len() {
        assert(all[db.len() as int] == da[db.len() as int]);
    }
    assert(da =~= all.take(da.len() as int));
    assert(db =~= all.take(db.len() as int));
    assert(after_a =~= all.skip(da.len() as int));
    assert(after_b =~= all.skip(db.len() as int));
    let max = if a < b {
        b
    } else {
        a
    };
    lemma_number_reads_back(a, 10, max);
    lemma_number_reads_back(b, 10, max);
}

/// `i` written in decimal, after a `-` where it is negative.
pub open spec fn integer(i: int) -> Seq<char> {
    if i < 0 {
        seq!['-'] + decimal((-i) as nat)
    } else {
        decimal(i as nat)
    }
}

/// `count` zeros.
pub open spec fn zeros(count: nat) -> Seq<char> {
    Seq::new(count, |i: int| '0')
}

/// `s` with zeros before it, up to `width` characters.
pub open spec fn pad(s: Seq<char>, width: nat) -> Seq<char> {
    if s.len() >= width {
        s
    } else {
        zeros((width - s.len()) as nat) + s
    }
}

/// The texts of `list`, with `sep` between each and the next.
pub open spec fn join(list: Seq<Seq<char>>, sep: Seq<char>) -> Seq<char>
    decreases list.len(),
{
    if list.len() == 0 {
        Seq::empty()
    } else if list.len() == 1 {
        list[0]
    } else {
        join(list.drop_last(), sep) + sep + list.last()
    }
}

fn to_digit_char(d: u32) -> (c: char)
    requires
        d < 16,
    ensures
        c == digit_char(d as nat),
{
    if d < 10 {
        (48 + d as u8) as char
    } else {
        (97 + (d as u8 - 10)) as char
    }
}

/// `n` written in base `radix`.
pub fn number_chars(n: u64, radix: u64) -> (cs: Vec<char>)
    requires
        2 <= radix <= 16,
    ensures
        cs@ == number(n as nat, radix as nat),
    decreases n,
{
    if n < radix {
        let mut cs: Vec<char> = Vec::new();
        cs.push(to_digit_char(n as u32));
        assert(cs@ =~= seq![digit_char(n as nat)]);
        cs
    } else {
        proof {
            vstd::arithmetic::div_mod::lemma_div_decreases(n as int, radix as int);
        }
        let mut cs = number_chars(n / radix, radix);
        cs.push(to_digit_char((n % radix) as u32));
        cs
    }
}

/// `n` written in decimal.
pub fn decimal_string(n: u64) -> (s: String)
    ensures
        s@ == decimal(n as nat),
{
    let cs = number_chars(n, 10);
    string(cs.as_slice())
}

/// `i` written in decimal.
pub fn integer_string(i: i64) -> (s: String)
    ensures
        s@ == integer(i as int),
{
    if i < 0 {
        let mut s = String::new();
        s.push('-');
        let magnitude: u64 = (-(i as i128)) as u64;
        s.append(decimal_string(magnitude).as_str());
        s
    } else {
        decimal_string(i as u64)
    }
}

/// `n` written in base `radix`, with zeros before it up to `width` characters.
pub fn padded_string(n: u64, radix: u64, width: usize) -> (s: String)
    requires
        2 <= radix <= 16,
    ensures
        s@ == pad(number(n as nat, radix as nat), width as nat),
{
    let cs = number_chars(n, radix);
    let mut s = String::new();
    let mut i: usize = cs.len();
    while i < width
        invariant
            cs@.len() <= i,
            i == cs@.len() || i <= width,
            s@ == zeros((i - cs@.len()) as nat),
        decreases width - i,
    {
        s.push('0');
        i = i + 1;
        assert(s@ =~= zeros((i - cs@.len()) as nat));
    }
    s.append(string(cs.as_slice()).as_str());
    assert(zeros(0) + cs@ =~= cs@);
    s
}

/// The texts of `list`, with `sep` between each and the next.
pub fn joined(list: &Vec<String>, sep: &str) -> (s: String)
    ensures
        s@ == join(list@.map_values(|t: String| t@), sep@),
{
    let ghost all = list@.map_values(|t: String| t@);
    let mut s = String::new();
    let mut i: usize = 0;
    while i < list.len()
        invariant
            i <= list@.len(),
            all == list@.map_values(|t: String| t@),
            s@ == join(all.take(i as int), sep@),
        decreases list@.len() - i,
    {
        proof {
            assert(all.take(i + 1).drop_last() =~= all.take(i as int));
        }
        if i > 0 {
            s.append(sep);
        }
        s.append(list[i].as_str());
        i = i + 1;
        assert(s@ =~= join(all.take(i as int), sep@));
    }
    assert(all.take(i as int) =~= all);
    s
}

/// What `{:?}` writes for the text `s`: the text between double quotes, with
/// what cannot stand there as it is escaped.
pub uninterp spec fn quoted_text(s: Seq<char>) -> Seq<char>;

/// `format!` with `{:?}` on a string. The result depends on the text alone;
/// which characters are escaped is left unsaid.
#[verifier::external_body]
pub(crate) fn quoted(s: &str) -> (q: String)
    ensures
        q@ == quoted_text(s@),
{
    format!("{:?}", s)
}

/// What `{:?}` writes for the character `c`.
pub uninterp spec fn quoted_char_text(c: char) -> Seq<char>;

/// `format!` with `{:?}` on a character. The result depends on the character
/// alone; which characters are escaped is left unsaid.
#[verifier::external_body]
pub(crate) fn quoted_char(c: char) -> (q: String)
    ensures
        q@ == quoted_char_text(c),
{
    format!("{:?}", c)
}

/// A number below the power of the base takes no more digits than that power.
pub proof fn lemma_number_width(n: nat, radix: nat, width: nat)
    requires
        2 <= radix <= 16,
        width > 0,
        n < power(radix, width),
    ensures
        0 < number(n, radix).len() <= width,
    decreases n,
{
    if n >= radix {
        assert(power(radix, width) == radix * power(radix, (width - 1) as nat));
        let p = power(radix, (width - 1) as nat);
        assert(width > 1) by {
            if width == 1 {
                assert(power(radix, 0) == 1);
                assert(radix * 1 == radix);
            }
        }
        vstd::arithmetic::div_mod::lemma_div_decreases(n as int, radix as int);
        vstd::arithmetic::div_mod::lemma_fundamental_div_mod(n as int, radix as int);
        vstd::arithmetic::div_mod::lemma_mod_bound(n as int, radix as int);
        let q = n / radix;
        assert(q < p) by (nonlinear_arith)
            requires
                n == radix * q + n % radix,
                n % radix >= 0,
                n < radix * p,
                radix >= 2,
        ;
        lemma_number_width(q, radix, (width - 1) as nat);
    }
}

/// `radix` to the power of `n`.
pub open spec fn power(radix: nat, n: nat) -> nat
    decreases n,
{
    if n == 0 {
        1
    } else {
        radix * power(radix, (n - 1) as nat)
    }
}

/// Zeros before a number change nothing of it.
pub proof fn lemma_padding_keeps_the_number(s: Seq<char>, width: nat, radix: nat, max: nat)
    requires
        radix >= 2,
    ensures
        digits(pad(s, width), radix, max) == digits(s, radix, max),
        pad(s, width).len() == if s.len() >= width {
            s.len()
        } else {
            width
        },
{
    if s.len() < width {
        lemma_zeros_before(s, (width - s.len()) as nat, radix, max);
    }
}

proof fn lemma_zeros_before(s: Seq<char>, count: nat, radix: nat, max: nat)
    requires
        radix >= 2,
    ensures
        digits(zeros(count) + s, radix, max) == digits(s, radix, max),
    decreases s.len() + count,
{
    let all = zeros(count) + s;
    if s.len() > 0 {
        assert(all.drop_last() =~= zeros(count) + s.drop_last());
        lemma_zeros_before(s.drop_last(), count, radix, max);
    } else if count > 0 {
        let less = zeros((count - 1) as nat);
        assert(all.drop_last() =~= less + s);
        lemma_zeros_before(s, (count - 1) as nat, radix, max);
        assert(0 * radix == 0);
    } else {
        assert(all =~= s);
    }
}

/// Whether `s` is white space throughout.
pub open spec fn blank(s: Seq<char>) -> bool {
    forall|i: int| 0 <= i < s.len() ==> is_space(#[trigger] s[i])
}

/// Whether `s` neither starts nor ends with white space.
pub open spec fn bare(s: Seq<char>) -> bool {
    s.len() > 0 ==> !is_space(s[0]) && !is_space(s.last())
}

/// What separates words in ASCII is white space, and nothing that is printed is.
pub proof fn ascii_white_space(c: char)
    ensures
        c == ' ' || c == '\t' || c == '\n' || c == '\r' ==> is_space(c),
        '!' <= c <= '~' ==> !is_space(c),
{
}

proof fn lemma_trim_start_blank(a: Seq<char>, s: Seq<char>)
    requires
        blank(a),
    ensures
        trim_start(a + s) == trim_start(s),
    decreases a.len(),
{
    if a.len() > 0 {
        assert((a + s)[0] == a[0]);
        assert((a + s).drop_first() =~= a.drop_first() + s);
        assert(blank(a.drop_first()));
        lemma_trim_start_blank(a.drop_first(), s);
    } else {
        assert(a + s =~= s);
    }
}

proof fn lemma_trim_end_blank(s: Seq<char>, b: Seq<char>)
    requires
        blank(b),
    ensures
        trim_end(s + b) == trim_end(s),
    decreases b.len(),
{
    if b.len() > 0 {
        assert((s + b).last() == b.last());
        assert((s + b).drop_last() =~= s + b.drop_last());
        assert(blank(b.drop_last()));
        lemma_trim_end_blank(s, b.drop_last());
    } else {
        assert(s + b =~= s);
    }
}

/// White space around a text makes no difference to it once it is trimmed, and a
/// text without any around it stays as it is.
pub proof fn white_space_around_makes_no_difference(a: Seq<char>, s: Seq<char>, b: Seq<char>)
    requires
        blank(a),
        blank(b),
        bare(s),
    ensures
        trim(a + s + b) == s,
        trim(s) == s,
        trim_end(s + b) == s,
        trim_start(a + s) == s,
{
    assert(a + s + b =~= a + (s + b));
    lemma_trim_start_blank(a, s + b);
    lemma_trim_start_blank(a, s);
    lemma_trim_end_blank(s, b);
    if s.len() > 0 {
        assert((s + b)[0] == s[0]);
        assert(trim_start(s + b) == s + b);
    } else {
        assert(s + b =~= b);
        lemma_trim_start_blank(b, Seq::empty());
        assert(b + Seq::empty() =~= b);
        assert(trim_start(b) =~= Seq::<char>::empty());
        assert(s =~= Seq::<char>::empty());
    }
}

/// Trimming takes nothing but white space, and leaves none at either end.
pub proof fn trimming_takes_white_space_alone(s: Seq<char>)
    ensures
        bare(trim(s)),
        exists|a: Seq<char>, b: Seq<char>| #[trigger]
            blank(a) && #[trigger] blank(b) && s == a + trim(s) + b,
{
    let t = trim_start(s);
    let a = lemma_trim_start_takes(s);
    let b = lemma_trim_end_takes(t);
    assert(s =~= a + trim(s) + b);
    assert(blank(a) && blank(b));
    if trim(s).len() > 0 {
        assert(t[0] == trim(s)[0]);
    }
}

proof fn lemma_trim_start_takes(s: Seq<char>) -> (a: Seq<char>)
    ensures
        blank(a),
        s == a + trim_start(s),
        trim_start(s).len() > 0 ==> !is_space(trim_start(s)[0]),
    decreases s.len(),
{
    if s.len() > 0 && is_space(s[0]) {
        let a = lemma_trim_start_takes(s.drop_first());
        let all = seq![s[0]] + a;
        assert forall|i: int| 0 <= i < all.len() implies is_space(#[trigger] all[i]) by {
            if i > 0 {
                assert(is_space(a[i - 1]));
            }
        }
        assert(s =~= seq![s[0]] + s.drop_first());
        assert(seq![s[0]] + (a + trim_start(s)) =~= all + trim_start(s));
        all
    } else {
        assert(s =~= Seq::<char>::empty() + s);
        Seq::empty()
    }
}

proof fn lemma_trim_end_takes(s: Seq<char>) -> (b: Seq<char>)
    ensures
        blank(b),
        s == trim_end(s) + b,
        trim_end(s).len() > 0 ==> !is_space(trim_end(s).last()),
    decreases s.len(),
{
    if s.len() > 0 && is_space(s.last()) {
        let b = lemma_trim_end_takes(s.drop_last());
        let all = b.push(s.last());
        assert forall|i: int| 0 <= i < all.len() implies is_space(#[trigger] all[i]) by {
            if i < b.len() {
                assert(is_space(b[i]));
            }
        }
        assert(s =~= s.drop_last().push(s.last()));
        assert((trim_end(s) + b).push(s.last()) =~= trim_end(s) + all);
        all
    } else {
        assert(s =~= s + Seq::<char>::empty());
        Seq::empty()
    }
}

/// Whether `c` does not occur in `s`.
pub open spec fn lacks(s: Seq<char>, c: char) -> bool {
    forall|i: int| 0 <= i < s.len() ==> #[trigger] s[i] != c
}

/// What is searched is found behind a text that does not hold it.
pub proof fn lemma_found_behind(a: Seq<char>, c: char, b: Seq<char>)
    requires
        lacks(a, c),
    ensures
        find(a + seq![c] + b, c) == a.len(),
        find(a, c) == a.len(),
{
    let s = a + seq![c] + b;
    lemma_find(s, c);
    lemma_find(a, c);
    let i = find(s, c) as int;
    assert(s[a.len() as int] == c);
    if i < a.len() {
        assert(s[i] == a[i]);
    }
    if find(a, c) < a.len() {
        assert(a[find(a, c) as int] == c);
    }
}

/// Texts one after another, each with `end` behind it.
pub open spec fn ended(list: Seq<Seq<char>>, end: Seq<char>) -> Seq<char>
    decreases list.len(),
{
    if list.len() == 0 {
        Seq::empty()
    } else {
        list[0] + end + ended(list.drop_first(), end)
    }
}

/// Lines that are put one below the other come out again as they were, whether
/// they end with a line feed or with a carriage return and a line feed, and
/// whether or not the last of them ends so.
pub proof fn lines_come_out_as_they_were(list: Seq<Seq<char>>, rest: Seq<char>)
    requires
        forall|i: int| #![trigger list[i]] 0 <= i < list.len() ==> lacks(list[i], '\n'),
        forall|i: int|
            #![trigger list[i]]
            0 <= i < list.len() && list[i].len() > 0 ==> list[i].last() != '\r',
        lacks(rest, '\n'),
    ensures
        lines(ended(list, seq!['\n'])) == list,
        lines(ended(list, seq!['\r', '\n'])) == list,
        rest.len() > 0 ==> lines(ended(list, seq!['\n']) + rest) == list.push(rest),
    decreases list.len(),
{
    if list.len() > 0 {
        let tail = list.drop_first();
        assert forall|i: int| #![trigger tail[i]] 0 <= i < tail.len() implies lacks(tail[i], '\n')
            && (tail[i].len() > 0 ==> tail[i].last() != '\r') by {
            assert(tail[i] == list[i + 1]);
        }
        lines_come_out_as_they_were(tail, rest);
        let first = list[0];
        let (u, v) = (ended(tail, seq!['\n']), ended(tail, seq!['\r', '\n']));
        lemma_found_behind(first, '\n', u);
        lemma_found_behind(first, '\n', u + rest);
        let cr = first.push('\r');
        assert(lacks(cr, '\n'));
        lemma_found_behind(cr, '\n', v);
        let (a, b) = (first + seq!['\n'] + u, cr + seq!['\n'] + v);
        let c = first + seq!['\n'] + (u + rest);
        assert(ended(list, seq!['\n']) =~= a);
        assert(ended(list, seq!['\r', '\n']) =~= b);
        assert(ended(list, seq!['\n']) + rest =~= c);
        assert(a.take(first.len() as int) =~= first);
        assert(c.take(first.len() as int) =~= first);
        assert(b.take(cr.len() as int) =~= cr);
        assert(cr.drop_last() =~= first);
        assert(a.skip(first.len() as int + 1) =~= u);
        assert(c.skip(first.len() as int + 1) =~= u + rest);
        assert(b.skip(cr.len() as int + 1) =~= v);
        assert(seq![first] + tail =~= list);
        assert(seq![first] + tail.push(rest) =~= list.push(rest));
    } else {
        assert(list =~= Seq::<Seq<char>>::empty());
        assert(lines(Seq::<char>::empty()) == Seq::<Seq<char>>::empty());
        assert(ended(list, seq!['\n']) + rest =~= rest);
        lemma_find(rest, '\n');
        assert(seq![rest] =~= list.push(rest));
    }
}

/// White space around a text makes no difference to what is left of it once it is
/// trimmed.
pub proof fn lemma_trim_ignores_margins(a: Seq<char>, s: Seq<char>, b: Seq<char>)
    requires
        blank(a),
        blank(b),
    ensures
        trim(a + s + b) == trim(s),
{
    let t = trim(s);
    trimming_takes_white_space_alone(s);
    let (x, y) = choose|x: Seq<char>, y: Seq<char>| #[trigger]
        blank(x) && #[trigger] blank(y) && s == x + t + y;
    let (u, v) = (a + x, y + b);
    assert forall|i: int| 0 <= i < u.len() implies is_space(#[trigger] u[i]) by {
        if i < a.len() {
            assert(is_space(a[i]));
        } else {
            assert(is_space(x[i - a.len()]));
        }
    }
    assert forall|i: int| 0 <= i < v.len() implies is_space(#[trigger] v[i]) by {
        if i < y.len() {
            assert(is_space(y[i]));
        } else {
            assert(is_space(b[i - y.len()]));
        }
    }
    assert(a + s + b =~= u + t + v);
    white_space_around_makes_no_difference(u, t, v);
}

/// What stands between the occurrences of `c` in `s`.
pub open spec fn split(s: Seq<char>, c: char) -> Seq<Seq<char>>
    decreases s.len(),
{
    let i = find(s, c);
    if i >= s.len() {
        seq![s]
    } else {
        seq![s.take(i as int)] + split(s.skip(i as int + 1), c)
    }
}

proof fn lemma_join_first(list: Seq<Seq<char>>, sep: Seq<char>)
    requires
        list.len() > 1,
    ensures
        join(list, sep) == list[0] + sep + join(list.drop_first(), sep),
    decreases list.len(),
{
    let rest = list.drop_first();
    if list.len() == 2 {
        assert(list.drop_last().len() == 1 && rest.len() == 1);
        assert(join(list.drop_last(), sep) == list[0]);
        assert(join(rest, sep) == list[1]);
        assert(join(list, sep) =~= list[0] + sep + join(rest, sep));
    } else {
        let shorter = list.drop_last();
        lemma_join_first(shorter, sep);
        assert(shorter.drop_first() =~= rest.drop_last());
        assert(join(rest, sep) == join(rest.drop_last(), sep) + sep + list.last());
        assert(join(list, sep) == join(shorter, sep) + sep + list.last());
        assert(join(list, sep) =~= list[0] + sep + join(rest, sep));
    }
}

/// Texts that are joined come apart again as they were.
pub proof fn what_is_joined_comes_apart(list: Seq<Seq<char>>, c: char)
    requires
        list.len() > 0,
        forall|i: int| 0 <= i < list.len() ==> lacks(#[trigger] list[i], c),
    ensures
        split(join(list, seq![c]), c) == list,
    decreases list.len(),
{
    let first = list[0];
    let s = join(list, seq![c]);
    if list.len() == 1 {
        lemma_found_behind(first, c, Seq::empty());
        assert(seq![first] =~= list);
    } else {
        let rest = list.drop_first();
        lemma_join_first(list, seq![c]);
        let t = join(rest, seq![c]);
        lemma_found_behind(first, c, t);
        assert(s.take(first.len() as int) =~= first);
        assert(s.skip(first.len() as int + 1) =~= t);
        assert forall|i: int| 0 <= i < rest.len() implies lacks(#[trigger] rest[i], c) by {
            assert(rest[i] == list[i + 1]);
        }
        what_is_joined_comes_apart(rest, c);
        assert(seq![first] + rest =~= list);
    }
}

/// Whether `s` is made of what is printed in ASCII, without a comma.
pub open spec fn printed(s: Seq<char>) -> bool {
    forall|i: int| 0 <= i < s.len() ==> '!' <= #[trigger] s[i] <= '~' && s[i] != ','
}

pub proof fn lemma_printed_lacks(s: Seq<char>)
    requires
        printed(s),
    ensures
        lacks(s, ','),
        lacks(s, '\t'),
        lacks(s, '\n'),
        lacks(s, '\r'),
        lacks(s, ' '),
{
}

pub proof fn lemma_integer_is_printed(i: int)
    ensures
        printed(integer(i)),
        integer(i).len() > 0,
{
    let n = if i < 0 {
        (-i) as nat
    } else {
        i as nat
    };
    lemma_decimal_digits(n);
    let s = integer(i);
    assert forall|k: int| 0 <= k < s.len() implies '!' <= #[trigger] s[k] <= '~' && s[k]
        != ',' by {
        if i < 0 && k > 0 {
            assert(s[k] == decimal(n)[k - 1]);
        } else if i >= 0 {
            assert(s[k] == decimal(n)[k]);
        }
    }
}

/// Integers that are written alike are the same.
pub proof fn integers_are_told_apart(i: int, j: int)
    requires
        integer(i) == integer(j),
    ensures
        i == j,
{
    let (m, n) = (if i < 0 {
        (-i) as nat
    } else {
        i as nat
    }, if j < 0 {
        (-j) as nat
    } else {
        j as nat
    });
    lemma_decimal_digits(m);
    lemma_decimal_digits(n);
    assert((i < 0) == (integer(i)[0] == '-'));
    assert((j < 0) == (integer(j)[0] == '-'));
    if i < 0 {
        assert(integer(i).drop_first() =~= decimal(m));
        assert(integer(j).drop_first() =~= decimal(n));
    }
    let max = if m < n {
        n
    } else {
        m
    };
    lemma_number_reads_back(m, 10, max);
    lemma_number_reads_back(n, 10, max);
}

/// Lines one below the other, with more below them.
pub proof fn lemma_ended_sum(a: Seq<Seq<char>>, b: Seq<Seq<char>>, end: Seq<char>)
    ensures
        ended(a + b, end) == ended(a, end) + ended(b, end),
    decreases a.len(),
{
    if a.len() == 0 {
        assert(a + b =~= b);
        assert(ended(a, end) + ended(b, end) =~= ended(b, end));
    } else {
        assert((a + b).drop_first() =~= a.drop_first() + b);
        lemma_ended_sum(a.drop_first(), b, end);
        assert(ended(a + b, end) =~= ended(a, end) + ended(b, end));
    }
}

/// Whether `s` holds nothing that ends a line.
pub open spec fn one_line(s: Seq<char>) -> bool {
    lacks(s, '\n') && lacks(s, '\r')
}

pub proof fn lemma_one_line_sum(a: Seq<char>, b: Seq<char>)
    requires
        one_line(a),
        one_line(b),
    ensures
        one_line(a + b),
{
    let s = a + b;
    assert forall|i: int| 0 <= i < s.len() implies #[trigger] s[i] != '\n' && s[i] != '\r' by {
        if i < a.len() {
            assert(a[i] != '\n' && a[i] != '\r');
        } else {
            assert(b[i - a.len()] != '\n' && b[i - a.len()] != '\r');
        }
    }
}

pub proof fn lemma_lines_of(list: Seq<Seq<char>>)
    requires
        forall|i: int| 0 <= i < list.len() ==> one_line(#[trigger] list[i]),
    ensures
        lines(ended(list, seq!['\n'])) == list,
{
    assert forall|i: int| #![trigger list[i]] 0 <= i < list.len() && list[i].len()
        > 0 implies list[i].last() != '\r' by {
        assert(one_line(list[i]));
        assert(list[i][list[i].len() - 1] != '\r');
    }
    lines_come_out_as_they_were(list, Seq::empty());
}

pub proof fn lemma_ended_one(s: Seq<char>, end: Seq<char>)
    ensures
        ended(seq![s], end) == s + end,
{
    reveal_with_fuel(ended, 2);
    assert(seq![s].drop_first() =~= Seq::empty());
    assert(ended(seq![s], end) =~= s + end);
}

/// Whether `part` stands somewhere in `s`.
pub open spec fn holds(s: Seq<char>, part: Seq<char>) -> bool {
    exists|a: Seq<char>, b: Seq<char>| s == #[trigger] (a + part + b)
}

pub proof fn lemma_holds(s: Seq<char>, a: Seq<char>, part: Seq<char>, b: Seq<char>)
    requires
        s == a + part + b,
    ensures
        holds(s, part),
{
}

/// Of two texts that start alike, the one with the lesser character where they
/// first differ stands before the other, and the one that ends there stands before
/// the one that goes on.
pub proof fn the_first_difference_decides(
    common: Seq<char>,
    a: char,
    x: Seq<char>,
    b: char,
    y: Seq<char>,
)
    requires
        a != b,
    ensures
        before(common + seq![a] + x, common + seq![b] + y) <==> a < b,
        before(common, common + seq![b] + y),
        !before(common + seq![b] + y, common),
    decreases common.len(),
{
    let (s, t) = (common + seq![a] + x, common + seq![b] + y);
    if common.len() == 0 {
        assert(s[0] == a && t[0] == b);
    } else {
        let rest = common.drop_first();
        the_first_difference_decides(rest, a, x, b, y);
        assert(s.drop_first() =~= rest + seq![a] + x);
        assert(t.drop_first() =~= rest + seq![b] + y);
        assert(s[0] == common[0] && t[0] == common[0]);
    }
}

/// A number is written most significant digit first, and read so: a digit behind
/// it makes it ten times as much and adds the digit, in any other base likewise. A
/// negative number, and no other, has a sign in front.
pub proof fn numbers_are_written_from_the_left(n: nat, d: nat, s: Seq<char>, radix: nat, max: nat)
    requires
        d < 10,
        d < radix,
        2 <= radix <= 16,
    ensures
        decimal(d) == seq![('0' as u32 + d) as char],
        n > 0 ==> decimal(10 * n + d) == decimal(n).push(('0' as u32 + d) as char),
        digits(s, radix, max) matches Ok(k) ==> digits(
            s.push(('0' as u32 + d) as char),
            radix,
            max,
        ) == (if k * radix + d <= max {
            Ok::<nat, IntError>(k * radix + d)
        } else {
            Err(IntError::TooLarge)
        }),
        digits(s, radix, max) matches Err(e) ==> digits(
            s.push(('0' as u32 + d) as char),
            radix,
            max,
        ) == Err::<nat, IntError>(e),
        digits(Seq::empty(), radix, max) == Ok::<nat, IntError>(0),
        n > 0 ==> integer(-n) == seq!['-'] + decimal(n),
        integer(n as int) == decimal(n),
        integer(n as int)[0] != '-',
{
    let c = ('0' as u32 + d) as char;
    assert(s.push(c).drop_last() =~= s);
    assert(digit_value(c) == Some(d));
    lemma_decimal_digits(n);
    if n > 0 {
        let m = 10 * n + d;
        assert(m / 10 == n && m % 10 == d);
        assert(decimal(m) == number(m / 10, 10).push(digit_char(m % 10)));
    }
}

/// Nothing but a digit of the base is read as one, in lower or upper case; a `+`
/// in front makes no difference, and alone it is no number, as little as nothing
/// at all.
pub proof fn only_digits_are_read(s: Seq<char>, c: char, radix: nat, max: nat)
    requires
        2 <= radix <= 16,
    ensures
        !('0' <= c <= '9') && !('a' <= c <= 'f') && !('A' <= c <= 'F') && digits(s, radix, max)
            is Ok ==> digits(s.push(c), radix, max) == Err::<nat, IntError>(
            IntError::InvalidDigit,
        ),
        radix <= 10 && !('0' <= c <= '9') ==> digits(s.push(c), radix, max) is Err,
        'a' <= c <= 'f' ==> digits(s.push(c), radix, max) == digits(
            s.push((c as u32 - 32) as char),
            radix,
            max,
        ),
        unsigned(Seq::empty(), radix, max) == Err::<nat, IntError>(IntError::Empty),
        unsigned(seq!['+'], radix, max) == Err::<nat, IntError>(IntError::InvalidDigit),
        s.len() > 0 ==> unsigned(seq!['+'] + s, radix, max) == digits(s, radix, max),
        s.len() > 0 && s[0] != '+' ==> unsigned(s, radix, max) == digits(s, radix, max),
{
    assert(s.push(c).drop_last() =~= s);
    if 'a' <= c <= 'f' {
        let u = (c as u32 - 32) as char;
        assert('A' <= u <= 'F');
        assert(s.push(u).drop_last() =~= s);
    }
    assert((seq!['+'] + s).drop_first() =~= s);
}

} // verus!
