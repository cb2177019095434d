use crate::text::{self, IntError};
use vstd::prelude::*;
use vstd::slice::slice_subrange;
use vstd::string::*;

verus! {

/// The address of a Bluetooth device, most significant byte first.
#[derive(Clone, Copy, Debug, PartialEq, Eq, Structural)]
pub struct BDAddr(pub u8, pub u8, pub u8, pub u8, pub u8, pub u8);

impl BDAddr {
    /// The bytes of the address.
    pub open spec fn bytes(self) -> Seq<u8> {
        seq![self.0, self.1, self.2, self.3, self.4, self.5]
    }

    /// The address made of six bytes.
    pub open spec fn of(bytes: Seq<u8>) -> BDAddr {
        BDAddr(bytes[0], bytes[1], bytes[2], bytes[3], bytes[4], bytes[5])
    }
}

/// Why a text is not an address.
#[derive(Clone, Copy, Debug, PartialEq, Eq, Structural)]
pub enum AddrError {
    IncorrectByteCount,
    InvalidDigit(IntError),
}

pub open spec fn int_error_text(e: IntError) -> Seq<char> {
    match e {
        IntError::Empty => "cannot parse integer from empty string"@,
        IntError::InvalidDigit => "invalid digit found in string"@,
        IntError::TooLarge => "number too large to fit in target type"@,
    }
}

/// What is wrong with an integer, in words.
pub fn int_error_message(e: IntError) -> (s: String)
    ensures
        s@ == int_error_text(e),
{
    match e {
        IntError::Empty => "cannot parse integer from empty string".to_owned(),
        IntError::InvalidDigit => "invalid digit found in string".to_owned(),
        IntError::TooLarge => "number too large to fit in target type".to_owned(),
    }
}

impl AddrError {
    pub open spec fn text(self) -> Seq<char> {
        match self {
            AddrError::IncorrectByteCount => "Bluetooth address has to be 6 bytes long"@,
            AddrError::InvalidDigit(e) => "Invalid digit in address: "@ + int_error_text(e),
        }
    }

    /// What is wrong, in words.
    pub fn message(self) -> (s: String)
        ensures
            s@ == self.text(),
    {
        match self {
            AddrError::IncorrectByteCount => "Bluetooth address has to be 6 bytes long".to_owned(),
            AddrError::InvalidDigit(e) => {
                let mut s = "Invalid digit in address: ".to_owned();
                s.append(int_error_message(e).as_str());
                s
            },
        }
    }
}

/// The bytes that `s` spells in hexadecimal, a colon between each and the next.
pub open spec fn delimited(s: Seq<char>) -> Result<Seq<u8>, IntError>
    decreases s.len(),
{
    let i = text::find(s, ':');
    match text::unsigned(s.take(i as int), 16, 255) {
        Err(e) => Err(e),
        Ok(byte) => if i >= s.len() {
            Ok(seq![byte as u8])
        } else {
            match delimited(s.skip(i as int + 1)) {
                Err(e) => Err(e),
                Ok(rest) => Ok(seq![byte as u8] + rest),
            }
        },
    }
}

/// The bytes that `s` spells in hexadecimal, two characters for each.
pub open spec fn undelimited(s: Seq<char>) -> Result<Seq<u8>, IntError>
    decreases s.len(),
{
    if s.len() < 2 {
        if s.len() == 0 {
            Ok(Seq::empty())
        } else {
            Err(IntError::InvalidDigit)
        }
    } else {
        match text::unsigned(s.take(2), 16, 255) {
            Err(e) => Err(e),
            Ok(byte) => match undelimited(s.skip(2)) {
                Err(e) => Err(e),
                Ok(rest) => Ok(seq![byte as u8] + rest),
            },
        }
    }
}

/// The bytes of the address that `s` spells: six bytes in hexadecimal with
/// colons between them, or twelve hexadecimal digits.
pub open spec fn parsed(s: Seq<char>) -> Result<BDAddr, AddrError> {
    if text::find(s, ':') < s.len() {
        match delimited(s) {
            Err(e) => Err(AddrError::InvalidDigit(e)),
            Ok(bytes) => if bytes.len() == 6 {
                Ok(BDAddr::of(bytes))
            } else {
                Err(AddrError::IncorrectByteCount)
            },
        }
    } else if text::utf8_length(s) != 12 {
        Err(AddrError::IncorrectByteCount)
    } else if s.len() != 12 {
        Err(AddrError::InvalidDigit(IntError::InvalidDigit))
    } else {
        match undelimited(s) {
            Err(e) => Err(AddrError::InvalidDigit(e)),
            Ok(bytes) => Ok(BDAddr::of(bytes)),
        }
    }
}

/// What a reader that has `bytes` already makes of the rest.
spec fn after(bytes: Seq<u8>, rest: Result<Seq<u8>, IntError>) -> Result<Seq<u8>, IntError> {
    match rest {
        Err(e) => Err(e),
        Ok(rest) => Ok(bytes + rest),
    }
}

fn read_delimited(s: &[char]) -> (r: Result<Vec<u8>, IntError>)
    ensures
        r is Ok <==> delimited(s@) is Ok,
        r matches Ok(bytes) ==> bytes@ == delimited(s@)->Ok_0,
        r matches Err(e) ==> e == delimited(s@)->Err_0,
{
    let mut bytes: Vec<u8> = Vec::new();
    let mut rest: &[char] = s;
    proof {
        if let Ok(all) = delimited(s@) {
            assert(Seq::<u8>::empty() + all =~= all);
        }
    }
    loop
        invariant
            delimited(s@) == after(bytes@, delimited(rest@)),
        decreases rest@.len(),
    {
        let i: usize = text::position(rest, ':');
        proof {
            assert(rest@.take(i as int) =~= rest@.subrange(0, i as int));
        }
        let byte: u64 = match text::read_unsigned(slice_subrange(rest, 0, i), 16, 255) {
            Ok(byte) => byte,
            Err(e) => return Err(e),
        };
        proof {
            text::lemma_unsigned_bound(rest@.take(i as int), 16, 255);
        }
        if i >= rest.len() {
            proof {
                assert(bytes@ + seq![byte as u8] =~= bytes@.push(byte as u8));
            }
            bytes.push(byte as u8);
            return Ok(bytes);
        }
        proof {
            let tail = rest@.skip(i + 1);
            assert(tail =~= rest@.subrange(i + 1, rest@.len() as int));
            if let Ok(more) = delimited(tail) {
                assert(bytes@ + (seq![byte as u8] + more) =~= bytes@.push(byte as u8) + more);
            }
        }
        bytes.push(byte as u8);
        rest = slice_subrange(rest, i + 1, rest.len());
    }
}

fn read_undelimited(s: &[char]) -> (r: Result<Vec<u8>, IntError>)
    requires
        s@.len() % 2 == 0,
    ensures
        r is Ok <==> undelimited(s@) is Ok,
        r matches Ok(bytes) ==> bytes@ == undelimited(s@)->Ok_0 && bytes@.len() * 2 == s@.len(),
        r matches Err(e) ==> e == undelimited(s@)->Err_0,
{
    let mut bytes: Vec<u8> = Vec::new();
    let mut i: usize = 0;
    proof {
        assert(s@.skip(0) =~= s@);
        if let Ok(all) = undelimited(s@) {
            assert(Seq::<u8>::empty() + all =~= all);
        }
    }
    while i < s.len()
        invariant
            i <= s@.len(),
            i % 2 == 0,
            s@.len() % 2 == 0,
            bytes@.len() * 2 == i,
            undelimited(s@) == after(bytes@, undelimited(s@.skip(i as int))),
        decreases s@.len() - i,
    {
        let ghost rest = s@.skip(i as int);
        proof {
            assert(rest.take(2) =~= s@.subrange(i as int, i + 2));
            assert(rest.skip(2) =~= s@.skip(i + 2));
        }
        let byte: u64 = match text::read_unsigned(slice_subrange(s, i, i + 2), 16, 255) {
            Ok(byte) => byte,
            Err(e) => return Err(e),
        };
        proof {
            text::lemma_unsigned_bound(rest.take(2), 16, 255);
            if let Ok(more) = undelimited(rest.skip(2)) {
                assert(bytes@ + (seq![byte as u8] + more) =~= bytes@.push(byte as u8) + more);
            }
        }
        bytes.push(byte as u8);
        i = i + 2;
    }
    proof {
        assert(s@.skip(i as int) =~= Seq::empty());
        assert(bytes@ + Seq::empty() =~= bytes@);
    }
    Ok(bytes)
}

fn six(bytes: &Vec<u8>) -> (addr: BDAddr)
    requires
        bytes@.len() == 6,
    ensures
        addr == BDAddr::of(bytes@),
{
    BDAddr(bytes[0], bytes[1], bytes[2], bytes[3], bytes[4], bytes[5])
}

/// The digit that stands for `d`, in upper case.
pub open spec fn upper_digit(d: nat) -> char {
    if d < 10 {
        ('0' as u32 + d) as char
    } else {
        ('A' as u32 + (d - 10)) as char
    }
}

/// A byte as two hexadecimal digits.
pub open spec fn byte_text(b: u8) -> Seq<char> {
    seq![upper_digit((b / 16) as nat), upper_digit((b % 16) as nat)]
}

/// Bytes in hexadecimal, a colon between each and the next.
pub open spec fn bytes_text(bytes: Seq<u8>) -> Seq<char>
    decreases bytes.len(),
{
    if bytes.len() == 0 {
        Seq::empty()
    } else if bytes.len() == 1 {
        byte_text(bytes[0])
    } else {
        byte_text(bytes[0]) + seq![':'] + bytes_text(bytes.drop_first())
    }
}

fn to_upper_digit(d: u8) -> (c: char)
    requires
        d < 16,
    ensures
        c == upper_digit(d as nat),
{
    if d < 10 {
        (48 + d) as char
    } else {
        (65 + (d - 10)) as char
    }
}

impl BDAddr {
    /// Read an address.
    pub fn parse(s: &str) -> (r: Result<BDAddr, AddrError>)
        ensures
            r == parsed(s@),
    {
        let cs = text::chars(s);
        let cs = cs.as_slice();
        if text::position(cs, ':') < cs.len() {
            match read_delimited(cs) {
                Err(e) => Err(AddrError::InvalidDigit(e)),
                Ok(bytes) => if bytes.len() == 6 {
                    Ok(six(&bytes))
                } else {
                    Err(AddrError::IncorrectByteCount)
                },
            }
        } else if text::count_utf8(s) != 12 {
            Err(AddrError::IncorrectByteCount)
        } else if cs.len() != 12 {
            Err(AddrError::InvalidDigit(IntError::InvalidDigit))
        } else {
            match read_undelimited(cs) {
                Err(e) => Err(AddrError::InvalidDigit(e)),
                Ok(bytes) => Ok(six(&bytes)),
            }
        }
    }

    /// The address as it is usually written.
    pub open spec fn text(self) -> Seq<char> {
        bytes_text(self.bytes())
    }

    /// Write the address: `CB:DF:6B:12:34:56`.
    pub fn display(self) -> (s: String)
        ensures
            s@ == self.text(),
    {
        let bytes = [self.0, self.1, self.2, self.3, self.4, self.5];
        let ghost all = self.bytes();
        let mut s = String::new();
        let mut i: usize = 0;
        proof {
            assert(all.skip(0) =~= all);
        }
        while i < 6
            invariant
                i <= 6,
                all == bytes@,
                all.len() == 6,
                bytes_text(all) == s@ + bytes_text(all.skip(i as int)),
            decreases 6 - i,
        {
            let ghost before = s@;
            let b: u8 = bytes[i];
            s.push(to_upper_digit(b / 16));
            s.push(to_upper_digit(b % 16));
            proof {
                let rest = all.skip(i as int);
                assert(rest[0] == b);
                assert(rest.drop_first() =~= all.skip(i + 1));
                if rest.len() == 1 {
                    assert(s@ + bytes_text(all.skip(i + 1)) =~= before + bytes_text(rest));
                } else {
                    assert(s@.push(':') + bytes_text(all.skip(i + 1)) =~= before + bytes_text(
                        rest,
                    ));
                }
            }
            i = i + 1;
            if i < 6 {
                s.push(':');
            }
        }
        assert(s@ + bytes_text(all.skip(6)) =~= s@);
        s
    }
}

proof fn lemma_byte_reads_back(b: u8)
    ensures
        text::unsigned(byte_text(b), 16, 255) == Ok::<nat, IntError>(b as nat),
        text::find(byte_text(b), ':') == 2,
        byte_text(b).len() == 2,
        byte_text(b)[0] != ':',
        byte_text(b)[1] != ':',
{
    let (h, l) = ((b / 16) as nat, (b % 16) as nat);
    let s = byte_text(b);
    assert(text::digit_value(s[0]) == Some(h));
    assert(text::digit_value(s[1]) == Some(l));
    assert(s.drop_last().drop_last() =~= Seq::empty());
    assert(text::digits(Seq::empty(), 16, 255) == Ok::<nat, IntError>(0));
    assert(s.drop_last().last() == s[0]);
    assert(text::digits(s.drop_last(), 16, 255) == Ok::<nat, IntError>(h));
    text::lemma_find(s, ':');
}

proof fn lemma_bytes_read_back(bytes: Seq<u8>)
    requires
        bytes.len() > 0,
    ensures
        delimited(bytes_text(bytes)) == Ok::<Seq<u8>, IntError>(bytes),
        bytes.len() > 1 ==> text::find(bytes_text(bytes), ':') < bytes_text(bytes).len(),
    decreases bytes.len(),
{
    let s = bytes_text(bytes);
    let head = byte_text(bytes[0]);
    lemma_byte_reads_back(bytes[0]);
    text::lemma_find(s, ':');
    if bytes.len() == 1 {
        assert(s.take(2) =~= head);
        assert(seq![bytes[0]] =~= bytes);
    } else {
        let tail = bytes.drop_first();
        assert(s[2] == ':');
        assert(s[0] == head[0] && s[1] == head[1]);
        assert(text::find(s, ':') == 2);
        assert(s.take(2) =~= head);
        assert(s.skip(3) =~= bytes_text(tail));
        lemma_bytes_read_back(tail);
        assert(seq![bytes[0]] + tail =~= bytes);
    }
}

/// An address that is written out reads back as the same address.
pub proof fn display_then_parse(addr: BDAddr)
    ensures
        parsed(addr.text()) == Ok::<BDAddr, AddrError>(addr),
{
    lemma_bytes_read_back(addr.bytes());
}

/// Twelve hexadecimal digits without colons are read as the same address.
#[verifier::rlimit(40)]
pub proof fn colons_make_no_difference(addr: BDAddr)
    ensures
        parsed(
            byte_text(addr.0) + byte_text(addr.1) + byte_text(addr.2) + byte_text(addr.3)
                + byte_text(addr.4) + byte_text(addr.5),
        ) == Ok::<BDAddr, AddrError>(addr),
{
    let s = byte_text(addr.0) + byte_text(addr.1) + byte_text(addr.2) + byte_text(addr.3)
        + byte_text(addr.4) + byte_text(addr.5);
    let s5 = byte_text(addr.5);
    let s4 = byte_text(addr.4) + s5;
    let s3 = byte_text(addr.3) + s4;
    let s2 = byte_text(addr.2) + s3;
    let s1 = byte_text(addr.1) + s2;
    let s0 = byte_text(addr.0) + s1;
    assert(s =~= s0);
    let none = Seq::<char>::empty();
    assert(undelimited(none) == Ok::<Seq<u8>, IntError>(Seq::empty()));
    assert(s5 + none =~= s5);
    lemma_one_more_byte(addr.5, none, Seq::empty());
    lemma_one_more_byte(addr.4, s5, seq![addr.5] + Seq::empty());
    lemma_one_more_byte(addr.3, s4, seq![addr.4] + (seq![addr.5] + Seq::empty()));
    let b3 = seq![addr.3] + (seq![addr.4] + (seq![addr.5] + Seq::empty()));
    lemma_one_more_byte(addr.2, s3, b3);
    let b2 = seq![addr.2] + b3;
    lemma_one_more_byte(addr.1, s2, b2);
    let b1 = seq![addr.1] + b2;
    lemma_one_more_byte(addr.0, s1, b1);
    assert(seq![addr.0] + b1 =~= addr.bytes());
    lemma_byte_reads_back(addr.0);
    lemma_byte_reads_back(addr.1);
    lemma_byte_reads_back(addr.2);
    lemma_byte_reads_back(addr.3);
    lemma_byte_reads_back(addr.4);
    lemma_byte_reads_back(addr.5);
    assert(text::lacks(s, ':'));
    text::lemma_found_behind(s, ':', none);
    assert forall|i: int| 0 <= i < s.len() implies '\0' <= #[trigger] s[i] <= '\u{7f}' by {
        lemma_hex_is_ascii(addr.0);
        lemma_hex_is_ascii(addr.1);
        lemma_hex_is_ascii(addr.2);
        lemma_hex_is_ascii(addr.3);
        lemma_hex_is_ascii(addr.4);
        lemma_hex_is_ascii(addr.5);
    }
    lemma_ascii_length(s);
}

proof fn lemma_one_more_byte(b: u8, rest: Seq<char>, bytes: Seq<u8>)
    requires
        undelimited(rest) == Ok::<Seq<u8>, IntError>(bytes),
    ensures
        undelimited(byte_text(b) + rest) == Ok::<Seq<u8>, IntError>(seq![b] + bytes),
{
    let s = byte_text(b) + rest;
    lemma_byte_reads_back(b);
    assert(s.take(2) =~= byte_text(b));
    assert(s.skip(2) =~= rest);
}

proof fn lemma_hex_is_ascii(b: u8)
    ensures
        '\0' <= byte_text(b)[0] <= '\u{7f}',
        '\0' <= byte_text(b)[1] <= '\u{7f}',
{
}

proof fn lemma_ascii_length(s: Seq<char>)
    requires
        forall|i: int| 0 <= i < s.len() ==> '\0' <= #[trigger] s[i] <= '\u{7f}',
    ensures
        text::utf8_length(s) == s.len(),
{
    vstd::utf8::is_ascii_chars_encode_utf8(s);
}

/// An address is written as six pairs of digits with colons between them, the
/// most significant byte first: the pair in each place stands for the byte there.
#[verifier::rlimit(40)]
pub proof fn an_address_is_written_byte_by_byte(addr: BDAddr)
    ensures
        addr.text().len() == 17,
        addr.text()[2] == ':' && addr.text()[5] == ':' && addr.text()[8] == ':' && addr.text()[11]
            == ':' && addr.text()[14] == ':',
        forall|i: int|
            0 <= i < 6 ==> text::unsigned(
                #[trigger] addr.text().subrange(3 * i, 3 * i + 2),
                16,
                255,
            ) == Ok::<nat, IntError>(addr.bytes()[i] as nat),
{
    let b = addr.bytes();
    reveal_with_fuel(bytes_text, 7);
    let colon = seq![':'];
    let s = byte_text(b[0]) + colon + byte_text(b[1]) + colon + byte_text(b[2]) + colon + byte_text(
        b[3],
    ) + colon + byte_text(b[4]) + colon + byte_text(b[5]);
    assert(addr.text() =~= s);
    assert forall|i: int| 0 <= i < 6 implies text::unsigned(
        #[trigger] addr.text().subrange(3 * i, 3 * i + 2),
        16,
        255,
    ) == Ok::<nat, IntError>(addr.bytes()[i] as nat) by {
        lemma_byte_reads_back(b[i]);
        assert(s.subrange(3 * i, 3 * i + 2) =~= byte_text(b[i]));
    }
}

#[verifier::rlimit(40)]
pub proof fn lemma_text_is_printed(addr: BDAddr)
    ensures
        text::printed(addr.text()),
{
    let b = addr.bytes();
    reveal_with_fuel(bytes_text, 7);
    let colon = seq![':'];
    let s = byte_text(b[0]) + colon + byte_text(b[1]) + colon + byte_text(b[2]) + colon + byte_text(
        b[3],
    ) + colon + byte_text(b[4]) + colon + byte_text(b[5]);
    assert(addr.text() =~= s);
    assert forall|i: int| 0 <= i < s.len() implies '!' <= #[trigger] s[i] <= '~' && s[i]
        != ',' by {
        let (k, j) = (i / 3, i % 3);
        if j < 2 {
            assert(s[i] == byte_text(b[k])[j]);
        }
    }
}

} // verus!
