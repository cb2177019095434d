use vstd::prelude::*;

verus! {

/// The generator polynomial, without its leading term.
pub const POLYNOMIAL: u8 = 0x85;

/// One step of the division: shift a bit out, and subtract the polynomial where
/// that bit was set.
pub open spec fn step(crc: u8) -> u8 {
    if crc & 0x80 == 0x80 {
        (crc << 1) ^ POLYNOMIAL
    } else {
        crc << 1
    }
}

/// `n` steps of the division.
pub open spec fn shift(crc: u8, n: nat) -> u8
    decreases n,
{
    if n == 0 {
        crc
    } else {
        step(shift(crc, (n - 1) as nat))
    }
}

/// The remainder that `payload` leaves: zero to start with, most significant
/// bit first, nothing added at the end.
pub open spec fn crc(payload: Seq<u8>) -> u8
    decreases payload.len(),
{
    if payload.len() == 0 {
        0
    } else {
        shift(crc(payload.drop_last()) ^ payload.last(), 8)
    }
}

/// CRC-8 over the payload bytes, as the device expects: polynomial 0x85, zero
/// initial value, no reflection. Not any catalogued standard variant.
pub fn crc8(payload: &[u8]) -> (r: u8)
    ensures
        r == crc(payload@),
{
    let mut r: u8 = 0;
    let mut i: usize = 0;
    while i < payload.len()
        invariant
            i <= payload@.len(),
            r == crc(payload@.take(i as int)),
        decreases payload@.len() - i,
    {
        proof {
            assert(payload@.take(i + 1).drop_last() =~= payload@.take(i as int));
        }
        let start: u8 = r ^ payload[i];
        r = start;
        let mut bit: u8 = 0;
        while bit < 8
            invariant
                bit <= 8,
                r == shift(start, bit as nat),
            decreases 8 - bit,
        {
            r = if r & 0x80 == 0x80 {
                (r << 1) ^ POLYNOMIAL
            } else {
                r << 1
            };
            bit = bit + 1;
        }
        i = i + 1;
    }
    proof {
        assert(payload@.take(i as int) =~= payload@);
    }
    r
}

/// Eight steps at once.
spec fn shift_byte(c: u8) -> u8 {
    step(step(step(step(step(step(step(step(c))))))))
}

proof fn lemma_shift_byte(c: u8)
    ensures
        shift(c, 8) == shift_byte(c),
{
    reveal_with_fuel(shift, 9);
}

proof fn lemma_step_zero()
    ensures
        shift(0, 8) == 0,
{
    lemma_shift_byte(0);
    assert(step(0) == 0) by (bit_vector);
}

proof fn lemma_step_injective(a: u8, b: u8)
    requires
        step(a) == step(b),
    ensures
        a == b,
{
    assert(step(a) == step(b) ==> a == b) by (bit_vector);
}

proof fn lemma_shift_injective(a: u8, b: u8, n: nat)
    requires
        shift(a, n) == shift(b, n),
    ensures
        a == b,
    decreases n,
{
    if n > 0 {
        lemma_step_injective(shift(a, (n - 1) as nat), shift(b, (n - 1) as nat));
        lemma_shift_injective(a, b, (n - 1) as nat);
    }
}

/// A payload followed by its own checksum leaves no remainder, which is how a
/// receiver can check both together.
pub proof fn crc_of_payload_and_checksum_is_zero(payload: Seq<u8>)
    ensures
        crc(payload.push(crc(payload))) == 0,
{
    let whole = payload.push(crc(payload));
    let c = crc(payload);
    assert(whole.drop_last() =~= payload);
    assert(c ^ c == 0) by (bit_vector);
    lemma_step_zero();
}

/// Two payloads of one length that differ in a single byte never share a
/// checksum: any damage confined to one byte is detected.
pub proof fn crc_detects_one_damaged_byte(a: Seq<u8>, b: Seq<u8>, at: int)
    requires
        a.len() == b.len(),
        0 <= at < a.len(),
        a[at] != b[at],
        forall|i: int| 0 <= i < a.len() && i != at ==> a[i] == b[i],
    ensures
        crc(a) != crc(b),
    decreases a.len(),
{
    let (x, y) = (crc(a.drop_last()), crc(b.drop_last()));
    let (p, q) = (a.last(), b.last());
    if at == a.len() - 1 {
        assert(a.drop_last() =~= b.drop_last());
        assert(p != q ==> x ^ p != x ^ q) by (bit_vector);
    } else {
        crc_detects_one_damaged_byte(a.drop_last(), b.drop_last(), at);
        assert(x != y ==> x ^ p != y ^ p) by (bit_vector);
    }
    if shift(x ^ p, 8) == shift(y ^ q, 8) {
        lemma_shift_injective(x ^ p, y ^ q, 8);
    }
}

/// `q` times the generator, as polynomials over two elements: what one byte of
/// the quotient takes off the message.
pub open spec fn multiple(q: u8) -> u16 {
    (if q & 0x01 == 0x01 {
        0x185u16
    } else {
        0
    }) ^ (if q & 0x02 == 0x02 {
        0x30au16
    } else {
        0
    }) ^ (if q & 0x04 == 0x04 {
        0x614u16
    } else {
        0
    }) ^ (if q & 0x08 == 0x08 {
        0xc28u16
    } else {
        0
    }) ^ (if q & 0x10 == 0x10 {
        0x1850u16
    } else {
        0
    }) ^ (if q & 0x20 == 0x20 {
        0x30a0u16
    } else {
        0
    }) ^ (if q & 0x40 == 0x40 {
        0x6140u16
    } else {
        0
    }) ^ (if q & 0x80 == 0x80 {
        0xc280u16
    } else {
        0
    })
}

/// Eight bits of a division, written out: the quotient.
spec fn quotient(c: u8) -> u8 {
    let c1 = step(c);
    let c2 = step(c1);
    let c3 = step(c2);
    let c4 = step(c3);
    let c5 = step(c4);
    let c6 = step(c5);
    let c7 = step(c6);
    (c & 0x80) | ((c1 & 0x80) >> 1u8) | ((c2 & 0x80) >> 2u8) | ((c3 & 0x80) >> 3u8) | ((c4 & 0x80)
        >> 4u8) | ((c5 & 0x80) >> 5u8) | ((c6 & 0x80) >> 6u8) | ((c7 & 0x80) >> 7u8)
}

proof fn lemma_division(c: u8)
    ensures
        multiple(quotient(c)) == ((c as u16) << 8u16) ^ (shift_byte(c) as u16),
{
    assert(multiple(quotient(c)) == ((c as u16) << 8u16) ^ (shift_byte(c) as u16)) by (bit_vector);
}

/// The checksum is the remainder of a division by x^8 + x^7 + x^2 + 1, eight bits
/// for every byte: with each further byte, what was left of the message so far and
/// the byte, moved up by eight bits, differ from what is left then by a multiple
/// of the generator. Nothing is left of nothing.
pub proof fn crc_is_the_remainder(payload: Seq<u8>, next: u8)
    ensures
        crc(Seq::empty()) == 0,
        exists|q: u8| #[trigger]
            multiple(q) == (((crc(payload) ^ next) as u16) << 8u16) ^ (crc(payload.push(next))
                as u16),
{
    let c = crc(payload) ^ next;
    assert(payload.push(next).drop_last() =~= payload);
    lemma_shift_byte(c);
    lemma_division(c);
    assert(multiple(quotient(c)) == ((c as u16) << 8u16) ^ (crc(payload.push(next)) as u16));
}

/// No other byte is such a remainder: two that differ by a multiple of the
/// generator are the same.
pub proof fn remainders_are_unique(c: u8, a: u8, b: u8, p: u8, q: u8)
    requires
        multiple(p) == ((c as u16) << 8u16) ^ (a as u16),
        multiple(q) == ((c as u16) << 8u16) ^ (b as u16),
    ensures
        a == b,
{
    assert(multiple(p) == ((c as u16) << 8u16) ^ (a as u16) && multiple(q) == ((c as u16) << 8u16)
        ^ (b as u16) ==> a == b) by (bit_vector);
}

/// Two payloads of one length, added without carry.
pub open spec fn added(a: Seq<u8>, b: Seq<u8>) -> Seq<u8> {
    Seq::new(a.len(), |i: int| a[i] ^ b[i])
}

/// The checksum of a sum is the sum of the checksums.
pub proof fn crc_is_linear(a: Seq<u8>, b: Seq<u8>)
    requires
        a.len() == b.len(),
    ensures
        crc(added(a, b)) == crc(a) ^ crc(b),
    decreases a.len(),
{
    if a.len() > 0 {
        let (s, t) = (a.drop_last(), b.drop_last());
        crc_is_linear(s, t);
        assert(added(a, b).drop_last() =~= added(s, t));
        let (x, y, p, q) = (crc(s), crc(t), a.last(), b.last());
        assert((x ^ y) ^ (p ^ q) == (x ^ p) ^ (y ^ q)) by (bit_vector);
        let (u, v) = (x ^ p, y ^ q);
        lemma_shift_byte(u);
        lemma_shift_byte(v);
        lemma_shift_byte(u ^ v);
        assert(shift_byte(u ^ v) == shift_byte(u) ^ shift_byte(v)) by (bit_vector);
    } else {
        assert(0u8 ^ 0u8 == 0u8) by (bit_vector);
    }
}

/// Zeros before a message change nothing.
pub proof fn leading_zeros_change_nothing(payload: Seq<u8>)
    ensures
        crc(seq![0u8] + payload) == crc(payload),
    decreases payload.len(),
{
    let whole = seq![0u8] + payload;
    if payload.len() > 0 {
        leading_zeros_change_nothing(payload.drop_last());
        assert(whole.drop_last() =~= seq![0u8] + payload.drop_last());
    } else {
        assert(whole.drop_last() =~= Seq::empty());
        assert(crc(whole.drop_last()) == 0);
        assert(whole.last() == 0);
        assert(0u8 ^ 0u8 == 0u8) by (bit_vector);
        lemma_step_zero();
    }
}

} // verus!
