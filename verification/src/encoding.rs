//! Variable-length integers and length-prefixed byte strings.
//!
//! An integer is written seven bits at a time, the lowest first; every byte but the last has its
//! top bit set. A byte string is its length followed by its bytes. What a reader does is said by a
//! function on the bytes that are left; the readers themselves take what they read off a slice.
use vstd::prelude::*;

verus! {

/// Why bytes cannot be decoded.
#[derive(Debug, Clone, Copy, PartialEq, Eq, Structural)]
pub enum DecodeError {
    /// The bytes end before the value does.
    UnexpectedEnd,
    /// An integer does not fit in 64 bits, or is longer than such an integer can be.
    IntegerTooLong,
    /// A bitmap cannot be read.
    CorruptBitmap,
    /// A key of the dictionary holds a NUL byte.
    BadIndexKey,
    /// A series id does not fit in 64 bits.
    SeriesIdOverflow,
    /// A number is not that of a database.
    InvalidDb,
    /// The payload is of another kind.
    BadMagic,
    /// The payload is of another version.
    UnsupportedVersion,
    /// Bytes are left behind the payload.
    TrailingBytes,
}

/// The outcome of reading: the value and the bytes that are left, or why it failed.
pub type Parsed<T> = Result<(T, Seq<u8>), DecodeError>;

/// The longest form of a 64-bit integer.
pub const MAX_UVARINT_LEN: usize = 10;

/// How an integer is written.
pub open spec fn uvarint_bytes(v: nat) -> Seq<u8>
    decreases v,
{
    if v < 128 {
        seq![v as u8]
    } else {
        seq![(v % 128 + 128) as u8] + uvarint_bytes(v / 128)
    }
}

/// The integer at the front of the bytes, whatever its size, and how many bytes it takes.
pub open spec fn leading_integer(b: Seq<u8>) -> Option<(nat, nat)>
    decreases b.len(),
{
    if b.len() == 0 {
        None
    } else if b[0] < 128 {
        Some((b[0] as nat, 1))
    } else {
        match leading_integer(b.drop_first()) {
            Some((v, n)) => Some(((b[0] - 128 + 128 * v) as nat, n + 1)),
            None => None,
        }
    }
}

/// What reading an integer gives.
pub open spec fn parse_uvarint(b: Seq<u8>) -> Parsed<u64> {
    match leading_integer(b) {
        Some((v, n)) => if n <= MAX_UVARINT_LEN && v <= u64::MAX {
            Ok((v as u64, b.skip(n as int)))
        } else {
            Err(DecodeError::IntegerTooLong)
        },
        None => if b.len() >= MAX_UVARINT_LEN {
            Err(DecodeError::IntegerTooLong)
        } else {
            Err(DecodeError::UnexpectedEnd)
        },
    }
}

/// How a byte string is written.
pub open spec fn slice_bytes(s: Seq<u8>) -> Seq<u8> {
    uvarint_bytes(s.len()) + s
}

/// What reading a byte string gives.
pub open spec fn parse_slice(b: Seq<u8>) -> Parsed<Seq<u8>> {
    match parse_uvarint(b) {
        Ok((n, rest)) => if n <= rest.len() {
            Ok((rest.take(n as int), rest.skip(n as int)))
        } else {
            Err(DecodeError::UnexpectedEnd)
        },
        Err(e) => Err(e),
    }
}

/// What reading one byte gives.
pub open spec fn parse_u8(b: Seq<u8>) -> Parsed<u8> {
    if b.len() > 0 {
        Ok((b[0], b.skip(1)))
    } else {
        Err(DecodeError::UnexpectedEnd)
    }
}

/// What reading eight bytes as an integer, the lowest byte first, gives.
pub open spec fn parse_u64_le(b: Seq<u8>) -> Parsed<u64> {
    if b.len() >= 8 {
        Ok((vstd::bytes::spec_u64_from_le_bytes(b.take(8)), b.skip(8)))
    } else {
        Err(DecodeError::UnexpectedEnd)
    }
}

/// A written integer is read back, and what follows it is left.
pub proof fn law_uvarint_round_trip(v: u64, rest: Seq<u8>)
    ensures
        parse_uvarint(uvarint_bytes(v as nat) + rest) == Ok::<(u64, Seq<u8>), DecodeError>((v, rest)),
        1 <= uvarint_bytes(v as nat).len() <= MAX_UVARINT_LEN,
{
    lemma_leading_integer(v as nat, rest);
    lemma_uvarint_len(v as nat, 1);
    let b = uvarint_bytes(v as nat);
    assert((b + rest).skip(b.len() as int) =~= rest);
}

proof fn lemma_leading_integer_more(b: Seq<u8>, more: Seq<u8>)
    requires
        leading_integer(b) is Some,
    ensures
        leading_integer(b + more) == leading_integer(b),
        leading_integer(b) matches Some((v, n)) && n <= b.len(),
    decreases b.len(),
{
    assert((b + more)[0] == b[0]);
    assert((b + more).drop_first() =~= b.drop_first() + more);
    if b[0] >= 128 {
        lemma_leading_integer_more(b.drop_first(), more);
    }
}

/// What follows an integer does not change how it is read.
pub proof fn lemma_uvarint_more(b: Seq<u8>, more: Seq<u8>)
    requires
        parse_uvarint(b) is Ok,
    ensures
        parse_uvarint(b + more) == Ok::<(u64, Seq<u8>), DecodeError>(
            (parse_uvarint(b)->Ok_0.0, parse_uvarint(b)->Ok_0.1 + more),
        ),
{
    lemma_leading_integer_more(b, more);
    let (v, n) = leading_integer(b)->0;
    assert((b + more).skip(n as int) =~= b.skip(n as int) + more);
}

/// What follows a byte string does not change how it is read.
pub proof fn lemma_slice_more(b: Seq<u8>, more: Seq<u8>)
    requires
        parse_slice(b) is Ok,
    ensures
        parse_slice(b + more) == Ok::<(Seq<u8>, Seq<u8>), DecodeError>(
            (parse_slice(b)->Ok_0.0, parse_slice(b)->Ok_0.1 + more),
        ),
{
    lemma_uvarint_more(b, more);
    let (n, rest) = parse_uvarint(b)->Ok_0;
    assert((rest + more).take(n as int) =~= rest.take(n as int));
    assert((rest + more).skip(n as int) =~= rest.skip(n as int) + more);
}

proof fn lemma_leading_integer(v: nat, rest: Seq<u8>)
    ensures
        leading_integer(uvarint_bytes(v) + rest) == Some((v, uvarint_bytes(v).len())),
    decreases v,
{
    let b = uvarint_bytes(v) + rest;
    if v < 128 {
        assert(b[0] == v as u8);
    } else {
        assert(b[0] == (v % 128 + 128) as u8);
        assert(b.drop_first() =~= uvarint_bytes(v / 128) + rest);
        lemma_leading_integer(v / 128, rest);
    }
}

/// The number of bytes of an integer below 128^k is at most k.
proof fn lemma_uvarint_len(v: nat, depth: nat)
    requires
        1 <= depth <= 10,
        depth == 1 ==> v <= u64::MAX,
        depth == 2 ==> v < 0x0200_0000_0000_0000,
        depth == 3 ==> v < 0x0004_0000_0000_0000,
        depth == 4 ==> v < 0x0800_0000_0000,
        depth == 5 ==> v < 0x10_0000_0000,
        depth == 6 ==> v < 0x2000_0000,
        depth == 7 ==> v < 0x40_0000,
        depth == 8 ==> v < 0x8000,
        depth == 9 ==> v < 0x100,
        depth == 10 ==> v < 2,
    ensures
        1 <= uvarint_bytes(v).len() <= 11 - depth,
    decreases 11 - depth,
{
    if v >= 128 {
        lemma_uvarint_len(v / 128, depth + 1);
    }
}

/// A written byte string is read back, and what follows it is left.
pub proof fn law_slice_round_trip(s: Seq<u8>, rest: Seq<u8>)
    requires
        s.len() <= u64::MAX,
    ensures
        parse_slice(slice_bytes(s) + rest) == Ok::<(Seq<u8>, Seq<u8>), DecodeError>((s, rest)),
{
    law_uvarint_round_trip(s.len() as u64, s + rest);
    assert(slice_bytes(s) + rest =~= uvarint_bytes(s.len()) + (s + rest));
    assert((s + rest).take(s.len() as int) =~= s);
    assert((s + rest).skip(s.len() as int) =~= rest);
}

/// A written 64-bit word is read back, and what follows it is left.
pub proof fn law_u64_round_trip(v: u64, rest: Seq<u8>)
    ensures
        parse_u64_le(vstd::bytes::spec_u64_to_le_bytes(v) + rest) == Ok::<
            (u64, Seq<u8>),
            DecodeError,
        >((v, rest)),
{
    vstd::bytes::lemma_auto_spec_u64_to_from_le_bytes();
    let b = vstd::bytes::spec_u64_to_le_bytes(v);
    assert((b + rest).take(8) =~= b);
    assert((b + rest).skip(8) =~= rest);
}

/// Appends bytes to a buffer.
pub fn write_bytes(buf: &mut Vec<u8>, s: &[u8])
    ensures
        final(buf)@ == old(buf)@ + s@,
{
    let ghost start = buf@;
    let mut i: usize = 0;
    while i < s.len()
        invariant
            i <= s.len(),
            buf@ == start + s@.take(i as int),
        decreases s.len() - i,
    {
        buf.push(s[i]);
        assert(s@.take(i + 1) =~= s@.take(i as int).push(s@[i as int]));
        i += 1;
    }
    assert(s@.take(i as int) =~= s@);
}

/// Writes an integer.
pub fn write_uvarint(buf: &mut Vec<u8>, value: u64)
    ensures
        final(buf)@ == old(buf)@ + uvarint_bytes(value as nat),
{
    let ghost start = buf@;
    let mut v: u64 = value;
    while v >= 128
        invariant
            buf@ + uvarint_bytes(v as nat) == start + uvarint_bytes(value as nat),
        decreases v,
    {
        let low: u8 = (v % 128) as u8;
        let ghost before = buf@;
        buf.push(low + 128);
        proof {
            assert(uvarint_bytes(v as nat) =~= seq![(v % 128 + 128) as u8] + uvarint_bytes(
                (v / 128) as nat,
            ));
            assert(buf@ + uvarint_bytes((v / 128) as nat) =~= before + uvarint_bytes(v as nat));
        }
        v = v / 128;
    }
    let ghost before = buf@;
    buf.push(v as u8);
    assert(buf@ =~= before + uvarint_bytes(v as nat));
}

/// Writes a byte string.
pub fn write_byte_slice(buf: &mut Vec<u8>, s: &[u8])
    ensures
        final(buf)@ == old(buf)@ + slice_bytes(s@),
{
    write_uvarint(buf, s.len() as u64);
    write_bytes(buf, s);
    assert(buf@ =~= old(buf)@ + slice_bytes(s@));
}

/// Writes one byte.
pub fn write_u8(buf: &mut Vec<u8>, value: u8)
    ensures
        final(buf)@ == old(buf)@.push(value),
{
    buf.push(value);
}

/// Writes a 64-bit word, the lowest byte first.
pub fn write_u64_le(buf: &mut Vec<u8>, value: u64)
    ensures
        final(buf)@ == old(buf)@ + vstd::bytes::spec_u64_to_le_bytes(value),
{
    let b = vstd::bytes::u64_to_le_bytes(value);
    write_bytes(buf, b.as_slice());
}

/// The outcome that a reader owes: it takes what it read off the slice, and on failure says why.
pub open spec fn reads<T>(parsed: Parsed<T>, r: Result<T, DecodeError>, left: Seq<u8>) -> bool {
    match r {
        Ok(v) => parsed == Ok::<(T, Seq<u8>), DecodeError>((v, left)),
        Err(e) => parsed == Err::<(T, Seq<u8>), DecodeError>(e),
    }
}

/// Reads an integer.
pub fn try_read_uvarint(buf: &mut &[u8]) -> (r: Result<u64, DecodeError>)
    ensures
        reads(parse_uvarint((*old(buf))@), r, (*final(buf))@),
{
    let b: &[u8] = *buf;
    let mut i: usize = 0;
    let mut acc: u128 = 0;
    let mut scale: u128 = 1;
    assert(b@.skip(0) =~= b@);
    while i < b.len() && i < MAX_UVARINT_LEN
        invariant
            i <= b.len(),
            i <= MAX_UVARINT_LEN,
            (*old(buf))@ == b@,
            *buf == b,
            scale == pow128(i as nat),
            acc < scale,
            leading_integer(b@) == (match leading_integer(b@.skip(i as int)) {
                Some((v, n)) => Some((acc as nat + scale as nat * v, n + i as nat)),
                None => None,
            }),
        decreases b.len() - i,
    {
        proof {
            lemma_pow128_bound(i as nat);
            assert(b@.skip(i as int)[0] == b@[i as int]);
            assert(b@.skip(i as int).drop_first() =~= b@.skip(i + 1));
        }
        let byte: u8 = b[i];
        if byte < 128 {
            assert(scale * byte <= 127 * scale) by (nonlinear_arith)
                requires
                    byte < 128,
            ;
            let total: u128 = acc + scale * (byte as u128);
            if total > u64::MAX as u128 {
                return Err(DecodeError::IntegerTooLong);
            }
            let rest = vstd::slice::slice_subrange(b, i + 1, b.len());
            *buf = rest;
            assert(rest@ =~= b@.skip(i + 1));
            return Ok(total as u64);
        }
        let low: u128 = (byte - 128) as u128;
        proof {
            assert(scale * low <= 127 * scale) by (nonlinear_arith)
                requires
                    low <= 127,
            ;
            match leading_integer(b@.skip(i + 1)) {
                Some((v, n)) => {
                    assert(acc + scale * (byte - 128 + 128 * v) == (acc + scale * low) + (scale
                        * 128) * v) by (nonlinear_arith)
                        requires
                            low == byte - 128,
                    ;
                },
                None => {},
            }
        }
        acc = acc + scale * low;
        scale = scale * 128;
        i += 1;
    }
    proof {
        if i == MAX_UVARINT_LEN {
            match leading_integer(b@.skip(i as int)) {
                Some((v, n)) => {
                    lemma_leading_len(b@.skip(i as int));
                },
                None => {},
            }
        } else {
            assert(b@.skip(i as int).len() == 0);
        }
    }
    if i == MAX_UVARINT_LEN {
        Err(DecodeError::IntegerTooLong)
    } else {
        Err(DecodeError::UnexpectedEnd)
    }
}

/// 128 to a power.
spec fn pow128(n: nat) -> nat
    decreases n,
{
    if n == 0 {
        1
    } else {
        128 * pow128((n - 1) as nat)
    }
}

proof fn lemma_pow128_bound(n: nat)
    requires
        n < 10,
    ensures
        1 <= pow128(n) <= 0x8000_0000_0000_0000,
        pow128(n + 1) == 128 * pow128(n),
{
    reveal_with_fuel(pow128, 11);
}

proof fn lemma_leading_len(b: Seq<u8>)
    ensures
        leading_integer(b) matches Some((v, n)) ==> 1 <= n <= b.len(),
    decreases b.len(),
{
    if b.len() > 0 && b[0] >= 128 {
        lemma_leading_len(b.drop_first());
    }
}

/// Reads a byte string.
pub fn try_read_byte_slice<'a>(buf: &mut &'a [u8]) -> (r: Result<&'a [u8], DecodeError>)
    ensures
        match r {
            Ok(s) => parse_slice((*old(buf))@) == Ok::<(Seq<u8>, Seq<u8>), DecodeError>(
                (s@, (*final(buf))@),
            ),
            Err(e) => parse_slice((*old(buf))@) == Err::<(Seq<u8>, Seq<u8>), DecodeError>(e),
        },
{
    let n: u64 = match try_read_uvarint(buf) {
        Ok(n) => n,
        Err(e) => {
            return Err(e);
        },
    };
    let b: &'a [u8] = *buf;
    if n > b.len() as u64 {
        return Err(DecodeError::UnexpectedEnd);
    }
    try_read_byte_slice_exact(buf, n as usize)
}

/// Reads a number of bytes, where there are as many. Nothing is read otherwise.
pub fn try_read_byte_slice_exact<'a>(buf: &mut &'a [u8], len: usize) -> (r: Result<
    &'a [u8],
    DecodeError,
>)
    ensures
        match r {
            Ok(s) => {
                &&& len <= (*old(buf))@.len()
                &&& s@ == (*old(buf))@.take(len as int)
                &&& (*final(buf))@ == (*old(buf))@.skip(len as int)
            },
            Err(e) => {
                &&& len > (*old(buf))@.len()
                &&& e == DecodeError::UnexpectedEnd
                &&& *final(buf) == *old(buf)
            },
        },
{
    let b: &'a [u8] = *buf;
    if b.len() < len {
        return Err(DecodeError::UnexpectedEnd);
    }
    let head = vstd::slice::slice_subrange(b, 0, len);
    let tail = vstd::slice::slice_subrange(b, len, b.len());
    *buf = tail;
    assert(head@ =~= b@.take(len as int));
    assert(tail@ =~= b@.skip(len as int));
    Ok(head)
}

/// Reads one byte.
pub fn try_read_u8(buf: &mut &[u8]) -> (r: Result<u8, DecodeError>)
    ensures
        reads(parse_u8((*old(buf))@), r, (*final(buf))@),
{
    let b: &[u8] = *buf;
    if b.len() == 0 {
        return Err(DecodeError::UnexpectedEnd);
    }
    let tail = vstd::slice::slice_subrange(b, 1, b.len());
    *buf = tail;
    assert(tail@ =~= b@.skip(1));
    Ok(b[0])
}

/// Reads a 64-bit word, the lowest byte first.
pub fn try_read_u64_le(buf: &mut &[u8]) -> (r: Result<u64, DecodeError>)
    ensures
        reads(parse_u64_le((*old(buf))@), r, (*final(buf))@),
{
    let b: &[u8] = *buf;
    if b.len() < 8 {
        return Err(DecodeError::UnexpectedEnd);
    }
    let head = vstd::slice::slice_subrange(b, 0, 8);
    let tail = vstd::slice::slice_subrange(b, 8, b.len());
    *buf = tail;
    assert(head@ =~= b@.take(8));
    assert(tail@ =~= b@.skip(8));
    Ok(vstd::bytes::u64_from_le_bytes(head))
}

} // verus!
