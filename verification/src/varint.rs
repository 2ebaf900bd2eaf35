//! Variable-length encoding of unsigned integers.
//!
//! A number is written as groups of seven bits, least significant group
//! first; every byte but the last has its high bit set. The encoding of a
//! number is the shortest one, and a 64-bit number takes ten bytes at most.

use vstd::prelude::*;

verus! {

/// Why bytes could not be decoded.
#[derive(Clone, Copy, Debug, PartialEq, Eq, Structural)]
pub enum CodecError {
    /// The input ends before the value does.
    UnexpectedEnd,
    /// A variable-length integer does not fit in 64 bits.
    VarintOverflow,
    /// A variable-length integer ends in a superfluous zero group.
    VarintNotMinimal,
    /// A length prefix, or another bounded number, exceeds its maximum.
    CodecBounds,
    /// A slot names a thread that does not exist.
    InvalidThread,
    /// An IP address is neither of version 4 nor of version 6.
    InvalidIpKind,
    /// A listener names a transport that does not exist.
    InvalidTransport,
    /// The mark of an optional value is neither absent nor present.
    InvalidOptionTag,
    /// A message has an identifier that no message has.
    UnknownMessageId,
    /// Bytes remain after a full parse.
    CodecTrailing,
}

/// Largest number of bytes in the encoding of a 64-bit number.
pub const MAX_VARINT_LEN: usize = 10;

/// 128 to the power `k`: the weight of group `k`.
pub open spec fn pow128(k: nat) -> nat
    decreases k,
{
    if k == 0 {
        1
    } else {
        128 * pow128((k - 1) as nat)
    }
}

/// The encoding of `v`.
pub open spec fn varint_bytes(v: nat) -> Seq<u8>
    decreases v,
{
    if v < 128 {
        seq![v as u8]
    } else {
        seq![(v % 128 + 128) as u8] + varint_bytes(v / 128)
    }
}

/// The number that the groups of `bytes` spell, least significant group first.
pub open spec fn groups_value(bytes: Seq<u8>) -> nat
    decreases bytes.len(),
{
    if bytes.len() == 0 {
        0
    } else {
        (bytes[0] % 128) as nat + 128 * groups_value(bytes.drop_first())
    }
}

/// Index of the first byte without the high bit, or the length where every byte has it.
pub open spec fn terminator(bytes: Seq<u8>) -> int
    decreases bytes.len(),
{
    if bytes.len() == 0 {
        0
    } else if bytes[0] < 128 {
        0
    } else {
        1 + terminator(bytes.drop_first())
    }
}

/// Decoding of a number at the front of `bytes`: the number and the count of
/// bytes that it takes, or the reason why there is none. Ten bytes with the
/// high bit, or groups that spell more than 64 bits, overflow; input that
/// ends in a byte with the high bit is too short; a last group of zero
/// behind other groups is not minimal.
pub open spec fn parse_varint(bytes: Seq<u8>) -> Result<(u64, int), CodecError> {
    let t = terminator(bytes);
    if t >= 10 {
        Err(CodecError::VarintOverflow)
    } else if t >= bytes.len() {
        Err(CodecError::UnexpectedEnd)
    } else if t > 0 && bytes[t] == 0 {
        Err(CodecError::VarintNotMinimal)
    } else if groups_value(bytes.take(t + 1)) > u64::MAX {
        Err(CodecError::VarintOverflow)
    } else {
        Ok((groups_value(bytes.take(t + 1)) as u64, t + 1))
    }
}

/// Decoding of a number that may not exceed `max`.
pub open spec fn parse_bounded_varint(bytes: Seq<u8>, max: u64) -> Result<(u64, int), CodecError> {
    match parse_varint(bytes) {
        Err(e) => Err(e),
        Ok((v, n)) => if v > max {
            Err(CodecError::CodecBounds)
        } else {
            Ok((v, n))
        },
    }
}

/// The terminator lies within the bytes.
pub proof fn lemma_terminator_bounds(bytes: Seq<u8>)
    ensures
        0 <= terminator(bytes) <= bytes.len(),
        forall|i: int| 0 <= i < terminator(bytes) ==> bytes[i] >= 128,
        terminator(bytes) < bytes.len() ==> bytes[terminator(bytes)] < 128,
    decreases bytes.len(),
{
    if bytes.len() > 0 && bytes[0] >= 128 {
        let d = bytes.drop_first();
        lemma_terminator_bounds(d);
        assert forall|i: int| 0 <= i < terminator(bytes) implies bytes[i] >= 128 by {
            if i > 0 {
                assert(bytes[i] == d[i - 1]);
            }
        }
        if terminator(bytes) < bytes.len() {
            assert(bytes[terminator(bytes)] == d[terminator(d)]);
        }
    }
}

/// The terminator is the first byte without the high bit.
pub proof fn lemma_terminator_is(bytes: Seq<u8>, t: int)
    requires
        0 <= t <= bytes.len(),
        forall|i: int| 0 <= i < t ==> bytes[i] >= 128,
        t < bytes.len() ==> bytes[t] < 128,
    ensures
        terminator(bytes) == t,
    decreases bytes.len(),
{
    if bytes.len() > 0 && t > 0 {
        let d = bytes.drop_first();
        assert(bytes[0] >= 128);
        assert forall|i: int| 0 <= i < t - 1 implies d[i] >= 128 by {
            assert(d[i] == bytes[i + 1]);
        }
        lemma_terminator_is(d, t - 1);
    }
}

/// One more group at the end adds its value times the weight of its place.
pub proof fn lemma_groups_value_push(bytes: Seq<u8>, b: u8)
    ensures
        groups_value(bytes.push(b)) == groups_value(bytes) + (b % 128) * pow128(bytes.len()),
    decreases bytes.len(),
{
    let g = (b % 128) as int;
    if bytes.len() == 0 {
        assert(bytes.push(b).drop_first() =~= Seq::<u8>::empty());
        assert(groups_value(bytes.push(b).drop_first()) == 0);
        assert(groups_value(bytes.push(b)) == (b % 128) as nat);
        assert(pow128(0) == 1);
        assert(g * 1 == g);
    } else {
        let d = bytes.drop_first();
        assert(bytes.push(b).drop_first() =~= d.push(b));
        assert(bytes.push(b)[0] == bytes[0]);
        lemma_groups_value_push(d, b);
        let w = pow128(d.len()) as int;
        let x = groups_value(d) as int;
        assert(pow128(bytes.len()) == 128 * pow128(d.len()));
        assert(groups_value(d.push(b)) == x + g * w);
        assert(128 * (x + g * w) == 128 * x + g * (128 * w)) by (nonlinear_arith);
        assert(groups_value(bytes.push(b)) == (bytes[0] % 128) + 128 * (x + g * w));
        assert(groups_value(bytes) == (bytes[0] % 128) + 128 * x);
    }
}

/// Ten groups weigh two to the seventy.
pub proof fn lemma_pow128_values()
    ensures
        pow128(0) == 1,
        pow128(1) == 0x80,
        pow128(2) == 0x4000,
        pow128(3) == 0x20_0000,
        pow128(4) == 0x1000_0000,
        pow128(5) == 0x8_0000_0000,
        pow128(6) == 0x400_0000_0000,
        pow128(7) == 0x2_0000_0000_0000,
        pow128(8) == 0x100_0000_0000_0000,
        pow128(9) == 0x8000_0000_0000_0000,
        pow128(10) == 0x40_0000_0000_0000_0000,
{
    reveal_with_fuel(pow128, 11);
}

/// The encoding of a number: every byte but the last has the high bit, the
/// last one is not zero unless it stands alone, and the groups spell the number.
pub proof fn lemma_varint_bytes_shape(v: nat)
    ensures
        varint_bytes(v).len() >= 1,
        forall|i: int| 0 <= i < varint_bytes(v).len() - 1 ==> varint_bytes(v)[i] >= 128,
        varint_bytes(v).last() < 128,
        varint_bytes(v).len() > 1 ==> varint_bytes(v).last() != 0,
        groups_value(varint_bytes(v)) == v,
        v >= pow128((varint_bytes(v).len() - 1) as nat) || varint_bytes(v).len() == 1,
    decreases v,
{
    let s = varint_bytes(v);
    if v < 128 {
        assert(s.drop_first() =~= Seq::<u8>::empty());
        assert(groups_value(s.drop_first()) == 0);
    } else {
        let r = varint_bytes(v / 128);
        lemma_varint_bytes_shape(v / 128);
        assert(s.drop_first() =~= r);
        assert(s.last() == r.last());
        assert forall|i: int| 0 <= i < s.len() - 1 implies s[i] >= 128 by {
            if i > 0 {
                assert(s[i] == r[i - 1]);
            }
        }
        assert(s[0] % 128 == v % 128);
        if r.len() == 1 {
            assert(r[0] == (v / 128) as u8);
            assert(pow128(1) == 128) by {
                reveal_with_fuel(pow128, 2);
            }
        }
    }
}

/// A number below two to the sixty-four takes at most ten bytes.
pub proof fn lemma_varint_bytes_len(v: nat)
    requires
        v <= u64::MAX,
    ensures
        1 <= varint_bytes(v).len() <= 10,
{
    lemma_varint_bytes_shape(v);
    lemma_pow128_values();
    let n = varint_bytes(v).len();
    if n > 10 {
        lemma_pow128_monotone(10, (n - 1) as nat);
    }
}

/// The weight of a group grows with its place.
pub proof fn lemma_pow128_monotone(a: nat, b: nat)
    requires
        a <= b,
    ensures
        pow128(a) <= pow128(b),
    decreases b,
{
    if a < b {
        lemma_pow128_monotone(a, (b - 1) as nat);
    }
}

/// Round trip: the encoding of a 64-bit number, whatever follows it, decodes
/// to that number and takes exactly the bytes of the encoding.
pub proof fn lemma_varint_round_trip(v: u64, rest: Seq<u8>)
    ensures
        parse_varint(varint_bytes(v as nat) + rest) == Ok::<(u64, int), CodecError>(
            (v, varint_bytes(v as nat).len() as int),
        ),
{
    let s = varint_bytes(v as nat);
    let bytes = s + rest;
    lemma_varint_bytes_shape(v as nat);
    lemma_varint_bytes_len(v as nat);
    let t = s.len() - 1;
    assert forall|i: int| 0 <= i < t implies bytes[i] >= 128 by {
        assert(bytes[i] == s[i]);
    }
    assert(bytes[t] == s.last());
    lemma_terminator_is(bytes, t);
    assert(bytes.take(t + 1) =~= s);
}

/// Decoding is canonical: the bytes that a decoded number took are its encoding.
pub proof fn lemma_varint_canonical(bytes: Seq<u8>)
    requires
        parse_varint(bytes) is Ok,
    ensures
        ({
            let (v, n) = parse_varint(bytes)->Ok_0;
            0 < n <= bytes.len() && n <= 10 && bytes.take(n) == varint_bytes(v as nat)
        }),
{
    lemma_terminator_bounds(bytes);
    let t = terminator(bytes);
    let s = bytes.take(t + 1);
    assert forall|i: int| 0 <= i < t implies s[i] >= 128 by {
        assert(s[i] == bytes[i]);
    }
    lemma_groups_spell_encoding(s);
}

/// Bytes in the shape of an encoding are the encoding of the number that their groups spell.
pub proof fn lemma_groups_spell_encoding(s: Seq<u8>)
    requires
        s.len() >= 1,
        forall|i: int| 0 <= i < s.len() - 1 ==> s[i] >= 128,
        s.last() < 128,
        s.len() > 1 ==> s.last() != 0,
    ensures
        varint_bytes(groups_value(s)) == s,
    decreases s.len(),
{
    let d = s.drop_first();
    if s.len() == 1 {
        assert(d =~= Seq::<u8>::empty());
        assert(groups_value(d) == 0);
        assert(varint_bytes(groups_value(s)) =~= s);
    } else {
        assert(d.last() == s.last());
        assert forall|i: int| 0 <= i < d.len() - 1 implies d[i] >= 128 by {
            assert(d[i] == s[i + 1]);
        }
        lemma_groups_spell_encoding(d);
        let v = groups_value(s);
        let w = groups_value(d);
        assert(s[0] >= 128);
        if w == 0 {
            if d.len() == 1 {
                assert(d[0] % 128 == 0);
                assert(groups_value(d.drop_first()) == 0) by {
                    assert(d.drop_first() =~= Seq::<u8>::empty());
                }
            } else {
                lemma_varint_bytes_shape(0);
            }
        }
        assert(w >= 1);
        assert(v == (s[0] % 128) + 128 * w);
        assert(v / 128 == w);
        assert(v % 128 == s[0] % 128);
        assert(varint_bytes(v) =~= seq![(v % 128 + 128) as u8] + varint_bytes(w));
        assert(varint_bytes(v) =~= s);
    }
}

/// Appends the encoding of `value` to `buffer`.
pub fn write_varint(value: u64, buffer: &mut Vec<u8>)
    ensures
        final(buffer)@ == old(buffer)@ + varint_bytes(value as nat),
{
    let ghost start = buffer@;
    let mut v: u64 = value;
    while v >= 128
        invariant
            start + varint_bytes(value as nat) == buffer@ + varint_bytes(v as nat),
        decreases v,
    {
        let ghost before = buffer@;
        buffer.push((v % 128 + 128) as u8);
        proof {
            assert(varint_bytes(v as nat) =~= seq![(v % 128 + 128) as u8] + varint_bytes(
                (v / 128) as nat,
            ));
            assert(before + varint_bytes(v as nat) =~= before.push((v % 128 + 128) as u8)
                + varint_bytes((v / 128) as nat));
        }
        v = v / 128;
    }
    let ghost before = buffer@;
    buffer.push(v as u8);
    proof {
        assert(before + varint_bytes(v as nat) =~= before.push(v as u8));
    }
}

/// Reads the number encoded at `pos` in `buffer`: its value and the position
/// behind it.
pub fn read_varint(buffer: &[u8], pos: usize) -> (r: Result<(u64, usize), CodecError>)
    requires
        pos <= buffer@.len(),
    ensures
        match r {
            Ok((v, next)) => pos < next <= buffer@.len() && parse_varint(buffer@.skip(pos as int))
                == Ok::<(u64, int), CodecError>((v, next - pos)),
            Err(e) => parse_varint(buffer@.skip(pos as int)) == Err::<(u64, int), CodecError>(e),
        },
{
    let ghost bytes = buffer@.skip(pos as int);
    let mut acc: u64 = 0;
    let mut weight: u64 = 1;
    let mut i: usize = 0;
    proof {
        lemma_pow128_values();
        assert(bytes.take(0) =~= Seq::<u8>::empty());
    }
    while i < 10 && i < buffer.len() - pos
        invariant
            pos <= buffer@.len(),
            bytes == buffer@.skip(pos as int),
            0 <= i <= 10,
            i <= bytes.len(),
            forall|j: int| 0 <= j < i ==> bytes[j] >= 128,
            i < 10 ==> weight == pow128(i as nat),
            i < 10 ==> acc == groups_value(bytes.take(i as int)),
            i < 10 ==> acc < pow128(i as nat),
        decreases 10 - i,
    {
        let b = buffer[pos + i];
        assert(b == bytes[i as int]);
        let group: u64 = (b % 128) as u64;
        proof {
            lemma_pow128_values();
            lemma_groups_value_push(bytes.take(i as int), b);
            assert(bytes.take(i as int).push(b) =~= bytes.take(i + 1));
            lemma_pow128_monotone(i as nat, 9);
            assert(pow128((i + 1) as nat) == 128 * pow128(i as nat));
        }
        if b < 128 {
            proof {
                lemma_terminator_is(bytes, i as int);
            }
            if i > 0 && b == 0 {
                return Err(CodecError::VarintNotMinimal);
            }
            if i == 9 && group > 1 {
                proof {
                    assert(group * pow128(9) >= 2 * pow128(9)) by (nonlinear_arith)
                        requires
                            group >= 2,
                    ;
                }
                return Err(CodecError::VarintOverflow);
            }
            proof {
                assert(group * weight <= 127 * weight) by (nonlinear_arith)
                    requires
                        group <= 127,
                        weight >= 0,
                ;
                if i == 9 {
                    assert(group * weight <= weight) by (nonlinear_arith)
                        requires
                            group <= 1,
                            weight >= 0,
                    ;
                } else {
                    lemma_pow128_monotone(i as nat, 8);
                }
            }
            let value = acc + group * weight;
            return Ok((value, pos + i + 1));
        }
        if i < 9 {
            proof {
                lemma_pow128_monotone(i as nat, 8);
                assert(group * weight <= 127 * weight) by (nonlinear_arith)
                    requires
                        group <= 127,
                        weight >= 0,
                ;
            }
            acc = acc + group * weight;
            weight = weight * 128;
        }
        i += 1;
    }
    proof {
        lemma_terminator_bounds(bytes);
        if i == 10 {
            if terminator(bytes) < 10 {
                assert(bytes[terminator(bytes)] < 128);
            }
        } else {
            assert(i == bytes.len());
            if terminator(bytes) < bytes.len() {
                assert(bytes[terminator(bytes)] < 128);
            }
        }
    }
    if i == 10 {
        Err(CodecError::VarintOverflow)
    } else {
        Err(CodecError::UnexpectedEnd)
    }
}

/// Reads the number encoded at `pos` in `buffer` and refuses one above `max`.
pub fn read_bounded_varint(buffer: &[u8], pos: usize, max: u64) -> (r: Result<
    (u64, usize),
    CodecError,
>)
    requires
        pos <= buffer@.len(),
    ensures
        match r {
            Ok((v, next)) => pos < next <= buffer@.len() && parse_bounded_varint(
                buffer@.skip(pos as int),
                max,
            ) == Ok::<(u64, int), CodecError>((v, next - pos)),
            Err(e) => parse_bounded_varint(buffer@.skip(pos as int), max) == Err::<
                (u64, int),
                CodecError,
            >(e),
        },
{
    match read_varint(buffer, pos) {
        Err(e) => Err(e),
        Ok((v, next)) => {
            if v > max {
                Err(CodecError::CodecBounds)
            } else {
                Ok((v, next))
            }
        },
    }
}

} // verus!
