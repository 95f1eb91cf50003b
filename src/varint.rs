use vstd::prelude::*;

use crate::serialization::ReadingError;

verus! {

/// `128^k`: the weight of the `k`-th seven-bit group.
pub open spec fn group_weight(k: nat) -> nat
    decreases k,
{
    if k == 0 {
        1
    } else {
        128 * group_weight((k - 1) as nat)
    }
}

/// The 32-bit two's-complement pattern of `v`, read as an unsigned number.
pub open spec fn unsigned_of(v: i32) -> nat {
    if v >= 0 {
        v as nat
    } else {
        (v + 0x1_0000_0000) as nat
    }
}

/// The signed value of a 32-bit pattern `u` (`u < 2^32`).
pub open spec fn signed_of(u: nat) -> int {
    if u < 0x8000_0000 {
        u as int
    } else {
        u - 0x1_0000_0000
    }
}

/// VarInt encoding of an unsigned number: seven bits per byte, lowest group
/// first, the high bit set on every byte but the last.
pub open spec fn varint_bytes(u: nat) -> Seq<u8>
    decreases u,
{
    if u < 128 {
        seq![u as u8]
    } else {
        seq![(u % 128 + 128) as u8] + varint_bytes(u / 128)
    }
}

/// Reads a VarInt from the front of `b` that may have at most `extra` bytes
/// after its first one; gives the unsigned value and the number of bytes.
pub open spec fn varint_parse(b: Seq<u8>, extra: nat) -> Result<(nat, nat), ReadingError>
    decreases b.len(),
{
    if b.len() == 0 {
        Err(ReadingError::Insufficient)
    } else if b[0] < 128 {
        Ok((b[0] as nat, 1))
    } else if extra == 0 {
        Err(ReadingError::Invalid)
    } else {
        match varint_parse(b.drop_first(), (extra - 1) as nat) {
            Ok((v, n)) => Ok((((b[0] - 128) + 128 * v) as nat, n + 1)),
            Err(e) => Err(e),
        }
    }
}

/// The int32 VarInt at the front of `b` (at most five bytes, the value taken
/// modulo 2^32) and the number of bytes it takes.
pub open spec fn parse_var_i32(b: Seq<u8>) -> Result<(i32, nat), ReadingError> {
    match varint_parse(b, 4) {
        Ok((v, n)) => Ok((signed_of(v % 0x1_0000_0000) as i32, n)),
        Err(e) => Err(e),
    }
}

/// VarInt encoding of an int32: the encoding of its bit pattern.
pub open spec fn var_i32_bytes(v: i32) -> Seq<u8> {
    varint_bytes(unsigned_of(v))
}

/// An encoding has between one and five bytes for numbers below 2^35.
pub proof fn lemma_varint_bytes_len(u: nat, extra: nat)
    requires
        u < group_weight(extra + 1),
    ensures
        1 <= varint_bytes(u).len() <= extra + 1,
    decreases u,
{
    if u >= 128 {
        assert(extra > 0) by {
            if extra == 0 {
                assert(group_weight(1) == 128);
            }
        }
        assert(group_weight(extra + 1) == 128 * group_weight(extra));
        assert(u / 128 < group_weight(extra)) by (nonlinear_arith)
            requires
                u < 128 * group_weight(extra),
        ;
        lemma_varint_bytes_len(u / 128, (extra - 1) as nat);
    }
}

/// Decoding what was encoded gives the number back, whatever follows it.
pub proof fn lemma_varint_round_trip(u: nat, extra: nat, rest: Seq<u8>)
    requires
        u < group_weight(extra + 1),
    ensures
        varint_parse(varint_bytes(u) + rest, extra) == Ok::<(nat, nat), ReadingError>(
            (u, varint_bytes(u).len()),
        ),
    decreases u,
{
    let b = varint_bytes(u) + rest;
    if u < 128 {
        assert(b[0] == u as u8);
    } else {
        assert(extra > 0) by {
            if extra == 0 {
                assert(group_weight(1) == 128);
            }
        }
        assert(group_weight(extra + 1) == 128 * group_weight(extra));
        assert(u / 128 < group_weight(extra)) by (nonlinear_arith)
            requires
                u < 128 * group_weight(extra),
        ;
        lemma_varint_round_trip(u / 128, (extra - 1) as nat, rest);
        assert(b.drop_first() =~= varint_bytes(u / 128) + rest);
        assert(b[0] == (u % 128 + 128) as u8);
        assert(u == (u % 128) + 128 * (u / 128)) by (nonlinear_arith);
    }
}

/// For every int32 `v`, decoding `encode(v)` followed by any bytes gives `v`
/// back and consumes exactly the encoding, which is one to five bytes long.
pub proof fn lemma_var_i32_round_trip(v: i32, rest: Seq<u8>)
    ensures
        parse_var_i32(var_i32_bytes(v) + rest) == Ok::<(i32, nat), ReadingError>(
            (v, var_i32_bytes(v).len()),
        ),
        1 <= var_i32_bytes(v).len() <= 5,
{
    let u = unsigned_of(v);
    reveal_with_fuel(group_weight, 6);
    assert(group_weight(5) == 0x8_0000_0000);
    lemma_varint_round_trip(u, 4, rest);
    lemma_varint_bytes_len(u, 4);
    assert(u % 0x1_0000_0000 == u);
}

/// A VarInt that is decoded, or found invalid, from some bytes is decoded the
/// same way whatever bytes come after them.
pub proof fn lemma_varint_prefix_stable(b: Seq<u8>, extra: nat, more: Seq<u8>)
    requires
        varint_parse(b, extra) != Err::<(nat, nat), ReadingError>(ReadingError::Insufficient),
    ensures
        varint_parse(b + more, extra) == varint_parse(b, extra),
    decreases b.len(),
{
    assert((b + more)[0] == b[0]);
    if b[0] >= 128 && extra > 0 {
        assert((b + more).drop_first() =~= b.drop_first() + more);
        lemma_varint_prefix_stable(b.drop_first(), (extra - 1) as nat, more);
    }
}

/// An int32 VarInt that is decoded, or found invalid, from some bytes is
/// decoded the same way whatever bytes come after them.
pub proof fn lemma_var_i32_prefix_stable(b: Seq<u8>, more: Seq<u8>)
    requires
        parse_var_i32(b) != Err::<(i32, nat), ReadingError>(ReadingError::Insufficient),
    ensures
        parse_var_i32(b + more) == parse_var_i32(b),
{
    lemma_varint_prefix_stable(b, 4, more);
}

/// A decoded VarInt takes at least one of the bytes it was decoded from, and
/// no more than there are.
pub proof fn lemma_varint_parse_len(b: Seq<u8>, extra: nat)
    ensures
        varint_parse(b, extra) matches Ok((_, n)) ==> 1 <= n <= b.len(),
    decreases b.len(),
{
    if b.len() > 0 && b[0] >= 128 && extra > 0 {
        lemma_varint_parse_len(b.drop_first(), (extra - 1) as nat);
    }
}

/// A decoded int32 VarInt takes between one byte and all the bytes there are.
pub proof fn lemma_var_i32_len(b: Seq<u8>)
    ensures
        parse_var_i32(b) matches Ok((_, n)) ==> 1 <= n <= b.len(),
{
    lemma_varint_parse_len(b, 4);
}

} // verus!
