//! The VarInt encoding of the Minecraft protocol.
//!
//! Each byte contributes seven data bits, least significant group first; the
//! high bit of a byte signals that another byte follows.

use vstd::prelude::*;

verus! {

/// The number written by the VarInt at the front of `bytes`, and how many bytes
/// it takes, when it ends within `budget` bytes.
pub open spec fn decode(bytes: Seq<u8>, budget: nat) -> Option<(nat, nat)>
    decreases budget,
{
    if bytes.len() == 0 || budget == 0 {
        None
    } else if bytes[0] < 0x80 {
        Some((bytes[0] as nat, 1))
    } else {
        match decode(bytes.skip(1), (budget - 1) as nat) {
            Some((rest, used)) => Some(((bytes[0] - 0x80) as nat + 0x80 * rest, used + 1)),
            None => None,
        }
    }
}

/// The shortest VarInt that writes `value`.
pub open spec fn encode(value: nat) -> Seq<u8>
    decreases value,
{
    if value < 0x80 {
        seq![value as u8]
    } else {
        seq![(0x80 + value % 0x80) as u8] + encode(value / 0x80)
    }
}

/// The low 32 bits of `value`, read as a two's complement number.
pub open spec fn as_i32(value: nat) -> i32 {
    let low = value % 0x1_0000_0000;
    if low < 0x8000_0000 {
        low as i32
    } else {
        (low - 0x1_0000_0000) as i32
    }
}

/// What a reader finds at `offset`: the value and the number of bytes it takes,
/// or nothing when the bytes end too early or the VarInt is wider than five bytes.
pub open spec fn varint_at(bytes: Seq<u8>, offset: int) -> Option<(i32, nat)> {
    if 0 <= offset <= bytes.len() {
        match decode(bytes.skip(offset), 5) {
            Some((value, used)) => Some((as_i32(value), used)),
            None => None,
        }
    } else {
        None
    }
}

/// The weight of the seven-bit group that follows `count` others.
spec fn weight(count: nat) -> nat {
    if count == 0 {
        1
    } else if count == 1 {
        0x80
    } else if count == 2 {
        0x4000
    } else if count == 3 {
        0x20_0000
    } else {
        0x1000_0000
    }
}

/// `tail` read after `count` bytes that wrote `low`.
spec fn continued(low: nat, count: nat, tail: Option<(nat, nat)>) -> Option<(nat, nat)> {
    match tail {
        Some((value, used)) => Some((low + weight(count) * value, count + used)),
        None => None,
    }
}

/// Setting the seven data bits of `byte` above the lower groups of a 32-bit word
/// adds them at their weight; bits past the end of the word are lost.
proof fn lemma_place_group(value: u32, byte: u8, count: nat, shift: u32)
    requires
        count <= 4,
        shift == 7 * count,
        value < weight(count),
    ensures
        (value | (((byte & 0x7f) as u32) << shift)) == (value + weight(count) * ((byte % 0x80)
            as nat)) % 0x1_0000_0000,
        count < 4 ==> (value | (((byte & 0x7f) as u32) << shift)) == value + weight(count) * ((byte
            % 0x80) as nat),
        count < 4 ==> (value | (((byte & 0x7f) as u32) << shift)) < weight(count + 1),
        (byte & 0x80 == 0) == (byte < 0x80),
{
    let group: u32 = (byte & 0x7f) as u32;
    assert(byte & 0x7f == byte % 0x80) by (bit_vector);
    assert((byte & 0x80 == 0) == (byte < 0x80)) by (bit_vector);
    if count == 0 {
        assert(value == 0 ==> value | (group << 0u32) == group) by (bit_vector);
    } else if count == 1 {
        assert(value < 0x80 && group < 0x80 ==> value | (group << 7u32) == value + group * 0x80)
            by (bit_vector);
    } else if count == 2 {
        assert(value < 0x4000 && group < 0x80 ==> value | (group << 14u32) == value + group
            * 0x4000) by (bit_vector);
    } else if count == 3 {
        assert(value < 0x20_0000 && group < 0x80 ==> value | (group << 21u32) == value + group
            * 0x20_0000) by (bit_vector);
    } else {
        assert(value < 0x1000_0000 ==> value | (group << 28u32) == value + (group % 0x10)
            * 0x1000_0000) by (bit_vector);
        let high = group / 0x10;
        assert(group == high * 0x10 + group % 0x10);
        assert(value + 0x1000_0000 * group == value + (group % 0x10) * 0x1000_0000 + high
            * 0x1_0000_0000);
    }
}

/// One more byte read by `decode` after `count` others.
proof fn lemma_read_byte(bytes: Seq<u8>, pos: int, low: nat, count: nat)
    requires
        0 <= pos < bytes.len(),
        count <= 4,
    ensures
        bytes[pos] < 0x80 ==> continued(
            low,
            count,
            decode(bytes.skip(pos), (5 - count) as nat),
        ) == Some((low + weight(count) * (bytes[pos] as nat), count + 1)),
        bytes[pos] >= 0x80 && count < 4 ==> continued(
            low,
            count,
            decode(bytes.skip(pos), (5 - count) as nat),
        ) == continued(
            low + weight(count) * ((bytes[pos] % 0x80) as nat),
            count + 1,
            decode(bytes.skip(pos + 1), (4 - count) as nat),
        ),
        bytes[pos] >= 0x80 && count == 4 ==> decode(bytes.skip(pos), (5 - count) as nat) is None,
{
    assert(bytes.skip(pos).skip(1) =~= bytes.skip(pos + 1));
    reveal_with_fuel(decode, 2);
    if bytes[pos] >= 0x80 && count < 4 {
        if let Some((tail, _)) = decode(bytes.skip(pos + 1), (4 - count) as nat) {
            let unit = weight(count);
            let group = (bytes[pos] % 0x80) as nat;
            assert(unit * (group + 0x80 * tail) == unit * group + (unit * 0x80) * tail)
                by (nonlinear_arith);
        }
    }
}

proof fn lemma_cast_i32(value: u32)
    ensures
        value as i32 == as_i32(value as nat),
{
    assert(value < 0x8000_0000 ==> value as i32 == value) by (bit_vector);
    assert(value >= 0x8000_0000 ==> value as i32 == value - 0x1_0000_0000) by (bit_vector);
}

/// Parses a VarInt from `buf` starting at `offset`.
///
/// Returns the value and the number of bytes it takes, or `None` when the VarInt
/// does not end within `buf` or within five bytes.
pub fn read_varint(buf: &[u8], offset: usize) -> (result: Option<(i32, usize)>)
    ensures
        match result {
            Some((value, used)) => {
                &&& varint_at(buf@, offset as int) == Some((value, used as nat))
                &&& 1 <= used <= 5
                &&& offset + used <= buf@.len()
            },
            None => varint_at(buf@, offset as int) is None,
        },
{
    let mut value: u32 = 0;
    let mut shift: u32 = 0;
    let mut pos: usize = offset;
    let ghost mut count: nat = 0;
    loop
        invariant
            pos == offset + count,
            count <= 4,
            shift == 7 * count,
            value < weight(count),
            count > 0 ==> pos <= buf@.len(),
            pos <= buf@.len() ==> decode(buf@.skip(offset as int), 5) == continued(
                value as nat,
                count,
                decode(buf@.skip(pos as int), (5 - count) as nat),
            ),
        decreases 35 - shift,
    {
        if pos >= buf.len() {
            return None;
        }
        let byte: u8 = buf[pos];
        proof {
            lemma_place_group(value, byte, count, shift);
            lemma_read_byte(buf@, pos as int, value as nat, count);
        }
        value = value | (((byte & 0x7f) as u32) << shift);
        shift = shift + 7;
        pos = pos + 1;
        if byte & 0x80 == 0 {
            proof {
                lemma_cast_i32(value);
            }
            return Some((value as i32, pos - offset));
        }
        if shift >= 35 {
            return None;
        }
        proof {
            count = count + 1;
        }
    }
}

/// Writes `value` as a VarInt.
pub fn write_varint(value: u32) -> (out: Vec<u8>)
    ensures
        out@ == encode(value as nat),
{
    let mut rest: u32 = value;
    let mut out: Vec<u8> = Vec::with_capacity(5);
    loop
        invariant
            out@ + encode(rest as nat) == encode(value as nat),
        decreases rest,
    {
        assert(rest & 0x7f == rest % 0x80) by (bit_vector);
        assert(rest >> 7 == rest / 0x80) by (bit_vector);
        let low: u8 = (rest & 0x7f) as u8;
        assert(low < 0x80 ==> (low | 0x80) == low + 0x80) by (bit_vector);
        let ghost before = out@;
        let ghost whole = rest as nat;
        rest = rest >> 7;
        if rest == 0 {
            out.push(low);
            assert(out@ =~= before + encode(whole));
            return out;
        }
        out.push(low | 0x80);
        assert(out@ + encode(rest as nat) =~= before + encode(whole));
    }
}

/// One more than the largest number that fits in `budget` bytes.
spec fn capacity(budget: nat) -> nat
    decreases budget,
{
    if budget == 0 {
        1
    } else {
        0x80 * capacity((budget - 1) as nat)
    }
}

/// A decoded VarInt takes at least one byte, and no more than there are.
proof fn lemma_decode_bounds(bytes: Seq<u8>, budget: nat)
    ensures
        decode(bytes, budget) matches Some((_, used)) ==> 1 <= used <= budget && used <= bytes.len(),
    decreases budget,
{
    if bytes.len() > 0 && budget > 0 {
        lemma_decode_bounds(bytes.skip(1), (budget - 1) as nat);
    }
}

proof fn lemma_decode_encode(value: nat, after: Seq<u8>, budget: nat)
    requires
        budget > 0,
        value < capacity(budget),
    ensures
        decode(encode(value) + after, budget) == Some((value, encode(value).len())),
    decreases budget,
{
    let bytes = encode(value) + after;
    if value >= 0x80 {
        let fewer = (budget - 1) as nat;
        reveal_with_fuel(capacity, 2);
        lemma_decode_encode(value / 0x80, after, fewer);
        assert(bytes.skip(1) =~= encode(value / 0x80) + after);
    }
}

proof fn lemma_decode_cut(value: nat, budget: nat, kept: int)
    requires
        0 <= kept < encode(value).len(),
    ensures
        decode(encode(value).take(kept), budget) is None,
    decreases value,
{
    if kept > 0 && budget > 0 {
        assert(value >= 0x80);
        lemma_decode_cut(value / 0x80, (budget - 1) as nat, kept - 1);
        assert(encode(value).take(kept).skip(1) =~= encode(value / 0x80).take(kept - 1));
    }
}

proof fn lemma_decode_longer(bytes: Seq<u8>, more: Seq<u8>, budget: nat)
    requires
        decode(bytes, budget) is Some,
    ensures
        decode(bytes + more, budget) == decode(bytes, budget),
    decreases budget,
{
    if bytes[0] >= 0x80 {
        lemma_decode_longer(bytes.skip(1), more, (budget - 1) as nat);
        assert((bytes + more).skip(1) =~= bytes.skip(1) + more);
    }
}

/// A VarInt of 32 bits has one to five bytes.
pub proof fn law_varint_length(value: u32)
    ensures
        1 <= encode(value as nat).len() <= 5,
{
    law_varint_read_back(Seq::empty(), value, Seq::empty());
    lemma_decode_bounds(Seq::empty() + encode(value as nat) + Seq::empty(), 5);
    assert((Seq::empty() + encode(value as nat) + Seq::empty()).skip(0) =~= Seq::empty() + encode(
        value as nat,
    ) + Seq::empty());
}

/// What was written is read back, wherever it stands: the 32 bits as a signed number,
/// and the end right behind them.
pub proof fn law_varint_read_back(before: Seq<u8>, value: u32, after: Seq<u8>)
    ensures
        varint_at(before + encode(value as nat) + after, before.len() as int) == Some(
            (as_i32(value as nat), encode(value as nat).len()),
        ),
        value < 0x8000_0000 ==> as_i32(value as nat) == value,
{
    reveal_with_fuel(capacity, 6);
    lemma_decode_encode(value as nat, after, 5);
    assert((before + encode(value as nat) + after).skip(before.len() as int) =~= encode(
        value as nat,
    ) + after);
}

/// A signed number is read back when its 32 bits were written.
pub proof fn law_signed_varint_read_back(before: Seq<u8>, value: i32, after: Seq<u8>)
    ensures
        varint_at(before + encode(value as u32 as nat) + after, before.len() as int) == Some(
            (value, encode(value as u32 as nat).len()),
        ),
{
    law_varint_read_back(before, value as u32, after);
    assert(value >= 0 ==> value as u32 == value) by (bit_vector);
    assert(value < 0 ==> value as u32 == value + 0x1_0000_0000) by (bit_vector);
}

/// As long as a byte is missing, nothing is read.
pub proof fn law_varint_needs_every_byte(before: Seq<u8>, value: nat, kept: int)
    requires
        0 <= kept < encode(value).len(),
    ensures
        varint_at(before + encode(value).take(kept), before.len() as int) is None,
{
    lemma_decode_cut(value, 5, kept);
    assert((before + encode(value).take(kept)).skip(before.len() as int) =~= encode(value).take(
        kept,
    ));
}

/// Bytes that arrive later do not change what was read.
pub proof fn law_varint_is_final(bytes: Seq<u8>, offset: int, more: Seq<u8>)
    requires
        varint_at(bytes, offset) is Some,
    ensures
        varint_at(bytes + more, offset) == varint_at(bytes, offset),
{
    lemma_decode_longer(bytes.skip(offset), more, 5);
    assert((bytes + more).skip(offset) =~= bytes.skip(offset) + more);
}

/// Five bytes that all announce another one are no VarInt, whatever follows.
pub proof fn law_varint_too_wide(bytes: Seq<u8>, offset: int)
    requires
        0 <= offset,
        offset + 5 <= bytes.len(),
        forall|i: int| offset <= i < offset + 5 ==> bytes[i] >= 0x80,
    ensures
        varint_at(bytes, offset) is None,
{
    reveal_with_fuel(decode, 6);
    let tail = bytes.skip(offset);
    assert(tail.skip(1).skip(1).skip(1).skip(1)[0] == bytes[offset + 4]);
}

/// Reading is decided by the bytes in place: up to five of them, of which the last alone is
/// below 0x80. The value is the sum of their low seven bits, each group 128 times the weight
/// of the one before it, in 32 bits.
#[verifier::spinoff_prover]
#[verifier::rlimit(60)]
pub proof fn law_varint_value(bytes: Seq<u8>, offset: int, used: int)
    requires
        0 <= offset,
        1 <= used <= 5,
        offset + used <= bytes.len(),
        forall|i: int| offset <= i < offset + used - 1 ==> #[trigger] bytes[i] >= 0x80,
        bytes[offset + used - 1] < 0x80,
    ensures
        varint_at(bytes, offset) matches Some((value, taken)) && taken == used && ({
            let sum = bytes[offset] as int % 0x80 + (if used > 1 {
                0x80 * (bytes[offset + 1] as int % 0x80)
            } else {
                0
            }) + (if used > 2 {
                0x4000 * (bytes[offset + 2] as int % 0x80)
            } else {
                0
            }) + (if used > 3 {
                0x20_0000 * (bytes[offset + 3] as int % 0x80)
            } else {
                0
            }) + (if used > 4 {
                0x1000_0000 * (bytes[offset + 4] as int % 0x80)
            } else {
                0
            });
            (value - sum) % 0x1_0000_0000 == 0
        }),
{
    lemma_decode_groups(bytes, offset, used, 5);
    let total = groups(bytes, offset, used);
    assert(total == bytes[offset] as int % 0x80 + (if used > 1 {
        0x80 * (bytes[offset + 1] as int % 0x80)
    } else {
        0
    }) + (if used > 2 {
        0x4000 * (bytes[offset + 2] as int % 0x80)
    } else {
        0
    }) + (if used > 3 {
        0x20_0000 * (bytes[offset + 3] as int % 0x80)
    } else {
        0
    }) + (if used > 4 {
        0x1000_0000 * (bytes[offset + 4] as int % 0x80)
    } else {
        0
    })) by {
        reveal_with_fuel(groups, 6);
    }
    assert((as_i32(total) - total) % 0x1_0000_0000 == 0);
}

/// The number that `used` groups of seven bits write.
spec fn groups(bytes: Seq<u8>, offset: int, used: int) -> nat
    decreases used,
{
    if used <= 0 {
        0
    } else {
        (bytes[offset] % 0x80) as nat + 0x80 * groups(bytes, offset + 1, used - 1)
    }
}

proof fn lemma_decode_groups(bytes: Seq<u8>, offset: int, used: int, budget: nat)
    requires
        0 <= offset,
        1 <= used <= budget,
        offset + used <= bytes.len(),
        forall|i: int| offset <= i < offset + used - 1 ==> #[trigger] bytes[i] >= 0x80,
        bytes[offset + used - 1] < 0x80,
    ensures
        decode(bytes.skip(offset), budget) == Some((groups(bytes, offset, used), used as nat)),
    decreases used,
{
    let tail = bytes.skip(offset);
    assert(tail[0] == bytes[offset]);
    if used > 1 {
        lemma_decode_groups(bytes, offset + 1, used - 1, (budget - 1) as nat);
        assert(tail.skip(1) =~= bytes.skip(offset + 1));
    } else {
        assert(groups(bytes, offset + 1, 0) == 0);
    }
}

/// Nothing else is read: a VarInt ends within five bytes and within the buffer, at the first
/// byte below 0x80.
pub proof fn law_varint_shape(bytes: Seq<u8>, offset: int)
    ensures
        varint_at(bytes, offset) matches Some((_, used)) ==> {
            &&& 0 <= offset
            &&& 1 <= used <= 5
            &&& offset + used <= bytes.len()
            &&& forall|i: int| offset <= i < offset + used - 1 ==> #[trigger] bytes[i] >= 0x80
            &&& bytes[offset + used - 1] < 0x80
        },
{
    if 0 <= offset <= bytes.len() {
        lemma_decode_shape(bytes.skip(offset), 5);
        if let Some((_, used)) = decode(bytes.skip(offset), 5) {
            assert forall|i: int| offset <= i < offset + used - 1 implies #[trigger] bytes[i]
                >= 0x80 by {
                assert(bytes[i] == bytes.skip(offset)[i - offset]);
            }
        }
    }
}

proof fn lemma_decode_shape(bytes: Seq<u8>, budget: nat)
    ensures
        decode(bytes, budget) matches Some((_, used)) ==> {
            &&& 1 <= used <= budget
            &&& used <= bytes.len()
            &&& forall|i: int| 0 <= i < used - 1 ==> #[trigger] bytes[i] >= 0x80
            &&& bytes[used - 1] < 0x80
        },
    decreases budget,
{
    if bytes.len() > 0 && budget > 0 && bytes[0] >= 0x80 {
        let rest = bytes.skip(1);
        lemma_decode_shape(rest, (budget - 1) as nat);
        if let Some((_, used)) = decode(bytes, budget) {
            assert forall|i: int| 0 <= i < used - 1 implies #[trigger] bytes[i] >= 0x80 by {
                if i > 0 {
                    assert(bytes[i] == rest[i - 1]);
                }
            }
            assert(bytes[used - 1] == rest[used - 2]);
        }
    }
}

/// What is written is the shortest form: as many bytes as the value has groups of seven
/// bits, the groups from the lowest up, and a high bit on all bytes but the last.
#[verifier::spinoff_prover]
#[verifier::rlimit(60)]
pub proof fn law_varint_is_shortest(value: u32)
    ensures
        encode(value as nat).len() == if value < 0x80 {
            1nat
        } else if value < 0x4000 {
            2
        } else if value < 0x20_0000 {
            3
        } else if value < 0x1000_0000 {
            4
        } else {
            5
        },
        encode(value as nat)[0] == value % 0x80 + (if value >= 0x80 {
            0x80int
        } else {
            0
        }),
        value >= 0x80 ==> encode(value as nat)[1] == value / 0x80 % 0x80 + (if value >= 0x4000 {
            0x80int
        } else {
            0
        }),
        value >= 0x4000 ==> encode(value as nat)[2] == value / 0x4000 % 0x80 + (if value
            >= 0x20_0000 {
            0x80int
        } else {
            0
        }),
        value >= 0x20_0000 ==> encode(value as nat)[3] == value / 0x20_0000 % 0x80 + (if value
            >= 0x1000_0000 {
            0x80int
        } else {
            0
        }),
        value >= 0x1000_0000 ==> encode(value as nat)[4] == value / 0x1000_0000,
{
    let v0 = value as nat;
    let v1 = v0 / 0x80;
    let v2 = v1 / 0x80;
    let v3 = v2 / 0x80;
    let v4 = v3 / 0x80;
    assert(v2 == v0 / 0x4000);
    assert(v3 == v0 / 0x20_0000);
    assert(v4 == v0 / 0x1000_0000);
    assert(v4 < 0x80);
    reveal_with_fuel(encode, 6);
    if v0 >= 0x80 {
        assert(encode(v0)[1] == encode(v1)[0]);
    }
    if v0 >= 0x4000 {
        assert(encode(v0)[2] == encode(v1)[1]);
        assert(encode(v1)[1] == encode(v2)[0]);
    }
    if v0 >= 0x20_0000 {
        assert(encode(v0)[3] == encode(v1)[2]);
        assert(encode(v1)[2] == encode(v2)[1]);
        assert(encode(v2)[1] == encode(v3)[0]);
    }
    if v0 >= 0x1000_0000 {
        assert(encode(v0)[4] == encode(v1)[3]);
        assert(encode(v1)[3] == encode(v2)[2]);
        assert(encode(v2)[2] == encode(v3)[1]);
        assert(encode(v3)[1] == encode(v4)[0]);
    }
}

/// A VarInt reads the same wherever it stands.
pub proof fn law_varint_stands_anywhere(
    before: Seq<u8>,
    piece: Seq<u8>,
    after: Seq<u8>,
    value: i32,
)
    requires
        varint_at(piece, 0) == Some((value, piece.len())),
    ensures
        varint_at(before + piece + after, before.len() as int) == Some((value, piece.len())),
{
    law_varint_is_final(piece, 0, after);
    assert(piece.skip(0) =~= piece);
    assert((piece + after).skip(0) =~= piece + after);
    assert((before + piece + after).skip(before.len() as int) =~= piece + after);
}

/// What is written is read, wherever it stands, and to its last byte.
pub proof fn law_written_is_read(
    value: i32,
    written: Vec<u8>,
    buf: &[u8],
    offset: usize,
    result: Option<(i32, usize)>,
)
    requires
        call_ensures(write_varint, (value as u32,), written),
        call_ensures(read_varint, (buf, offset), result),
        offset + written@.len() <= buf@.len(),
        buf@.subrange(offset as int, offset + written@.len()) == written@,
    ensures
        result matches Some((read, used)) && read == value && used == written@.len(),
{
    let after = buf@.skip((offset + written@.len()) as int);
    assert(buf@ =~= buf@.take(offset as int) + written@ + after);
    law_signed_varint_read_back(buf@.take(offset as int), value, after);
}

/// A read succeeds exactly where one to five bytes, of which the last alone is below 0x80,
/// stand at the offset, and takes just these.
pub proof fn law_read_takes_the_bytes(buf: &[u8], offset: usize, result: Option<(i32, usize)>)
    requires
        call_ensures(read_varint, (buf, offset), result),
    ensures
        result matches Some((_, used)) ==> {
            &&& 1 <= used <= 5
            &&& offset + used <= buf@.len()
            &&& forall|i: int| offset <= i < offset + used - 1 ==> #[trigger] buf@[i] >= 0x80
            &&& buf@[offset + used - 1] < 0x80
        },
        forall|end: int|
            {
                &&& offset <= end < offset + 5
                &&& end < buf@.len()
                &&& #[trigger] buf@[end] < 0x80
                &&& forall|i: int| offset <= i < end ==> #[trigger] buf@[i] >= 0x80
            } ==> (result matches Some((_, used)) && used == end + 1 - offset),
{
    law_varint_shape(buf@, offset as int);
    assert forall|end: int|
        {
            &&& offset <= end < offset + 5
            &&& end < buf@.len()
            &&& #[trigger] buf@[end] < 0x80
            &&& forall|i: int| offset <= i < end ==> #[trigger] buf@[i] >= 0x80
        } implies (result matches Some((_, used)) && used == end + 1 - offset) by {
        law_varint_value(buf@, offset as int, end + 1 - offset);
    }
}

} // verus!
