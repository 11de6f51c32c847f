//! Little-endian and variable-length integer encodings.
use vstd::prelude::*;

verus! {

/// The eight little-endian bytes of `value`.
pub open spec fn u64_le_bytes(value: u64) -> Seq<u8> {
    Seq::new(8, |i: int| ((value >> ((8 * i) as u64)) & 0xff) as u8)
}

/// The unsigned LEB128 encoding: seven bits per byte, least significant
/// group first, the high bit set on every byte but the last.
pub open spec fn leb128(value: nat) -> Seq<u8>
    decreases value,
{
    if value < 128 {
        seq![value as u8]
    } else {
        seq![(value % 128 + 128) as u8] + leb128(value / 128)
    }
}

/// Append the eight little-endian bytes of `value`.
pub fn push_u64_le(buffer: &mut Vec<u8>, value: u64)
    ensures
        final(buffer)@ == old(buffer)@ + u64_le_bytes(value),
{
    let ghost before = buffer@;
    let mut i: u64 = 0;
    while i < 8
        invariant
            i <= 8,
            buffer@ == before + u64_le_bytes(value).subrange(0, i as int),
        decreases 8 - i,
    {
        let byte = ((value >> (8 * i)) & 0xff) as u8;
        buffer.push(byte);
        proof {
            assert(u64_le_bytes(value)[i as int] == byte);
            assert(u64_le_bytes(value).subrange(0, i as int + 1) =~= u64_le_bytes(value).subrange(
                0,
                i as int,
            ).push(byte));
        }
        i += 1;
    }
    assert(u64_le_bytes(value).subrange(0, 8) =~= u64_le_bytes(value));
}

/// Append `value` as unsigned LEB128.
pub fn push_usize(buffer: &mut Vec<u8>, value: usize)
    ensures
        final(buffer)@ == old(buffer)@ + leb128(value as nat),
{
    let ghost before = buffer@;
    let mut value = value;
    let ghost original = value;
    loop
        invariant_except_break
            buffer@ + leb128(value as nat) == before + leb128(original as nat),
        ensures
            buffer@ == before + leb128(original as nat),
        decreases value,
    {
        let low = (value & 0x7f) as u8;
        proof {
            assert((value & 0x7f) == value % 128) by (bit_vector);
            assert((value >> 7) == value / 128) by (bit_vector);
        }
        let ghost current = value;
        value = value >> 7;
        if value == 0 {
            proof {
                assert(current < 128);
                assert(leb128(current as nat) == seq![low]);
            }
            let ghost prior = buffer@;
            buffer.push(low);
            proof {
                assert(buffer@ =~= prior + seq![low]);
            }
            break;
        }
        proof {
            assert(low < 128);
            assert((low | 0x80) == low + 128) by (bit_vector)
                requires
                    low < 128,
            ;
            assert(leb128(current as nat) == seq![(low | 0x80) as u8] + leb128(value as nat));
            assert(buffer@.push(low | 0x80) + leb128(value as nat) =~= buffer@ + leb128(
                current as nat,
            ));
        }
        buffer.push(low | 0x80);
    }
}

} // verus!
