//! Little-endian integer fields of the serialized form.

use vstd::prelude::*;

verus! {

/// The four little-endian bytes of a 32-bit word.
pub open spec fn u32_le(x: u32) -> Seq<u8> {
    seq![
        ((x as int) % 256) as u8,
        (((x as int) / 256) % 256) as u8,
        (((x as int) / 65536) % 256) as u8,
        (((x as int) / 16777216) % 256) as u8,
    ]
}

/// The eight little-endian bytes of a 64-bit word.
pub open spec fn u64_le(x: u64) -> Seq<u8> {
    seq![
        ((x as int) % 256) as u8,
        (((x as int) / 256) % 256) as u8,
        (((x as int) / 65536) % 256) as u8,
        (((x as int) / 16777216) % 256) as u8,
        (((x as int) / 4294967296) % 256) as u8,
        (((x as int) / 1099511627776) % 256) as u8,
        (((x as int) / 281474976710656) % 256) as u8,
        (((x as int) / 72057594037927936) % 256) as u8,
    ]
}

/// Base-256 place values recover a 32-bit word from its four digits.
proof fn lemma_u32_digits(b0: u32, b1: u32, b2: u32, b3: u32, x: u32)
    by (bit_vector)
    requires
        b0 < 256,
        b1 < 256,
        b2 < 256,
        b3 < 256,
        x == b0 + 256 * b1 + 65536 * b2 + 16777216 * b3,
    ensures
        x % 256 == b0,
        (x / 256) % 256 == b1,
        (x / 65536) % 256 == b2,
        (x / 16777216) % 256 == b3,
{
}

/// Base-256 place values recover a 64-bit word from its eight digits.
proof fn lemma_u64_digits(
    b0: u64,
    b1: u64,
    b2: u64,
    b3: u64,
    b4: u64,
    b5: u64,
    b6: u64,
    b7: u64,
    x: u64,
)
    by (bit_vector)
    requires
        b0 < 256,
        b1 < 256,
        b2 < 256,
        b3 < 256,
        b4 < 256,
        b5 < 256,
        b6 < 256,
        b7 < 256,
        x == b0 + 256 * b1 + 65536 * b2 + 16777216 * b3 + 4294967296 * b4 + 1099511627776 * b5
            + 281474976710656 * b6 + 72057594037927936 * b7,
    ensures
        x % 256 == b0,
        (x / 256) % 256 == b1,
        (x / 65536) % 256 == b2,
        (x / 16777216) % 256 == b3,
        (x / 4294967296) % 256 == b4,
        (x / 1099511627776) % 256 == b5,
        (x / 281474976710656) % 256 == b6,
        (x / 72057594037927936) % 256 == b7,
{
}

/// Two 32-bit words with the same bytes are the same word.
pub proof fn lemma_u32_le_injective(x: u32, y: u32)
    requires
        u32_le(x) == u32_le(y),
    ensures
        x == y,
{
    assert(u32_le(x)[0] == u32_le(y)[0]);
    assert(u32_le(x)[1] == u32_le(y)[1]);
    assert(u32_le(x)[2] == u32_le(y)[2]);
    assert(u32_le(x)[3] == u32_le(y)[3]);
    assert(x == y) by (bit_vector)
        requires
            x % 256 == y % 256,
            (x / 256) % 256 == (y / 256) % 256,
            (x / 65536) % 256 == (y / 65536) % 256,
            (x / 16777216) % 256 == (y / 16777216) % 256,
    ;
}

/// Two 64-bit words with the same bytes are the same word.
pub proof fn lemma_u64_le_injective(x: u64, y: u64)
    requires
        u64_le(x) == u64_le(y),
    ensures
        x == y,
{
    assert(u64_le(x)[0] == u64_le(y)[0]);
    assert(u64_le(x)[1] == u64_le(y)[1]);
    assert(u64_le(x)[2] == u64_le(y)[2]);
    assert(u64_le(x)[3] == u64_le(y)[3]);
    assert(u64_le(x)[4] == u64_le(y)[4]);
    assert(u64_le(x)[5] == u64_le(y)[5]);
    assert(u64_le(x)[6] == u64_le(y)[6]);
    assert(u64_le(x)[7] == u64_le(y)[7]);
    assert(x == y) by (bit_vector)
        requires
            x % 256 == y % 256,
            (x / 256) % 256 == (y / 256) % 256,
            (x / 65536) % 256 == (y / 65536) % 256,
            (x / 16777216) % 256 == (y / 16777216) % 256,
            (x / 4294967296) % 256 == (y / 4294967296) % 256,
            (x / 1099511627776) % 256 == (y / 1099511627776) % 256,
            (x / 281474976710656) % 256 == (y / 281474976710656) % 256,
            (x / 72057594037927936) % 256 == (y / 72057594037927936) % 256,
    ;
}

/// Append the four little-endian bytes of `x`.
pub fn push_u32_le(out: &mut Vec<u8>, x: u32)
    ensures
        final(out)@ == old(out)@ + u32_le(x),
{
    out.push((x % 256) as u8);
    out.push(((x / 256) % 256) as u8);
    out.push(((x / 65536) % 256) as u8);
    out.push(((x / 16777216) % 256) as u8);
    proof {
        assert(out@ =~= old(out)@ + u32_le(x));
    }
}

/// Append the eight little-endian bytes of `x`.
pub fn push_u64_le(out: &mut Vec<u8>, x: u64)
    ensures
        final(out)@ == old(out)@ + u64_le(x),
{
    out.push((x % 256) as u8);
    out.push(((x / 256) % 256) as u8);
    out.push(((x / 65536) % 256) as u8);
    out.push(((x / 16777216) % 256) as u8);
    out.push(((x / 4294967296) % 256) as u8);
    out.push(((x / 1099511627776) % 256) as u8);
    out.push(((x / 281474976710656) % 256) as u8);
    out.push(((x / 72057594037927936) % 256) as u8);
    proof {
        assert(out@ =~= old(out)@ + u64_le(x));
    }
}

/// Read the 32-bit word whose little-endian bytes start at `pos`.
pub fn read_u32_le(data: &[u8], pos: usize) -> (r: u32)
    requires
        pos + 4 <= data@.len(),
    ensures
        u32_le(r) == data@.subrange(pos as int, pos as int + 4),
{
    let b0 = data[pos] as u32;
    let b1 = data[pos + 1] as u32;
    let b2 = data[pos + 2] as u32;
    let b3 = data[pos + 3] as u32;
    let x = b0 + 256 * b1 + 65536 * b2 + 16777216 * b3;
    proof {
        lemma_u32_digits(b0, b1, b2, b3, x);
        assert(u32_le(x) =~= data@.subrange(pos as int, pos as int + 4));
    }
    x
}

/// Read the 64-bit word whose little-endian bytes start at `pos`.
pub fn read_u64_le(data: &[u8], pos: usize) -> (r: u64)
    requires
        pos + 8 <= data@.len(),
    ensures
        u64_le(r) == data@.subrange(pos as int, pos as int + 8),
{
    let b0 = data[pos] as u64;
    let b1 = data[pos + 1] as u64;
    let b2 = data[pos + 2] as u64;
    let b3 = data[pos + 3] as u64;
    let b4 = data[pos + 4] as u64;
    let b5 = data[pos + 5] as u64;
    let b6 = data[pos + 6] as u64;
    let b7 = data[pos + 7] as u64;
    let x = b0 + 256 * b1 + 65536 * b2 + 16777216 * b3 + 4294967296 * b4 + 1099511627776 * b5
        + 281474976710656 * b6 + 72057594037927936 * b7;
    proof {
        lemma_u64_digits(b0, b1, b2, b3, b4, b5, b6, b7, x);
        assert(u64_le(x) =~= data@.subrange(pos as int, pos as int + 8));
    }
    x
}

} // verus!
