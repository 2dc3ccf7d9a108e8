//! The gdelta instruction format and what a delta decodes to.
//!
//! A delta is a sequence of instructions. Each starts with a 3-byte
//! little-endian header. When the top bit of its third byte is set, the
//! instruction inserts the bytes that follow; the other 23 bits give their
//! number. Otherwise the header is a length and 3 more little-endian bytes
//! give an offset: the instruction copies that many bytes of the base chunk
//! from that offset.

use vstd::prelude::*;

verus! {

/// The little-endian value of three bytes.
pub open spec fn le24(b0: u8, b1: u8, b2: u8) -> int {
    b0 as int + b1 as int * 256 + b2 as int * 65536
}

/// The bytes that `delta` decodes to against `base`, or `None` when it is
/// not a well-formed delta for `base`.
pub open spec fn decode_delta(delta: Seq<u8>, base: Seq<u8>) -> Option<Seq<u8>>
    decreases delta.len(),
{
    if delta.len() == 0 {
        Some(Seq::empty())
    } else if delta.len() < 3 {
        None
    } else if delta[2] >= 128 {
        let len = le24(delta[0], delta[1], (delta[2] - 128) as u8);
        if delta.len() < 3 + len {
            None
        } else {
            match decode_delta(delta.subrange(3 + len, delta.len() as int), base) {
                Some(rest) => Some(delta.subrange(3, 3 + len) + rest),
                None => None,
            }
        }
    } else if delta.len() < 6 {
        None
    } else {
        let len = le24(delta[0], delta[1], delta[2]);
        let off = le24(delta[3], delta[4], delta[5]);
        if off + len > base.len() {
            None
        } else {
            match decode_delta(delta.subrange(6, delta.len() as int), base) {
                Some(rest) => Some(base.subrange(off, off + len) + rest),
                None => None,
            }
        }
    }
}

/// Byte `k` (0, 1 or 2) of the little-endian encoding of `x`.
pub open spec fn byte_of(x: usize, k: int) -> u8 {
    if k == 0 {
        (x & 0xff) as u8
    } else if k == 1 {
        ((x >> 8usize) & 0xff) as u8
    } else {
        ((x >> 16usize) & 0xff) as u8
    }
}

/// The header of an insertion of `len` bytes: the low 24 bits of `len`,
/// with the top bit of the third byte set.
pub open spec fn insert_header(len: usize) -> Seq<u8> {
    seq![byte_of(len, 0), byte_of(len, 1), byte_of(len, 2) | 0x80u8]
}

/// An instruction that inserts `data`.
pub open spec fn insert_instr(data: Seq<u8>) -> Seq<u8> {
    insert_header(data.len() as usize) + data
}

/// An instruction that copies `len` bytes of the base from `off`.
pub open spec fn copy_instr(len: usize, off: usize) -> Seq<u8> {
    seq![byte_of(len, 0), byte_of(len, 1), byte_of(len, 2), byte_of(off, 0), byte_of(off, 1), byte_of(off, 2)]
}

/// The three low bytes of a value below 2^24 give it back, and the third
/// byte of a value below 2^23 has its top bit clear.
pub proof fn lemma_bytes_of(x: usize)
    requires
        x < 0x1000000,
    ensures
        le24(byte_of(x, 0), byte_of(x, 1), byte_of(x, 2)) == x,
        x < 0x800000 ==> byte_of(x, 2) < 128,
        x < 0x800000 ==> (byte_of(x, 2) | 0x80u8) >= 128,
        x < 0x800000 ==> ((byte_of(x, 2) | 0x80u8) - 128) as u8 == byte_of(x, 2),
{
    let b0 = byte_of(x, 0);
    let b1 = byte_of(x, 1);
    let b2 = byte_of(x, 2);
    assert((x & 0xff) + ((x >> 8usize) & 0xff) * 256 + ((x >> 16usize) & 0xff) * 65536 == x) by (bit_vector)
        requires
            x < 0x1000000,
    ;
    assert(((x & 0xff) as u8) as nat == (x & 0xff) as nat) by (bit_vector);
    assert((((x >> 8usize) & 0xff) as u8) as nat == ((x >> 8usize) & 0xff) as nat) by (bit_vector);
    assert((((x >> 16usize) & 0xff) as u8) as nat == ((x >> 16usize) & 0xff) as nat) by (bit_vector);
    if x < 0x800000 {
        assert(((x >> 16usize) & 0xff) < 128) by (bit_vector)
            requires
                x < 0x800000,
        ;
        assert(b2 < 128);
        assert(b2 < 128 ==> (b2 | 0x80u8) >= 128 && ((b2 | 0x80u8) - 128) as u8 == b2) by (bit_vector);
    }
}

/// An insertion followed by a delta decodes to the inserted bytes followed
/// by what the delta decodes to.
pub proof fn lemma_decode_insert(data: Seq<u8>, rest: Seq<u8>, base: Seq<u8>)
    requires
        data.len() < 0x800000,
    ensures
        decode_delta(insert_instr(data) + rest, base) == match decode_delta(rest, base) {
            Some(r) => Some(data + r),
            None => None::<Seq<u8>>,
        },
{
    let d = insert_instr(data) + rest;
    let len = data.len() as usize;
    lemma_bytes_of(len);
    assert(d[0] == byte_of(len, 0) && d[1] == byte_of(len, 1) && d[2] == (byte_of(len, 2) | 0x80u8));
    assert(le24(d[0], d[1], (d[2] - 128) as u8) == data.len());
    assert(d.subrange(3 + data.len() as int, d.len() as int) == rest);
    assert(d.subrange(3, 3 + data.len() as int) == data);
}

/// A copy followed by a delta decodes to the copied bytes of the base
/// followed by what the delta decodes to.
pub proof fn lemma_decode_copy(len: usize, off: usize, rest: Seq<u8>, base: Seq<u8>)
    requires
        len < 0x800000,
        off < 0x1000000,
        off + len <= base.len(),
    ensures
        decode_delta(copy_instr(len, off) + rest, base) == match decode_delta(rest, base) {
            Some(r) => Some(base.subrange(off as int, off + len) + r),
            None => None::<Seq<u8>>,
        },
{
    let d = copy_instr(len, off) + rest;
    lemma_bytes_of(len);
    lemma_bytes_of(off);
    assert(d[0] == byte_of(len, 0) && d[1] == byte_of(len, 1) && d[2] == byte_of(len, 2));
    assert(d[3] == byte_of(off, 0) && d[4] == byte_of(off, 1) && d[5] == byte_of(off, 2));
    assert(d.subrange(6, d.len() as int) == rest);
}

/// Two deltas one after the other decode to what the first decodes to
/// followed by what the second decodes to.
pub proof fn lemma_decode_concat(d1: Seq<u8>, d2: Seq<u8>, base: Seq<u8>)
    requires
        decode_delta(d1, base) is Some,
        decode_delta(d2, base) is Some,
    ensures
        decode_delta(d1 + d2, base) == Some(decode_delta(d1, base).unwrap() + decode_delta(d2, base).unwrap()),
    decreases d1.len(),
{
    let d = d1 + d2;
    if d1.len() == 0 {
        assert(d == d2);
        assert(Seq::<u8>::empty() + decode_delta(d2, base).unwrap() == decode_delta(d2, base).unwrap());
    } else {
        assert(d[0] == d1[0] && d[1] == d1[1] && d[2] == d1[2]);
        if d1[2] >= 128 {
            let len = le24(d1[0], d1[1], (d1[2] - 128) as u8);
            let t1 = d1.subrange(3 + len, d1.len() as int);
            lemma_decode_concat(t1, d2, base);
            assert(d.subrange(3 + len, d.len() as int) == t1 + d2);
            assert(d.subrange(3, 3 + len) == d1.subrange(3, 3 + len));
            let piece = d1.subrange(3, 3 + len);
            let x = decode_delta(t1, base).unwrap();
            let y = decode_delta(d2, base).unwrap();
            assert(piece + (x + y) == (piece + x) + y);
        } else {
            assert(d[3] == d1[3] && d[4] == d1[4] && d[5] == d1[5]);
            let len = le24(d1[0], d1[1], d1[2]);
            let off = le24(d1[3], d1[4], d1[5]);
            let t1 = d1.subrange(6, d1.len() as int);
            lemma_decode_concat(t1, d2, base);
            assert(d.subrange(6, d.len() as int) == t1 + d2);
            let piece = base.subrange(off, off + len);
            let x = decode_delta(t1, base).unwrap();
            let y = decode_delta(d2, base).unwrap();
            assert(piece + (x + y) == (piece + x) + y);
        }
    }
}

} // verus!
