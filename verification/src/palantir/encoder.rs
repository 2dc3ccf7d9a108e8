//! Delta encoding of a chunk against a similar base chunk.

use std::collections::HashMap;

use vstd::prelude::*;
use vstd::wrapping::u64_specs;

use crate::palantir::delta::{
    byte_of, copy_instr, decode_delta, insert_header, insert_instr, lemma_bytes_of,
    lemma_decode_concat, lemma_decode_copy, lemma_decode_insert,
};
use crate::palantir::gear::GEAR;

verus! {

/// The floor of the base-2 logarithm of `n` (0 for `n <= 1`).
pub open spec fn log2_floor(n: nat) -> nat
    decreases n,
{
    if n <= 1 {
        0
    } else {
        1 + log2_floor(n / 2)
    }
}

/// Two to the power `k`.
pub open spec fn pow2(k: nat) -> nat
    decreases k,
{
    if k == 0 {
        1
    } else {
        2 * pow2((k - 1) as nat)
    }
}

proof fn lemma_log2_below(n: nat, b: nat)
    requires
        1 <= n < pow2(b),
    ensures
        log2_floor(n) < b,
    decreases n,
{
    if n > 1 {
        assert(b > 0);
        lemma_log2_below(n / 2, (b - 1) as nat);
    }
}

proof fn lemma_log2_of_usize(n: usize)
    requires
        n >= 1,
    ensures
        log2_floor(n as nat) < 64,
{
    reveal_with_fuel(pow2, 65);
    assert(pow2(64) == 0x1_0000_0000_0000_0000);
    lemma_log2_below(n as nat, 64);
}

proof fn lemma_log2_at_least_4(n: nat)
    requires
        n >= 16,
    ensures
        log2_floor(n) >= 4,
{
    reveal_with_fuel(log2_floor, 5);
    assert(n / 2 >= 8);
    assert(n / 2 / 2 >= 4);
    assert(n / 2 / 2 / 2 >= 2);
}

/// The floor of the base-2 logarithm of `n`.
pub fn floor_log2(n: usize) -> (r: usize)
    requires
        n >= 1,
    ensures
        r == log2_floor(n as nat),
        r < 64,
{
    proof {
        lemma_log2_of_usize(n);
    }
    let mut x = n;
    let mut r: usize = 0;
    while x > 1
        invariant
            1 <= x <= n,
            r + log2_floor(x as nat) == log2_floor(n as nat),
            log2_floor(n as nat) < 64,
        decreases x,
    {
        x = x / 2;
        r = r + 1;
    }
    r
}

/// The gear fingerprint of `s`: starting from 0, for each byte the
/// fingerprint is shifted left by `shift` bits and the byte's gear value is
/// added, wrapping around at 2^64.
pub open spec fn gear_roll(s: Seq<u8>, shift: usize) -> u64
    decreases s.len(),
{
    if s.len() == 0 {
        0
    } else {
        u64_specs::wrapping_add(gear_roll(s.drop_last(), shift) << shift, GEAR@[s.last() as int])
    }
}

/// The word hash of the 16-byte window of `data` at `i`: the top
/// `log2(len)` bits of the gear fingerprint of `data` up to the end of the
/// window.
pub open spec fn window_hash(data: Seq<u8>, i: int) -> u64 {
    gear_roll(data.take(i + 16), 4) >> ((64 - log2_floor(data.len())) as usize)
}

/// `m` maps the word hash of every 16-byte window of `data` to the last
/// window position with that hash, and holds nothing else.
pub open spec fn is_window_table(data: Seq<u8>, m: Map<u64, usize>) -> bool {
    &&& forall|w: u64|
        #[trigger] m.contains_key(w) ==> {
            &&& m[w] + 16 <= data.len()
            &&& window_hash(data, m[w] as int) == w
            &&& forall|t: int| m[w] < t && t + 16 <= data.len() ==> #[trigger] window_hash(data, t) != w
        }
    &&& forall|t: int| 0 <= t && t + 16 <= data.len() ==> m.contains_key(#[trigger] window_hash(data, t))
}

proof fn lemma_gear_roll_step(s: Seq<u8>, i: int, shift: usize)
    requires
        0 <= i < s.len(),
    ensures
        gear_roll(s.take(i + 1), shift) == u64_specs::wrapping_add(
            gear_roll(s.take(i), shift) << shift,
            GEAR@[s[i] as int],
        ),
{
    assert(s.take(i + 1).drop_last() == s.take(i));
}

/// The fingerprint `x` with the bytes of `t` rolled in, four bits per byte.
pub open spec fn roll_on(x: u64, t: Seq<u8>) -> u64
    decreases t.len(),
{
    if t.len() == 0 {
        x
    } else {
        u64_specs::wrapping_add(roll_on(x, t.drop_last()) << 4usize, GEAR@[t.last() as int])
    }
}

/// What is left of a starting fingerprint `x` after `k` bytes are rolled
/// in: it has moved up by four bits per byte, and is gone after 16 bytes.
spec fn roll_residue(x: u64, k: nat) -> u64 {
    if k >= 16 {
        0
    } else {
        x << ((4 * k) as u64)
    }
}

proof fn lemma_wrapping_add_truncates(a: u64, c: u64)
    ensures
        u64_specs::wrapping_add(a, c) == (a + c) as u64,
{
    if a + c > u64::MAX {
        assert((a + c - 0x1_0000_0000_0000_0000) as u64 == (a + c) as u64) by (bit_vector)
            requires
                a + c > 0xffff_ffff_ffff_ffff,
        ;
    }
}

proof fn lemma_roll_on_zero(t: Seq<u8>)
    ensures
        roll_on(0, t) == gear_roll(t, 4),
    decreases t.len(),
{
    if t.len() > 0 {
        lemma_roll_on_zero(t.drop_last());
    }
}

proof fn lemma_roll_on_concat(x: u64, a: Seq<u8>, b: Seq<u8>)
    ensures
        roll_on(x, a + b) == roll_on(roll_on(x, a), b),
    decreases b.len(),
{
    if b.len() == 0 {
        assert(a + b =~= a);
    } else {
        lemma_roll_on_concat(x, a, b.drop_last());
        assert((a + b).drop_last() =~= a + b.drop_last());
        assert((a + b).last() == b.last());
    }
}

proof fn lemma_roll_residue(x: u64, t: Seq<u8>)
    ensures
        roll_on(x, t) == (roll_residue(x, t.len()) + roll_on(0, t)) as u64,
    decreases t.len(),
{
    if t.len() == 0 {
        assert(x << 0u64 == x) by (bit_vector);
        assert((x + 0u64) as u64 == x);
    } else {
        let k = (t.len() - 1) as nat;
        let p = t.drop_last();
        lemma_roll_residue(x, p);
        let r = roll_residue(x, k);
        let r0 = roll_on(0, p);
        let g = GEAR@[t.last() as int];
        lemma_wrapping_add_truncates(roll_on(x, p) << 4usize, g);
        lemma_wrapping_add_truncates(r0 << 4usize, g);
        assert(((r + r0) as u64) << 4usize == ((r << 4usize) + (r0 << 4usize)) as u64) by (bit_vector);
        if k < 15 {
            let s = (4 * k) as u64;
            assert((x << s) << 4usize == x << ((s + 4) as u64)) by (bit_vector)
                requires
                    s <= 56,
            ;
            assert((4 * (k + 1)) as u64 == (s + 4) as u64);
        } else if k == 15 {
            assert((x << 60u64) << 4usize == 0) by (bit_vector);
        } else {
            assert(0u64 << 4usize == 0) by (bit_vector);
        }
        let r1 = roll_residue(x, k + 1);
        assert(r << 4usize == r1);
        let rr = r0 << 4usize;
        assert(((((r1 + rr) as u64) + g) as u64) == ((r1 + ((rr + g) as u64)) as u64)) by (bit_vector);
    }
}

/// After 16 bytes are rolled in, nothing of the starting fingerprint is
/// left: the result is the gear fingerprint of the bytes alone.
pub proof fn lemma_roll_forgets(x: u64, t: Seq<u8>)
    requires
        t.len() >= 16,
    ensures
        roll_on(x, t) == gear_roll(t, 4),
{
    lemma_roll_residue(x, t);
    lemma_roll_on_zero(t);
    let r0 = roll_on(0, t);
    assert((0u64 + r0) as u64 == r0);
}

/// Maps the word hash of every 16-byte window of `data` to the last
/// position of a window with that hash.
pub fn build_hash_table(data: &[u8]) -> (m: HashMap<u64, usize>)
    requires
        data.len() >= 16,
    ensures
        is_window_table(data@, m@),
{
    let word_size: usize = 16;
    let move_bts: usize = 64 / word_size;
    let mask_bts: usize = floor_log2(data.len());
    proof {
        lemma_log2_at_least_4(data.len() as nat);
    }
    let mut word_hash_offsets: HashMap<u64, usize> = HashMap::new();
    let mut fp: u64 = 0;
    let mut i: usize = 0;
    while i < word_size - 1
        invariant
            0 <= i <= 15,
            word_size == 16,
            move_bts == 4,
            data.len() >= 16,
            fp == gear_roll(data@.take(i as int), 4),
        decreases 15 - i,
    {
        proof {
            lemma_gear_roll_step(data@, i as int, 4);
        }
        fp = (fp << move_bts).wrapping_add(GEAR[data[i] as usize]);
        i = i + 1;
    }
    let mut i: usize = 0;
    while i < data.len() - word_size + 1
        invariant
            0 <= i <= data.len() - 15,
            word_size == 16,
            move_bts == 4,
            data.len() >= 16,
            mask_bts == log2_floor(data.len() as nat),
            4 <= mask_bts < 64,
            fp == gear_roll(data@.take(i + 15), 4),
            forall|w: u64|
                #[trigger] word_hash_offsets@.contains_key(w) ==> {
                    &&& word_hash_offsets@[w] < i
                    &&& window_hash(data@, word_hash_offsets@[w] as int) == w
                    &&& forall|t: int|
                        word_hash_offsets@[w] < t < i ==> #[trigger] window_hash(data@, t) != w
                },
            forall|t: int| 0 <= t < i ==> word_hash_offsets@.contains_key(#[trigger] window_hash(data@, t)),
        decreases data.len() - i,
    {
        proof {
            lemma_gear_roll_step(data@, i + 15, 4);
        }
        fp = (fp << move_bts).wrapping_add(GEAR[data[i + word_size - 1] as usize]);
        let word_hash: u64 = fp >> (64 - mask_bts);
        assert(word_hash == window_hash(data@, i as int));
        word_hash_offsets.insert(word_hash, i);
        i = i + 1;
    }
    word_hash_offsets
}

/// The length of the longest common prefix of `a` and `b`.
pub open spec fn match_len(a: Seq<u8>, b: Seq<u8>) -> nat
    decreases a.len(),
{
    if a.len() == 0 || b.len() == 0 || a[0] != b[0] {
        0
    } else {
        1 + match_len(a.drop_first(), b.drop_first())
    }
}

/// A common prefix is no longer than either sequence.
pub proof fn lemma_match_len_bound(a: Seq<u8>, b: Seq<u8>)
    ensures
        match_len(a, b) <= a.len(),
        match_len(a, b) <= b.len(),
    decreases a.len(),
{
    if a.len() > 0 && b.len() > 0 && a[0] == b[0] {
        lemma_match_len_bound(a.drop_first(), b.drop_first());
    }
}

proof fn lemma_match_len(a: Seq<u8>, b: Seq<u8>, k: int)
    requires
        0 <= k <= a.len(),
        k <= b.len(),
        a.take(k) == b.take(k),
        k == a.len() || k == b.len() || a[k] != b[k],
    ensures
        match_len(a, b) == k,
    decreases k,
{
    if k > 0 {
        assert(a[0] == a.take(k)[0]);
        assert(b[0] == b.take(k)[0]);
        assert(a.drop_first().take(k - 1) =~= a.take(k).drop_first());
        assert(b.drop_first().take(k - 1) =~= b.take(k).drop_first());
        lemma_match_len(a.drop_first(), b.drop_first(), k - 1);
    }
}

/// The word hash of the 16-byte window of `new` at `j`, keeping the top
/// `bits` bits of its gear fingerprint.
pub open spec fn probe_hash(new: Seq<u8>, j: int, bits: nat) -> u64 {
    gear_roll(new.subrange(j, j + 16), 4) >> ((64 - bits) as usize)
}

/// The instructions that encoding emits from window `j` on, with the
/// bytes from `anchor` still pending, given the window table `table` of
/// the base chunk and its hash width `bits`.
///
/// At each window the encoder probes the table with the window's hash;
/// when the base bytes at the recorded position and the new bytes from the
/// window agree for at least 16 bytes, it emits the pending bytes as an
/// insertion (if any), then a copy of the whole agreeing run, and moves
/// past it. When no further window fits, the rest is emitted as a final
/// insertion, which may be empty.
#[verifier::opaque]
pub open spec fn gdelta_ops(
    new: Seq<u8>,
    base: Seq<u8>,
    table: Map<u64, usize>,
    bits: nat,
    j: int,
    anchor: int,
) -> Seq<u8>
    decreases new.len() - j,
{
    if j < 0 || j + 16 > new.len() {
        Seq::empty()
    } else {
        let h = probe_hash(new, j, bits);
        let e = if table.contains_key(h) {
            match_len(base.subrange(table[h] as int, base.len() as int), new.subrange(j, new.len() as int))
        } else {
            0
        };
        if table.contains_key(h) && e >= 16 {
            let lit = if j > anchor {
                insert_instr(new.subrange(anchor, j))
            } else {
                Seq::empty()
            };
            let next_anchor = j + e;
            proof {
                lemma_match_len_bound(
                    base.subrange(table[h] as int, base.len() as int),
                    new.subrange(j, new.len() as int),
                );
            }
            let tail = if next_anchor - 1 >= new.len() - 16 {
                insert_instr(new.subrange(next_anchor, new.len() as int))
            } else {
                Seq::empty()
            };
            lit + copy_instr(e as usize, table[h]) + tail + gdelta_ops(new, base, table, bits, next_anchor, next_anchor)
        } else {
            let tail = if j >= new.len() - 16 {
                insert_instr(new.subrange(anchor, new.len() as int))
            } else {
                Seq::empty()
            };
            tail + gdelta_ops(new, base, table, bits, j + 1, anchor)
        }
    }
}

/// A chunk has one window table.
pub proof fn lemma_window_table_unique(data: Seq<u8>, t1: Map<u64, usize>, t2: Map<u64, usize>)
    requires
        is_window_table(data, t1),
        is_window_table(data, t2),
    ensures
        t1 == t2,
{
    assert forall|w: u64| #[trigger] t1.contains_key(w) <==> t2.contains_key(w) by {
        if t1.contains_key(w) {
            assert(t2.contains_key(window_hash(data, t1[w] as int)));
        }
        if t2.contains_key(w) {
            assert(t1.contains_key(window_hash(data, t2[w] as int)));
        }
    }
    assert forall|w: u64| #[trigger] t1.contains_key(w) implies t1[w] == t2[w] by {
        if t1[w] < t2[w] {
            assert(window_hash(data, t2[w] as int) != w);
        } else if t2[w] < t1[w] {
            assert(window_hash(data, t1[w] as int) != w);
        }
    }
    assert(t1 =~= t2);
}

/// Rolling the byte after a 15-byte window into its fingerprint gives the
/// fingerprint of the 16-byte window, which no longer depends on where the
/// rolling started; dropping the window's first byte into the start gives
/// the same value.
proof fn lemma_window_fp(x: u64, new: Seq<u8>, j: int)
    requires
        0 <= j,
        j + 16 <= new.len(),
    ensures
        roll_on(x, new.subrange(j, j + 16)) == u64_specs::wrapping_add(
            roll_on(x, new.subrange(j, j + 15)) << 4usize,
            GEAR@[new[j + 15] as int],
        ),
        roll_on(x, new.subrange(j, j + 16)) == gear_roll(new.subrange(j, j + 16), 4),
        roll_on(x, new.subrange(j, j + 16)) == roll_on(roll_on(x, seq![new[j]]), new.subrange(j + 1, j + 16)),
{
    let w = new.subrange(j, j + 16);
    assert(w.drop_last() =~= new.subrange(j, j + 15));
    assert(w.last() == new[j + 15]);
    lemma_roll_forgets(x, w);
    lemma_roll_on_concat(x, seq![new[j]], new.subrange(j + 1, j + 16));
    assert(seq![new[j]] + new.subrange(j + 1, j + 16) =~= w);
}

/// One step of `gdelta_ops` at a window whose probe finds a run of `e >= 16`
/// agreeing bytes at base position `o`.
proof fn lemma_ops_match(
    new: Seq<u8>,
    base: Seq<u8>,
    table: Map<u64, usize>,
    bits: nat,
    j: int,
    anchor: int,
    o: usize,
    e: int,
)
    requires
        0 <= j,
        j + 16 <= new.len(),
        table.contains_key(probe_hash(new, j, bits)),
        table[probe_hash(new, j, bits)] == o,
        e == match_len(base.subrange(o as int, base.len() as int), new.subrange(j, new.len() as int)),
        e >= 16,
    ensures
        gdelta_ops(new, base, table, bits, j, anchor) == (if j > anchor {
            insert_instr(new.subrange(anchor, j))
        } else {
            Seq::empty()
        }) + copy_instr(e as usize, o) + (if j + e - 1 >= new.len() - 16 {
            insert_instr(new.subrange(j + e, new.len() as int))
        } else {
            Seq::empty()
        }) + gdelta_ops(new, base, table, bits, j + e, j + e),
{
    reveal(gdelta_ops);
}

/// One step of `gdelta_ops` at a window whose probe finds no run of 16
/// agreeing bytes.
proof fn lemma_ops_skip(new: Seq<u8>, base: Seq<u8>, table: Map<u64, usize>, bits: nat, j: int, anchor: int)
    requires
        0 <= j,
        j + 16 <= new.len(),
        !(table.contains_key(probe_hash(new, j, bits)) && match_len(
            base.subrange(table[probe_hash(new, j, bits)] as int, base.len() as int),
            new.subrange(j, new.len() as int),
        ) >= 16),
    ensures
        gdelta_ops(new, base, table, bits, j, anchor) == (if j >= new.len() - 16 {
            insert_instr(new.subrange(anchor, new.len() as int))
        } else {
            Seq::empty()
        }) + gdelta_ops(new, base, table, bits, j + 1, anchor),
{
    reveal(gdelta_ops);
}

/// Past the last window, `gdelta_ops` emits nothing.
proof fn lemma_ops_done(new: Seq<u8>, base: Seq<u8>, table: Map<u64, usize>, bits: nat, j: int, anchor: int)
    requires
        j + 16 > new.len(),
    ensures
        gdelta_ops(new, base, table, bits, j, anchor) == Seq::<u8>::empty(),
{
    reveal(gdelta_ops);
}

/// Appends the header of an insertion of `len` bytes.
fn push_insert_header(out: &mut Vec<u8>, len: usize)
    ensures
        final(out)@ == old(out)@ + insert_header(len),
{
    out.push((len & 0xff) as u8);
    out.push(((len >> 8) & 0xff) as u8);
    let b2: u8 = ((len >> 16) & 0xff) as u8;
    out.push(b2 | 0x80);
    assert(final(out)@ =~= old(out)@ + insert_header(len));
}

/// Appends a copy instruction of `len` bytes from `off`.
fn push_copy(out: &mut Vec<u8>, len: usize, off: usize)
    ensures
        final(out)@ == old(out)@ + copy_instr(len, off),
{
    out.push((len & 0xff) as u8);
    out.push(((len >> 8) & 0xff) as u8);
    out.push(((len >> 16) & 0xff) as u8);
    out.push((off & 0xff) as u8);
    out.push(((off >> 8) & 0xff) as u8);
    out.push(((off >> 16) & 0xff) as u8);
    assert(final(out)@ =~= old(out)@ + copy_instr(len, off));
}

/// Appends `src[lo..hi]`.
fn push_range(out: &mut Vec<u8>, src: &[u8], lo: usize, hi: usize)
    requires
        lo <= hi <= src.len(),
    ensures
        final(out)@ == old(out)@ + src@.subrange(lo as int, hi as int),
{
    let mut k = lo;
    while k < hi
        invariant
            lo <= k <= hi <= src.len(),
            out@ == old(out)@ + src@.subrange(lo as int, k as int),
        decreases hi - k,
    {
        out.push(src[k]);
        k = k + 1;
        assert(out@ =~= old(out)@ + src@.subrange(lo as int, k as int));
    }
}

/// The lengths for which a delta's instructions encode their sizes and
/// offsets without loss: lengths below 2^23, offsets below 2^24.
pub open spec fn fits_delta_format(new_chunk: Seq<u8>, base_chunk: Seq<u8>) -> bool {
    new_chunk.len() < 0x800000 && base_chunk.len() <= 0x1000000
}

/// Proof step: emitting an insertion of `new[anchor..end]` after a delta
/// that decodes to `new[..anchor]` gives a delta that decodes to
/// `new[..end]`.
proof fn lemma_emit_insert(d: Seq<u8>, new: Seq<u8>, base: Seq<u8>, anchor: int, end: int)
    requires
        0 <= anchor <= end <= new.len() < 0x800000,
        decode_delta(d, base) == Some(new.take(anchor)),
    ensures
        decode_delta(d + insert_instr(new.subrange(anchor, end)), base) == Some(new.take(end)),
{
    let data = new.subrange(anchor, end);
    lemma_decode_insert(data, Seq::empty(), base);
    assert(insert_instr(data) + Seq::<u8>::empty() == insert_instr(data));
    assert(data + Seq::<u8>::empty() == data);
    lemma_decode_concat(d, insert_instr(data), base);
    assert(new.take(anchor) + data == new.take(end));
}

/// Proof step: emitting a copy of `len` base bytes from `off` that equal
/// `new[start..start + len]` after a delta that decodes to `new[..start]`
/// gives a delta that decodes to `new[..start + len]`.
proof fn lemma_emit_copy(d: Seq<u8>, new: Seq<u8>, base: Seq<u8>, start: int, len: usize, off: usize)
    requires
        0 <= start,
        start + len <= new.len() < 0x800000,
        off + len <= base.len() <= 0x1000000,
        off + 16 <= base.len(),
        base.subrange(off as int, off + len) == new.subrange(start, start + len),
        decode_delta(d, base) == Some(new.take(start)),
    ensures
        decode_delta(d + copy_instr(len, off), base) == Some(new.take(start + len)),
{
    lemma_decode_copy(len, off, Seq::empty(), base);
    assert(copy_instr(len, off) + Seq::<u8>::empty() == copy_instr(len, off));
    let piece = base.subrange(off as int, off + len);
    assert(piece + Seq::<u8>::empty() == piece);
    lemma_decode_concat(d, copy_instr(len, off), base);
    assert(new.take(start) + new.subrange(start, start + len) == new.take(start + len));
}

/// The length of the longest run of equal bytes of `base[offset..]` and
/// `new[j..]`.
fn common_run(base_chunk: &[u8], offset: usize, new_chunk: &[u8], j: usize) -> (e: usize)
    requires
        offset <= base_chunk.len(),
        j <= new_chunk.len(),
    ensures
        e == match_len(
            base_chunk@.subrange(offset as int, base_chunk.len() as int),
            new_chunk@.subrange(j as int, new_chunk.len() as int),
        ),
        offset + e <= base_chunk.len(),
        j + e <= new_chunk.len(),
        base_chunk@.subrange(offset as int, offset + e) == new_chunk@.subrange(j as int, j + e),
{
    let ghost base = base_chunk@;
    let ghost new = new_chunk@;
    let lim = if base_chunk.len() - offset < new_chunk.len() - j {
        base_chunk.len() - offset
    } else {
        new_chunk.len() - j
    };
    let mut e: usize = 0;
    while e < lim && base_chunk[offset + e] == new_chunk[j + e]
        invariant
            0 <= e <= lim,
            lim <= base.len() - offset,
            lim <= new.len() - j,
            lim == base.len() - offset || lim == new.len() - j,
            offset <= base.len(),
            j <= new.len(),
            base.len() == base_chunk.len(),
            new.len() == new_chunk.len(),
            base == base_chunk@,
            new == new_chunk@,
            base.subrange(offset as int, offset + e) == new.subrange(j as int, j + e),
        decreases lim - e,
    {
        proof {
            let k = e as int;
            assert(base.subrange(offset as int, offset + k + 1) =~= base.subrange(offset as int, offset + k).push(
                base[offset + k],
            ));
            assert(new.subrange(j as int, j + k + 1) =~= new.subrange(j as int, j + k).push(new[j + k]));
        }
        e = e + 1;
    }
    proof {
        let a = base.subrange(offset as int, base.len() as int);
        let b = new.subrange(j as int, new.len() as int);
        assert(a.take(e as int) =~= base.subrange(offset as int, offset + e));
        assert(b.take(e as int) =~= new.subrange(j as int, j + e));
        if e < lim {
            assert(a[e as int] == base[offset + e]);
            assert(b[e as int] == new[j + e]);
        }
        lemma_match_len(a, b, e as int);
    }
    e
}

/// Emits the pending bytes `new[anchor..j]` as an insertion, when there
/// are any.
fn emit_pending(delta: &mut Vec<u8>, new_chunk: &[u8], base_chunk: &[u8], anchor: usize, j: usize)
    requires
        anchor <= j <= new_chunk.len(),
    ensures
        final(delta)@ == old(delta)@ + (if j > anchor {
            insert_instr(new_chunk@.subrange(anchor as int, j as int))
        } else {
            Seq::empty()
        }),
        new_chunk.len() < 0x800000 && decode_delta(old(delta)@, base_chunk@) == Some(
            new_chunk@.take(anchor as int),
        ) ==> decode_delta(final(delta)@, base_chunk@) == Some(new_chunk@.take(j as int)),
{
    let ghost d0 = delta@;
    if j > anchor {
        push_insert_header(delta, j - anchor);
        push_range(delta, new_chunk, anchor, j);
        proof {
            assert(delta@ == d0 + insert_instr(new_chunk@.subrange(anchor as int, j as int)));
            if new_chunk.len() < 0x800000 && decode_delta(d0, base_chunk@) == Some(new_chunk@.take(anchor as int)) {
                lemma_emit_insert(d0, new_chunk@, base_chunk@, anchor as int, j as int);
            }
        }
    } else {
        assert(delta@ =~= d0 + Seq::<u8>::empty());
    }
}

/// Emits the final insertion of `new[anchor..]`, even when it is empty.
fn emit_rest(delta: &mut Vec<u8>, new_chunk: &[u8], base_chunk: &[u8], anchor: usize)
    requires
        anchor <= new_chunk.len(),
    ensures
        final(delta)@ == old(delta)@ + insert_instr(new_chunk@.subrange(anchor as int, new_chunk.len() as int)),
        new_chunk.len() < 0x800000 && decode_delta(old(delta)@, base_chunk@) == Some(
            new_chunk@.take(anchor as int),
        ) ==> decode_delta(final(delta)@, base_chunk@) == Some(new_chunk@),
{
    let ghost d0 = delta@;
    push_insert_header(delta, new_chunk.len() - anchor);
    push_range(delta, new_chunk, anchor, new_chunk.len());
    proof {
        let new = new_chunk@;
        assert(delta@ == d0 + insert_instr(new.subrange(anchor as int, new.len() as int)));
        if new.len() < 0x800000 && decode_delta(d0, base_chunk@) == Some(new.take(anchor as int)) {
            lemma_emit_insert(d0, new, base_chunk@, anchor as int, new.len() as int);
            assert(new.take(new.len() as int) == new);
        }
    }
}

/// Rolls the 15 bytes from `anchor` into `fp`.
fn refill(fp: u64, new_chunk: &[u8], anchor: usize) -> (r: u64)
    requires
        anchor + 15 <= new_chunk.len(),
    ensures
        r == roll_on(fp, new_chunk@.subrange(anchor as int, anchor + 15)),
{
    let ghost new = new_chunk@;
    let mut acc = fp;
    let mut k = anchor;
    assert(new.subrange(anchor as int, k as int) =~= Seq::<u8>::empty());
    while k < anchor + 15
        invariant
            anchor <= k <= anchor + 15,
            anchor + 15 <= new_chunk.len(),
            new == new_chunk@,
            acc == roll_on(fp, new.subrange(anchor as int, k as int)),
        decreases anchor + 15 - k,
    {
        proof {
            assert(new.subrange(anchor as int, k + 1).drop_last() =~= new.subrange(anchor as int, k as int));
        }
        acc = (acc << 4usize).wrapping_add(GEAR[new_chunk[k] as usize]);
        k = k + 1;
    }
    acc
}

/// Encodes `new_chunk` as a gdelta delta against `base_chunk`.
///
/// The encoder scans the 16-byte windows of `new_chunk`, looks each one up
/// in the window table of `base_chunk` by its word hash, and where the
/// bytes at the table's position match for at least 16 bytes it emits the
/// pending literal bytes as an insertion followed by a copy of the whole
/// match. What is left at the end is emitted as a final insertion.
///
/// The delta is the instruction sequence that `gdelta_ops` describes for
/// the window table of `base_chunk`; when the chunk lengths fit the format,
/// it decodes against `base_chunk` to `new_chunk` exactly.
#[verifier::rlimit(60)]
#[verifier::spinoff_prover]
pub fn encode_gdelta(new_chunk: &[u8], base_chunk: &[u8]) -> (delta: Vec<u8>)
    requires
        new_chunk.len() >= 16,
        base_chunk.len() >= 16,
    ensures
        forall|t: Map<u64, usize>|
            is_window_table(base_chunk@, t) ==> delta@ == gdelta_ops(
                new_chunk@,
                base_chunk@,
                t,
                log2_floor(base_chunk.len() as nat),
                0,
                0,
            ),
        fits_delta_format(new_chunk@, base_chunk@) ==> decode_delta(delta@, base_chunk@) == Some(
            new_chunk@,
        ),
{
    let ghost fits = fits_delta_format(new_chunk@, base_chunk@);
    let ghost new = new_chunk@;
    let ghost base = base_chunk@;
    let mut delta_code: Vec<u8> = Vec::new();
    let word_size: usize = 16;
    let move_bts: usize = 64 / word_size;
    let mask_bts: usize = floor_log2(base_chunk.len());
    proof {
        lemma_log2_at_least_4(base_chunk.len() as nat);
    }
    let hash_table = build_hash_table(base_chunk);
    let ghost table = hash_table@;
    let ghost bits = mask_bts as nat;
    let ghost all = gdelta_ops(new, base, table, bits, 0, 0);
    let mut anchor: usize = 0;
    let mut fp: u64 = 0;
    let mut j: usize = 0;
    while j < word_size - 1
        invariant
            0 <= j <= 15,
            word_size == 16,
            move_bts == 4,
            new_chunk.len() >= 16,
            new == new_chunk@,
            fp == roll_on(0, new.subrange(0, j as int)),
        decreases 15 - j,
    {
        proof {
            assert(new.subrange(0, j + 1).drop_last() =~= new.subrange(0, j as int));
        }
        fp = (fp << move_bts).wrapping_add(GEAR[new_chunk[j] as usize]);
        j = j + 1;
    }
    let ghost mut start_fp: u64 = 0;
    proof {
        assert(delta_code@ == Seq::<u8>::empty());
        assert(new.take(0) == Seq::<u8>::empty());
        assert(delta_code@ + all =~= all);
    }
    let mut j: usize = 0;
    while j < new_chunk.len() - word_size + 1
        invariant
            new == new_chunk@,
            base == base_chunk@,
            fits == fits_delta_format(new, base),
            word_size == 16,
            move_bts == 4,
            new_chunk.len() >= 16,
            base_chunk.len() >= 16,
            4 <= mask_bts < 64,
            bits == mask_bts,
            table == hash_table@,
            is_window_table(base, hash_table@),
            all == gdelta_ops(new, base, table, bits, 0, 0),
            anchor <= new.len(),
            j < new.len() - 15 ==> anchor <= j,
            j < new.len() - 15 ==> fp == roll_on(start_fp, new.subrange(j as int, j + 15)),
            delta_code@ + gdelta_ops(new, base, table, bits, j as int, anchor as int) == all,
            fits && j < new.len() - 15 ==> decode_delta(delta_code@, base) == Some(new.take(anchor as int)),
            fits && j >= new.len() - 15 ==> decode_delta(delta_code@, base) == Some(new),
        decreases new.len() + 1 - j,
    {
        let ghost d_top = delta_code@;
        let ghost j0 = j as int;
        let ghost a0 = anchor as int;
        proof {
            lemma_window_fp(start_fp, new, j0);
        }
        fp = (fp << move_bts).wrapping_add(GEAR[new_chunk[j + word_size - 1] as usize]);
        let word_hash: u64 = fp >> (64 - mask_bts);
        assert(word_hash == probe_hash(new, j0, bits));
        let mut matched = false;
        match hash_table.get(&word_hash) {
            Some(offset_ref) => {
                let offset: usize = *offset_ref;
                assert(hash_table@.contains_key(word_hash));
                let equal_part_len = common_run(base_chunk, offset, new_chunk, j);
                if equal_part_len >= word_size {
                    matched = true;
                    proof {
                        lemma_ops_match(new, base, table, bits, j0, a0, offset, equal_part_len as int);
                    }
                    emit_pending(&mut delta_code, new_chunk, base_chunk, anchor, j);
                    let ghost d1 = delta_code@;
                    push_copy(&mut delta_code, equal_part_len, offset);
                    proof {
                        if fits {
                            lemma_emit_copy(d1, new, base, j as int, equal_part_len, offset);
                        }
                    }
                    anchor = j + equal_part_len;
                    j = anchor - 1;
                    let ghost fp_before = fp;
                    if j < new_chunk.len() - word_size {
                        fp = refill(fp, new_chunk, anchor);
                    }
                    proof {
                        start_fp = fp_before;
                    }
                }
            },
            None => {},
        }
        if !matched {
            proof {
                start_fp = roll_on(start_fp, seq![new[j0]]);
                lemma_ops_skip(new, base, table, bits, j0, a0);
                assert(delta_code@ == d_top);
            }
        }
        let ghost d_mid = delta_code@;
        if j >= new_chunk.len() - word_size {
            emit_rest(&mut delta_code, new_chunk, base_chunk, anchor);
        }
        let ghost d_end = delta_code@;
        j = j + 1;
        proof {
            let rest = gdelta_ops(new, base, table, bits, j as int, anchor as int);
            assert(d_end + rest =~= d_top + gdelta_ops(new, base, table, bits, j0, a0));
        }
    }
    proof {
        lemma_ops_done(new, base, table, bits, j as int, anchor as int);
        assert(delta_code@ + Seq::<u8>::empty() =~= delta_code@);
        assert forall|t: Map<u64, usize>| is_window_table(base, t) implies delta_code@ == gdelta_ops(
            new,
            base,
            t,
            log2_floor(base_chunk.len() as nat),
            0,
            0,
        ) by {
            lemma_window_table_unique(base, table, t);
        }
    }
    delta_code
}

/// The bytes fed to the word-size-2 fingerprint by the time it hashes
/// position `i`: the first byte, then bytes 3 to `i + 1`.
pub open spec fn fp_table_fed(base: Seq<u8>, i: int) -> Seq<u8> {
    seq![base[0]] + base.subrange(3, i + 2)
}

/// The word hash that the word-size-2 fingerprint table records for
/// position `i`.
pub open spec fn fp_table_hash(base: Seq<u8>, i: int) -> u64 {
    gear_roll(fp_table_fed(base, i), 32) >> ((64 - log2_floor(base.len())) as usize)
}

/// `m` maps the word hash of every position from 2 to `len - 2` to the
/// last such position with that hash (as a `u32`), and holds nothing else.
pub open spec fn is_fp_table(base: Seq<u8>, m: Map<u64, u32>) -> bool {
    &&& forall|w: u64|
        #[trigger] m.contains_key(w) ==> exists|i: int|
            {
                &&& 2 <= i < base.len() - 1
                &&& #[trigger] fp_table_hash(base, i) == w
                &&& m[w] == i as u32
                &&& forall|t: int| i < t < base.len() - 1 ==> #[trigger] fp_table_hash(base, t) != w
            }
    &&& forall|i: int| 2 <= i < base.len() - 1 ==> m.contains_key(#[trigger] fp_table_hash(base, i))
}

/// A delta encoder for the Palantir pipeline.
pub trait PalantirEncoder {
    /// The chunk pairs that `encode` takes.
    spec fn accepts(new_chunk: Seq<u8>, base_chunk: Seq<u8>) -> bool;

    /// The base chunks that `generate_fp_table` takes.
    spec fn accepts_base(base_chunk: Seq<u8>) -> bool;

    /// Encodes `new_chunk` as a delta relative to `base_chunk`.
    fn encode(&self, new_chunk: &[u8], base_chunk: &[u8]) -> Vec<u8>
        requires
            Self::accepts(new_chunk@, base_chunk@),
    ;

    /// A table from word hashes of `base_chunk` to positions, if the
    /// encoder builds one.
    fn generate_fp_table(base_chunk: &[u8]) -> Option<HashMap<u64, u32>>
        requires
            Self::accepts_base(base_chunk@),
    ;
}

/// The gdelta encoder.
#[derive(Debug, Default)]
pub struct GdeltaEncoder;

impl GdeltaEncoder {
    /// A gdelta encoder.
    pub fn new() -> Self {
        GdeltaEncoder
    }
}

impl PalantirEncoder for GdeltaEncoder {
    open spec fn accepts(new_chunk: Seq<u8>, base_chunk: Seq<u8>) -> bool {
        new_chunk.len() >= 16 && base_chunk.len() >= 16
    }

    open spec fn accepts_base(base_chunk: Seq<u8>) -> bool {
        base_chunk.len() >= 2
    }

    /// The delta of [`encode_gdelta`].
    fn encode(&self, new_chunk: &[u8], base_chunk: &[u8]) -> (r: Vec<u8>)
        ensures
            forall|t: Map<u64, usize>|
                is_window_table(base_chunk@, t) ==> r@ == gdelta_ops(
                    new_chunk@,
                    base_chunk@,
                    t,
                    log2_floor(base_chunk.len() as nat),
                    0,
                    0,
                ),
            fits_delta_format(new_chunk@, base_chunk@) ==> decode_delta(r@, base_chunk@) == Some(
                new_chunk@,
            ),
    {
        encode_gdelta(new_chunk, base_chunk)
    }

    /// Maps the word hash of each position from 2 to `len - 2` of
    /// `base_chunk` to the last position with that hash, using a
    /// word-size-2 gear fingerprint. Always returns a table.
    fn generate_fp_table(base_chunk: &[u8]) -> (r: Option<HashMap<u64, u32>>)
        ensures
            r matches Some(m) && is_fp_table(base_chunk@, m@),
    {
        let word_size: usize = 2;
        let move_bts: usize = 64 / word_size;
        let mask_bts: usize = floor_log2(base_chunk.len());
        proof {
            reveal_with_fuel(log2_floor, 2);
            assert(base_chunk.len() / 2 >= 1);
        }
        let mut word_hash_offsets: HashMap<u64, u32> = HashMap::with_capacity(base_chunk.len());
        let mut fp: u64 = 0;
        let mut i: usize = 0;
        while i < word_size - 1
            invariant
                0 <= i <= 1,
                word_size == 2,
                move_bts == 32,
                base_chunk.len() >= 2,
                i == 0 ==> fp == 0,
                i == 1 ==> fp == gear_roll(seq![base_chunk@[0]], 32),
            decreases 1 - i,
        {
            proof {
                assert(seq![base_chunk@[0]].drop_last() == Seq::<u8>::empty());
                assert(0u64 << 32usize == 0) by (bit_vector);
            }
            fp = (fp << move_bts).wrapping_add(GEAR[base_chunk[i] as usize]);
            proof {
                let s1 = seq![base_chunk@[0]];
                assert(s1.last() == base_chunk@[0]);
                assert(gear_roll(s1.drop_last(), 32) == 0);
                assert(gear_roll(s1, 32) == u64_specs::wrapping_add(0u64 << 32usize, GEAR@[base_chunk@[0] as int]));
            }
            i = i + 1;
        }
        let ghost base = base_chunk@;
        proof {
            if base.len() >= 3 {
                assert(fp_table_fed(base, 1) =~= seq![base[0]]);
            }
        }
        let mut i: usize = word_size;
        while i < base_chunk.len() - word_size + 1
            invariant
                2 <= i <= base_chunk.len() - 1 || (i == 2 && base_chunk.len() == 2),
                base == base_chunk@,
                word_size == 2,
                move_bts == 32,
                base_chunk.len() >= 2,
                mask_bts == log2_floor(base.len()),
                1 <= mask_bts < 64,
                base.len() >= 3 ==> fp == gear_roll(fp_table_fed(base, i - 1), 32),
                forall|w: u64|
                    #[trigger] word_hash_offsets@.contains_key(w) ==> exists|p: int|
                        {
                            &&& 2 <= p < i
                            &&& #[trigger] fp_table_hash(base, p) == w
                            &&& word_hash_offsets@[w] == p as u32
                            &&& forall|t: int| p < t < i ==> #[trigger] fp_table_hash(base, t) != w
                        },
                forall|p: int| 2 <= p < i ==> word_hash_offsets@.contains_key(#[trigger] fp_table_hash(base, p)),
            decreases base_chunk.len() - i,
        {
            proof {
                let fed = fp_table_fed(base, i as int);
                assert(fed.drop_last() =~= fp_table_fed(base, i - 1));
                assert(fed.last() == base[i + 1]);
            }
            fp = (fp << move_bts).wrapping_add(GEAR[base_chunk[i + word_size - 1] as usize]);
            let word_hash: u64 = fp >> (64 - mask_bts);
            assert(word_hash == fp_table_hash(base, i as int));
            let ghost before = word_hash_offsets@;
            word_hash_offsets.insert(word_hash, #[verifier::truncate] (i as u32));
            proof {
                let m = word_hash_offsets@;
                assert forall|w: u64| #[trigger] m.contains_key(w) implies exists|p: int|
                    {
                        &&& 2 <= p < i + 1
                        &&& #[trigger] fp_table_hash(base, p) == w
                        &&& m[w] == p as u32
                        &&& forall|t: int| p < t < i + 1 ==> #[trigger] fp_table_hash(base, t) != w
                    } by {
                    if w == word_hash {
                        assert(fp_table_hash(base, i as int) == w);
                    } else {
                        assert(before.contains_key(w));
                        let p = choose|p: int|
                            {
                                &&& 2 <= p < i
                                &&& #[trigger] fp_table_hash(base, p) == w
                                &&& before[w] == p as u32
                                &&& forall|t: int| p < t < i ==> #[trigger] fp_table_hash(base, t) != w
                            };
                        assert(fp_table_hash(base, p) == w);
                    }
                }
            }
            i = i + 1;
        }
        proof {
            if base.len() == 2 {
                assert forall|w: u64| !word_hash_offsets@.contains_key(w) by {
                    if word_hash_offsets@.contains_key(w) {
                        let p = choose|p: int|
                            {
                                &&& 2 <= p < i
                                &&& #[trigger] fp_table_hash(base, p) == w
                                &&& word_hash_offsets@[w] == p as u32
                                &&& forall|t: int| p < t < i ==> #[trigger] fp_table_hash(base, t) != w
                            };
                    }
                }
            }
        }
        Some(word_hash_offsets)
    }
}

} // verus!
