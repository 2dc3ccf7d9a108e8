use marline::palantir::encoder::{encode_gdelta, floor_log2, GdeltaEncoder, PalantirEncoder};

/// Applies a delta to `base`, following the instruction format.
fn decode(delta: &[u8], base: &[u8]) -> Vec<u8> {
    let mut out = Vec::new();
    let mut i = 0;
    while i < delta.len() {
        let b0 = delta[i] as usize;
        let b1 = delta[i + 1] as usize;
        let b2 = delta[i + 2] as usize;
        if b2 & 0x80 != 0 {
            let len = b0 | (b1 << 8) | ((b2 & 0x7f) << 16);
            out.extend_from_slice(&delta[i + 3..i + 3 + len]);
            i += 3 + len;
        } else {
            let len = b0 | (b1 << 8) | (b2 << 16);
            let off = delta[i + 3] as usize | (delta[i + 4] as usize) << 8 | (delta[i + 5] as usize) << 16;
            out.extend_from_slice(&base[off..off + len]);
            i += 6;
        }
    }
    out
}

fn pseudo_random(n: usize, seed: u64) -> Vec<u8> {
    let mut x = seed;
    (0..n)
        .map(|_| {
            x = x.wrapping_mul(6364136223846793005).wrapping_add(1442695040888963407);
            (x >> 33) as u8
        })
        .collect()
}

#[test]
fn floor_log2_values() {
    assert_eq!(floor_log2(1), 0);
    assert_eq!(floor_log2(2), 1);
    assert_eq!(floor_log2(16), 4);
    assert_eq!(floor_log2(17), 4);
    assert_eq!(floor_log2(1024), 10);
    assert_eq!(floor_log2(1025), 10);
}

#[test]
fn identical_chunks_encode_to_a_short_delta() {
    let base = pseudo_random(256, 7);
    let delta = encode_gdelta(&base, &base);
    assert_eq!(decode(&delta, &base), base);
    assert!(delta.len() < base.len());
}

#[test]
fn unrelated_chunks_encode_as_one_insertion() {
    let base = vec![0u8; 64];
    let new: Vec<u8> = (1..=40u8).collect();
    let delta = encode_gdelta(&new, &base);
    let mut expected = vec![40, 0, 0x80];
    expected.extend_from_slice(&new);
    assert_eq!(delta, expected);
    assert_eq!(decode(&delta, &base), new);
}

#[test]
fn edited_chunk_round_trips() {
    let base = pseudo_random(4096, 11);
    let mut new = base.clone();
    for i in (100..4000).step_by(500) {
        new[i] ^= 0xff;
    }
    new.splice(2000..2000, pseudo_random(37, 3));
    let delta = GdeltaEncoder::new().encode(&new, &base);
    assert_eq!(decode(&delta, &base), new);
    assert!(delta.len() < new.len());
}

#[test]
fn fp_table_maps_hashes_to_positions() {
    let base = pseudo_random(512, 5);
    let table = GdeltaEncoder::generate_fp_table(&base).unwrap();
    assert!(!table.is_empty());
    for (_, &pos) in table.iter() {
        assert!(pos >= 2 && (pos as usize) < base.len() - 1);
    }
    let small = GdeltaEncoder::generate_fp_table(&[1, 2]).unwrap();
    assert!(small.is_empty());
}
