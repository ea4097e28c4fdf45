use std::collections::HashSet;

use holt::simd::{find_byte, find_next_nonzero_byte, find_next_nonzero_u16, longest_common_prefix, node16_find_byte};

fn node16_find_byte_scalar(keys: &[u8; 16], count: u8, byte: u8) -> Option<u8> {
    keys.iter().take(count as usize).position(|k| *k == byte).map(|i| i as u8)
}

// ---- node16_find_byte ----

#[test]
fn find_byte_at_index_zero() {
    let mut keys = [0u8; 16];
    keys[0] = 0x42;
    assert_eq!(node16_find_byte(&keys, 1, 0x42), Some(0));
}

#[test]
fn find_byte_at_last_valid_index() {
    let mut keys = [0u8; 16];
    keys[15] = 0xAB;
    assert_eq!(node16_find_byte(&keys, 16, 0xAB), Some(15));
}

#[test]
fn find_byte_middle() {
    let mut keys = [0u8; 16];
    for (i, slot) in keys.iter_mut().enumerate().take(10) {
        *slot = b'a' + i as u8;
    }
    assert_eq!(node16_find_byte(&keys, 10, b'f'), Some(5));
}

#[test]
fn find_byte_absent_returns_none() {
    let mut keys = [0u8; 16];
    for (i, slot) in keys.iter_mut().enumerate().take(8) {
        *slot = b'a' + i as u8;
    }
    assert_eq!(node16_find_byte(&keys, 8, b'z'), None);
}

#[test]
fn find_byte_count_zero_returns_none() {
    let keys = [0xAB; 16];
    assert_eq!(node16_find_byte(&keys, 0, 0xAB), None);
}

#[test]
fn find_byte_ignores_unused_tail() {
    // count=4, but byte present at index 10 - must NOT find it.
    let mut keys = [0u8; 16];
    keys[10] = 0x77;
    assert_eq!(node16_find_byte(&keys, 4, 0x77), None);
}

#[test]
fn find_byte_first_of_duplicates() {
    // If a byte appears twice (shouldn't happen in valid Node16
    // but the routine is defined to return the first), index 3
    // wins over index 7.
    let mut keys = [0u8; 16];
    keys[3] = 0x55;
    keys[7] = 0x55;
    assert_eq!(node16_find_byte(&keys, 16, 0x55), Some(3));
}

#[test]
fn find_byte_matches_scalar_random() {
    // Generate pseudo-random Node16 contents and random queries;
    // every search must agree with a plain one.
    let mut state: u64 = 0xDEAD_BEEF_CAFE_BABE;
    let next = |s: &mut u64| -> u8 {
        *s = s
            .wrapping_mul(6_364_136_223_846_793_005)
            .wrapping_add(1_442_695_040_888_963_407);
        (*s >> 33) as u8
    };
    for _ in 0..1000 {
        let count = next(&mut state) % 17; // 0..=16
        let mut keys = [0u8; 16];
        let mut used = HashSet::new();
        for k in keys.iter_mut().take(count as usize) {
            loop {
                let b = next(&mut state);
                if used.insert(b) {
                    *k = b;
                    break;
                }
            }
        }
        let query = next(&mut state);
        let got = node16_find_byte(&keys, count, query);
        let expected = node16_find_byte_scalar(&keys, count, query);
        assert_eq!(
            got, expected,
            "mismatch on keys={keys:?} count={count} q={query}"
        );
    }
}

// ---- longest_common_prefix ----

#[test]
fn lcp_empty_inputs() {
    assert_eq!(longest_common_prefix(b"", b""), 0);
    assert_eq!(longest_common_prefix(b"abc", b""), 0);
    assert_eq!(longest_common_prefix(b"", b"abc"), 0);
}

#[test]
fn lcp_identical() {
    assert_eq!(longest_common_prefix(b"hello", b"hello"), 5);
}

#[test]
fn lcp_strict_prefix() {
    assert_eq!(longest_common_prefix(b"abc", b"abcdef"), 3);
    assert_eq!(longest_common_prefix(b"abcdef", b"abc"), 3);
}

#[test]
fn lcp_no_common() {
    assert_eq!(longest_common_prefix(b"abc", b"xyz"), 0);
}

#[test]
fn lcp_divergence_at_boundary() {
    // Crosses the 16-byte boundary.
    let a = b"0123456789ABCDEFhello"; // 21 bytes
    let b = b"0123456789ABCDEFworld"; // 21 bytes
    assert_eq!(longest_common_prefix(a, b), 16);
}

#[test]
fn lcp_long_match_then_diverge_in_chunk() {
    // 32 byte common prefix, then diverge at byte 35.
    let a = b"aaaaaaaaaaaaaaaaaaaaaaaaaaaaaaaaaaa01"; // 37 bytes
    let b = b"aaaaaaaaaaaaaaaaaaaaaaaaaaaaaaaaaaa99"; // 37 bytes
    assert_eq!(longest_common_prefix(a, b), 35);
}

#[test]
fn lcp_match_then_diverge_at_byte_15() {
    // Diverge just before the 16-byte boundary.
    let a = b"aaaaaaaaaaaaaaaXrest";
    let b = b"aaaaaaaaaaaaaaaYrest";
    assert_eq!(longest_common_prefix(a, b), 15);
}

#[test]
fn lcp_match_then_diverge_at_byte_16() {
    // Diverge at the boundary.
    let a = b"aaaaaaaaaaaaaaaaXrest";
    let b = b"aaaaaaaaaaaaaaaaYrest";
    assert_eq!(longest_common_prefix(a, b), 16);
}

// ---- find_byte ----

fn scalar_find_byte(bytes: &[u8], needle: u8, start: usize) -> Option<usize> {
    bytes
        .iter()
        .enumerate()
        .skip(start)
        .find(|(_, b)| **b == needle)
        .map(|(i, _)| i)
}

#[test]
fn find_byte_respects_start_and_boundaries() {
    let mut bytes = [b'a'; 96];
    for pos in [0usize, 1, 15, 16, 17, 31, 32, 63, 64, 95] {
        bytes.fill(b'a');
        bytes[pos] = b'/';
        assert_eq!(find_byte(&bytes, b'/', 0), Some(pos), "pos={pos}");
        assert_eq!(find_byte(&bytes, b'/', pos), Some(pos), "pos={pos}");
        if pos + 1 < bytes.len() {
            assert_eq!(find_byte(&bytes, b'/', pos + 1), None, "pos={pos}");
        }
    }
}

#[test]
fn find_byte_random_matches_scalar() {
    let mut state: u64 = 0xA11C_E55E_D15C_0DED;
    let step = |s: &mut u64| -> u8 {
        *s = s
            .wrapping_mul(6_364_136_223_846_793_005)
            .wrapping_add(1_442_695_040_888_963_407);
        (*s >> 33) as u8
    };
    for len in [0usize, 1, 3, 15, 16, 17, 31, 32, 33, 127, 255] {
        let mut bytes = vec![0u8; len];
        for b in &mut bytes {
            *b = step(&mut state);
        }
        for _ in 0..32 {
            let needle = step(&mut state);
            let start = if len == 0 {
                0
            } else {
                (step(&mut state) as usize) % (len + 1)
            };
            assert_eq!(
                find_byte(&bytes, needle, start),
                scalar_find_byte(&bytes, needle, start),
                "len={len} start={start} needle={needle}",
            );
        }
    }
}

// ---- find_next_nonzero_byte ----

fn scalar_next_nonzero_byte(bytes: &[u8], start: usize) -> Option<usize> {
    bytes
        .iter()
        .enumerate()
        .skip(start)
        .find(|(_, b)| **b != 0)
        .map(|(i, _)| i)
}

#[test]
fn find_next_nonzero_byte_empty() {
    let bytes = [0u8; 256];
    assert_eq!(find_next_nonzero_byte(&bytes, 0), None);
    assert_eq!(find_next_nonzero_byte(&bytes, 100), None);
    assert_eq!(find_next_nonzero_byte(&bytes, 256), None);
}

#[test]
fn find_next_nonzero_byte_at_chunk_boundaries() {
    for pos in [0usize, 1, 15, 16, 17, 31, 32, 240, 254, 255] {
        let mut bytes = [0u8; 256];
        bytes[pos] = 0xAB;
        assert_eq!(find_next_nonzero_byte(&bytes, 0), Some(pos), "pos={pos}");
        assert_eq!(find_next_nonzero_byte(&bytes, pos), Some(pos), "pos={pos}");
        if pos + 1 < 256 {
            assert_eq!(find_next_nonzero_byte(&bytes, pos + 1), None, "pos+1={pos}");
        }
    }
}

#[test]
fn find_next_nonzero_byte_random_matches_scalar() {
    let mut state: u64 = 0xCAFE_F00D_1234_5678;
    let step = |s: &mut u64| -> u8 {
        *s = s
            .wrapping_mul(6_364_136_223_846_793_005)
            .wrapping_add(1_442_695_040_888_963_407);
        (*s >> 33) as u8
    };
    for _ in 0..500 {
        let mut bytes = [0u8; 256];
        // Sparse: ~5% non-zero.
        for b in &mut bytes {
            if step(&mut state) < 13 {
                *b = step(&mut state).max(1);
            }
        }
        let start = (step(&mut state) as usize) % 257;
        assert_eq!(
            find_next_nonzero_byte(&bytes, start),
            scalar_next_nonzero_byte(&bytes, start),
            "start={start}",
        );
    }
}

// ---- find_next_nonzero_u16 ----

fn scalar_next_nonzero_u16(words: &[u16], start: usize) -> Option<usize> {
    (start..words.len()).find(|&i| words[i] != 0)
}

#[test]
fn find_next_nonzero_u16_matches_scalar() {
    let mut state: u64 = 0x1357_9BDF_2468_ACE0;
    let step = |s: &mut u64| -> u32 {
        *s = s
            .wrapping_mul(6_364_136_223_846_793_005)
            .wrapping_add(1_442_695_040_888_963_407);
        (*s >> 32) as u32
    };
    // The arrays of inner nodes, from every start offset.
    for &len in &[4usize, 16, 48, 256] {
        for _ in 0..300 {
            let mut words = vec![0u16; len];
            for w in &mut words {
                if step(&mut state).trailing_zeros() >= 3 {
                    *w = (step(&mut state) as u16).max(1);
                }
            }
            for start in 0..=len {
                assert_eq!(
                    find_next_nonzero_u16(&words, start),
                    scalar_next_nonzero_u16(&words, start),
                    "len={len} start={start}",
                );
            }
        }
    }
}
