//! unBWT round-trips: `bwt(t) -> unbwt -> t`, and the inverse applied to a
//! BWT built independently from directly sorted suffixes.

use sais_rs::{bwt, unbwt};

fn reference_bwt(text: &[u8]) -> (Vec<u8>, i32) {
    let n = text.len();
    if n == 0 {
        return (Vec::new(), 0);
    }
    let mut sa: Vec<usize> = (0..n).collect();
    sa.sort_by(|&a, &b| text[a..].cmp(&text[b..]));
    let p0 = sa.iter().position(|&s| s == 0).unwrap();
    let mut out = vec![text[n - 1]];
    for (i, &s) in sa.iter().enumerate() {
        if i != p0 {
            out.push(text[s - 1]);
        }
    }
    (out, (p0 + 1) as i32)
}

fn check(text: &[u8]) {
    let (b, p) = bwt(text).expect("bwt");
    let recovered = unbwt(&b, p).expect("unbwt");
    assert_eq!(recovered, text, "round-trip mismatch on len={}", text.len());
    let (rb, rp) = reference_bwt(text);
    let recovered_ref = unbwt(&rb, rp).expect("unbwt on reference bwt");
    assert_eq!(recovered_ref, text, "unbwt rejected the reference BWT on len={}", text.len());
}

fn random_bytes(seed: u64, n: usize) -> Vec<u8> {
    let mut state = seed.wrapping_mul(0x9E37_79B9_7F4A_7C15) ^ 0xDEAD_BEEF_CAFE_BABE;
    let mut out = Vec::with_capacity(n);
    while out.len() < n {
        state = state.wrapping_add(0x9E37_79B9_7F4A_7C15);
        let mut z = state;
        z = (z ^ (z >> 30)).wrapping_mul(0xBF58_476D_1CE4_E5B9);
        z = (z ^ (z >> 27)).wrapping_mul(0x94D0_49BB_1331_11EB);
        z ^= z >> 31;
        out.extend_from_slice(&z.to_le_bytes());
    }
    out.truncate(n);
    out
}

#[test]
fn unbwt_roundtrip_empty() {
    check(b"");
}

#[test]
fn unbwt_roundtrip_single_byte() {
    check(b"a");
}

#[test]
fn unbwt_roundtrip_banana() {
    check(b"banana");
}

#[test]
fn unbwt_roundtrip_abracadabra() {
    check(b"abracadabra");
}

#[test]
fn unbwt_roundtrip_mississippi() {
    check(b"mississippi");
}

#[test]
fn unbwt_roundtrip_alpha_smoke_with_nul() {
    check(b"banana\0abracadabra\0mississippi");
}

#[test]
fn unbwt_roundtrip_all_same_64() {
    check(&[b'A'; 64]);
}

#[test]
fn unbwt_roundtrip_random_binary_64k() {
    check(&random_bytes(0xCAFE_F00D, 64 * 1024));
}

#[test]
fn unbwt_roundtrip_random_dna_1mb() {
    let bytes = random_bytes(0xFEED_BEEF, 1024 * 1024);
    let dna: Vec<u8> = bytes.iter().map(|b| b"ACGT"[(*b as usize) % 4]).collect();
    check(&dna);
}

#[test]
fn invalid_primary_index_errors() {
    // primary out of range -> SaisError, not panic
    let result = unbwt(b"abc", 99);
    assert!(result.is_err());
}
