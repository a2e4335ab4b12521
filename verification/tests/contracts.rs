//! Concrete cases of what the library promises: exact suffix arrays and
//! BWTs, the error variants, serial and parallel agreement, and round trips.

use sais_rs::{
    bwt, bwt_parallel, bwt_with_sa, suffix_array, suffix_array_into, suffix_array_parallel,
    suffix_array_parallel_into, suffix_array_with, unbwt, unbwt_parallel, unbwt_walk_ok, SaisError,
};

fn is_sorted_suffix_array(text: &[u8], sa: &[i32]) -> bool {
    let n = text.len();
    if sa.len() != n {
        return false;
    }
    let mut seen = vec![false; n];
    for &p in sa {
        if p < 0 || p as usize >= n || seen[p as usize] {
            return false;
        }
        seen[p as usize] = true;
    }
    sa.windows(2).all(|w| text[w[0] as usize..] < text[w[1] as usize..])
}

fn periodic(pattern: &[u8], repeats: usize) -> Vec<u8> {
    let mut out = Vec::with_capacity(pattern.len() * repeats);
    for _ in 0..repeats {
        out.extend_from_slice(pattern);
    }
    out
}

#[test]
fn banana_suffix_array_exact() {
    assert_eq!(suffix_array(b"banana").unwrap(), vec![5, 3, 1, 0, 4, 2]);
}

#[test]
fn mississippi_suffix_array_exact() {
    assert_eq!(
        suffix_array(b"mississippi").unwrap(),
        vec![10, 7, 4, 1, 0, 9, 8, 6, 3, 5, 2]
    );
}

#[test]
fn texts_without_lms_positions() {
    assert_eq!(suffix_array(b"abc").unwrap(), vec![0, 1, 2]);
    assert_eq!(suffix_array(b"cba").unwrap(), vec![2, 1, 0]);
    assert_eq!(suffix_array(b"aaa").unwrap(), vec![2, 1, 0]);
}

#[test]
fn wide_index_matches_narrow() {
    let text = b"abracadabra";
    let narrow = suffix_array(text).unwrap();
    let wide: Vec<i64> = suffix_array_with::<i64>(text).unwrap();
    assert_eq!(wide, narrow.iter().map(|&x| x as i64).collect::<Vec<i64>>());
}

#[test]
fn into_rejects_wrong_buffer_length() {
    let mut sa = vec![7i32; 3];
    assert_eq!(
        suffix_array_into(b"banana", &mut sa),
        Err(SaisError::BufferLen { expected: 6, got: 3 })
    );
    assert_eq!(sa, vec![7, 7, 7]);
    let mut sa = vec![0i32; 2];
    assert_eq!(
        suffix_array_parallel_into(b"a", &mut sa, 2),
        Err(SaisError::BufferLen { expected: 1, got: 2 })
    );
}

#[test]
fn into_fills_buffer() {
    let mut sa = vec![0i32; 6];
    assert_eq!(suffix_array_into(b"banana", &mut sa), Ok(()));
    assert_eq!(sa, vec![5, 3, 1, 0, 4, 2]);
    let mut sa = vec![0i64; 6];
    assert_eq!(suffix_array_parallel_into(b"banana", &mut sa, 3), Ok(()));
    assert_eq!(sa, vec![5, 3, 1, 0, 4, 2]);
}

#[test]
fn parallel_matches_serial_on_periodic_text() {
    // Long runs of non-empty slots whose ends still hold LMS entries when the
    // S-pass reaches them.
    let text = periodic(b"baab", 4096);
    let serial = suffix_array(&text).unwrap();
    assert!(serial.iter().all(|&p| p >= 0));
    for threads in [0usize, 1, 2, 4] {
        assert_eq!(suffix_array_parallel(&text, threads).unwrap(), serial);
    }
}

#[test]
fn parallel_matches_serial_on_structured_texts() {
    let inputs = [
        periodic(b"ab", 20000),
        periodic(b"aab", 9000),
        periodic(b"\x00\x01\x02", 7000),
        periodic(b"mississippi", 3000),
    ];
    for text in inputs.iter() {
        let serial = suffix_array(text).unwrap();
        assert!(is_sorted_suffix_array(text, &serial));
        assert_eq!(suffix_array_parallel(text, 0).unwrap(), serial);
        assert_eq!(suffix_array_parallel(text, 3).unwrap(), serial);
    }
}

#[test]
fn banana_bwt_exact() {
    assert_eq!(bwt(b"banana").unwrap(), (b"annbaa".to_vec(), 4));
    assert_eq!(bwt_parallel(b"banana", 2).unwrap(), (b"annbaa".to_vec(), 4));
}

#[test]
fn bwt_shape() {
    let text = b"abracadabra";
    let (b, p) = bwt(text).unwrap();
    assert_eq!(b.len(), text.len());
    assert_eq!(b[0], text[text.len() - 1]);
    assert!(1 <= p && p as usize <= text.len());
    assert_eq!(bwt(b"").unwrap(), (Vec::new(), 0));
    assert_eq!(bwt(b"z").unwrap(), (b"z".to_vec(), 1));
}

#[test]
fn bwt_with_sa_fills_scratch() {
    let mut scratch = vec![0i32; 6];
    let (b, p) = bwt_with_sa(b"banana", &mut scratch).unwrap();
    assert_eq!((b, p), (b"annbaa".to_vec(), 4));
    assert_eq!(scratch, vec![5, 3, 1, 0, 4, 2]);
    let mut scratch = vec![0i64; 1];
    assert_eq!(bwt_with_sa(b"q", &mut scratch).unwrap(), (b"q".to_vec(), 1));
    let mut empty: Vec<i32> = Vec::new();
    assert_eq!(bwt_with_sa(b"", &mut empty).unwrap(), (Vec::new(), 0));
}

#[test]
fn bwt_with_sa_rejects_wrong_buffer_length() {
    let mut scratch = vec![1i32; 4];
    assert_eq!(
        bwt_with_sa(b"banana", &mut scratch),
        Err(SaisError::BufferLen { expected: 6, got: 4 })
    );
    assert_eq!(scratch, vec![1, 1, 1, 1]);
}

#[test]
fn bwt_parallel_matches_serial() {
    let text = periodic(b"acgtacgga", 5000);
    assert_eq!(bwt_parallel(&text, 0).unwrap(), bwt(&text).unwrap());
    assert_eq!(bwt_parallel(&text, 4).unwrap(), bwt(&text).unwrap());
}

#[test]
fn unbwt_banana_exact() {
    assert_eq!(unbwt(b"annbaa", 4).unwrap(), b"banana".to_vec());
    assert_eq!(unbwt_parallel(b"annbaa", 4, 3).unwrap(), b"banana".to_vec());
}

#[test]
fn unbwt_small_inputs() {
    assert_eq!(unbwt(b"", 0).unwrap(), Vec::<u8>::new());
    assert_eq!(unbwt(b"", 5).unwrap(), Vec::<u8>::new());
    assert_eq!(unbwt(b"x", 1).unwrap(), b"x".to_vec());
}

#[test]
fn unbwt_primary_out_of_range() {
    assert_eq!(
        unbwt(b"annbaa", 0),
        Err(SaisError::InvalidPrimaryIndex { primary: 0, len: 6 })
    );
    assert_eq!(
        unbwt(b"annbaa", 7),
        Err(SaisError::InvalidPrimaryIndex { primary: 7, len: 6 })
    );
    assert_eq!(
        unbwt(b"x", -3),
        Err(SaisError::InvalidPrimaryIndex { primary: -3, len: 1 })
    );
}

#[test]
fn round_trip_structured_texts() {
    let inputs: Vec<Vec<u8>> = vec![
        b"a".to_vec(),
        b"ab".to_vec(),
        b"ba".to_vec(),
        b"aaaa".to_vec(),
        b"abcabcabc".to_vec(),
        periodic(b"baab", 4096),
        periodic(b"\xff\x00", 100),
    ];
    for text in inputs.iter() {
        let (b, p) = bwt(text).unwrap();
        assert_eq!(&unbwt(&b, p).unwrap(), text);
    }
}

#[test]
fn lms_substrings_differing_at_their_closing_symbol() {
    // "aca" and "acb" agree up to the LMS position that closes them.
    let text = b"dacadacbc";
    assert_eq!(suffix_array(text).unwrap(), vec![1, 5, 3, 7, 8, 2, 6, 0, 4]);
    assert_eq!(suffix_array_parallel(text, 2).unwrap(), vec![1, 5, 3, 7, 8, 2, 6, 0, 4]);
    let (b, p) = bwt(text).unwrap();
    assert_eq!((b.clone(), p), (b"cddccbaaa".to_vec(), 8));
    assert_eq!(unbwt(&b, p).unwrap(), text.to_vec());
}

#[test]
fn distinct_texts_have_distinct_bwts() {
    let texts: Vec<&[u8]> = vec![b"abab", b"baba", b"aab", b"aba", b"baa", b"a", b"b"];
    let outs: Vec<(Vec<u8>, i32)> = texts.iter().map(|t| bwt(t).unwrap()).collect();
    for i in 0..outs.len() {
        for j in 0..outs.len() {
            if i != j {
                assert_ne!(outs[i], outs[j]);
            }
        }
    }
}

#[test]
fn unbwt_walk_ok_tells_readable_inputs() {
    assert!(unbwt_walk_ok(b"annbaa", 4));
    assert!(unbwt_walk_ok(b"aa", 2));
    assert!(!unbwt_walk_ok(b"aa", 1));
    assert!(!unbwt_walk_ok(b"ab", 1));
    assert!(unbwt_walk_ok(b"", 0));
    assert!(unbwt_walk_ok(b"x", 1));
    // Out of range: refused by `unbwt` with an error, not by the walk.
    assert!(unbwt_walk_ok(b"annbaa", 9));
    let (b, p) = bwt(b"mississippi").unwrap();
    assert!(unbwt_walk_ok(&b, p));
}
