use divsufsort_rs::utils::inverse_bw_transform;
use divsufsort_rs::{divbwt, divsufsort, sufcheck};

#[test]
fn test_divsufsort_empty() {
    let t: &[u8] = b"";
    let mut sa: Vec<i32> = vec![];
    assert!(divsufsort(t, &mut sa).is_ok());
}

#[test]
fn test_divsufsort_single() {
    let t = b"a";
    let mut sa = vec![0i32; 1];
    divsufsort(t, &mut sa).unwrap();
    assert_eq!(sa, vec![0]);
}

#[test]
fn test_divsufsort_two_chars_sorted() {
    let t = b"ab";
    let mut sa = vec![0i32; 2];
    divsufsort(t, &mut sa).unwrap();
    assert_eq!(sa, vec![0, 1]);
}

#[test]
fn test_divsufsort_two_chars_reverse() {
    let t = b"ba";
    let mut sa = vec![0i32; 2];
    divsufsort(t, &mut sa).unwrap();
    assert_eq!(sa, vec![1, 0]);
}

#[test]
fn test_divsufsort_banana() {
    let t = b"banana";
    let mut sa = vec![0i32; t.len()];
    divsufsort(t, &mut sa).unwrap();
    assert_eq!(sa, vec![5, 3, 1, 0, 4, 2]);
}

#[test]
fn test_divsufsort_mississippi() {
    let t = b"mississippi";
    let mut sa = vec![0i32; t.len()];
    divsufsort(t, &mut sa).unwrap();
    assert_eq!(sa, vec![10, 7, 4, 1, 0, 9, 8, 6, 3, 5, 2]);
}

#[test]
fn test_divsufsort_sufcheck_banana() {
    let t = b"banana";
    let mut sa = vec![0i32; t.len()];
    divsufsort(t, &mut sa).unwrap();
    sufcheck(t, &sa, false).unwrap();
}

#[test]
fn test_divsufsort_sufcheck_mississippi() {
    let t = b"mississippi";
    let mut sa = vec![0i32; t.len()];
    divsufsort(t, &mut sa).unwrap();
    sufcheck(t, &sa, false).unwrap();
}

#[test]
fn test_divsufsort_sufcheck_abracadabra() {
    let t = b"abracadabra";
    let mut sa = vec![0i32; t.len()];
    divsufsort(t, &mut sa).unwrap();
    sufcheck(t, &sa, false).unwrap();
}

#[test]
fn test_divsufsort_all_same() {
    let t = b"aaaa";
    let mut sa = vec![0i32; t.len()];
    divsufsort(t, &mut sa).unwrap();
    sufcheck(t, &sa, false).unwrap();
}

#[test]
fn test_divbwt_banana() {
    let t = b"banana";
    let mut u = vec![0u8; t.len()];
    let pidx = divbwt(t, &mut u, None).unwrap();
    assert_eq!(&u, b"annbaa");
    assert_eq!(pidx, 4);
}

#[test]
fn test_divbwt_roundtrip() {
    let t = b"mississippi";
    let mut bwt = vec![0u8; t.len()];
    let pidx = divbwt(t, &mut bwt, None).unwrap();
    let mut restored = vec![0u8; t.len()];
    inverse_bw_transform(&bwt, &mut restored, None, pidx).unwrap();
    assert_eq!(restored, t.to_vec());
}
