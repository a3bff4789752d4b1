use divsufsort_rs::certify::certify_suffix_array;
use divsufsort_rs::sssort::{ss_heapsort, ss_insertionsort_impl, ss_isqrt};
use divsufsort_rs::trsort::{tr_heapsort, tr_insertionsort};
use divsufsort_rs::utils::binarysearch_lower;
use divsufsort_rs::{
    bw_transform, divbwt, divsufsort, inverse_bw_transform, sa_search, sa_simplesearch, sufcheck,
    DivSufSortError,
};

#[test]
fn test_divsufsort_length_mismatch() {
    let mut sa = vec![7i32; 3];
    assert_eq!(divsufsort(b"banana", &mut sa), Err(DivSufSortError::InvalidArgument));
    assert_eq!(sa, vec![7, 7, 7]);
}

#[test]
fn test_divsufsort_abab() {
    let mut sa = vec![0i32; 4];
    divsufsort(b"abab", &mut sa).unwrap();
    assert_eq!(sa, vec![2, 0, 3, 1]);
}

#[test]
fn test_divbwt_empty() {
    let mut u: Vec<u8> = vec![];
    assert_eq!(divbwt(b"", &mut u, None), Ok(0));
}

#[test]
fn test_divbwt_single() {
    let mut u = vec![0u8; 1];
    assert_eq!(divbwt(b"x", &mut u, None), Ok(1));
    assert_eq!(u, b"x".to_vec());
}

#[test]
fn test_divbwt_short_scratch() {
    let mut u = vec![0u8; 6];
    let mut a = vec![0i32; 3];
    assert_eq!(divbwt(b"banana", &mut u, Some(&mut a)), Err(DivSufSortError::InvalidArgument));
}

#[test]
fn test_divbwt_with_scratch() {
    let mut u = vec![0u8; 6];
    let mut a = vec![0i32; 6];
    assert_eq!(divbwt(b"banana", &mut u, Some(&mut a)), Ok(4));
    assert_eq!(&u, b"annbaa");
}

#[test]
fn test_divbwt_agrees_with_bw_transform() {
    for t in [&b"mississippi"[..], b"abracadabra", b"aaaaab", b"zyxwvu", b"abab"] {
        let mut sa = vec![0i32; t.len()];
        divsufsort(t, &mut sa).unwrap();
        let mut u1 = vec![0u8; t.len()];
        let mut idx = 0i32;
        bw_transform(t, &mut u1, Some(&mut sa), &mut idx).unwrap();
        let mut u2 = vec![0u8; t.len()];
        let p = divbwt(t, &mut u2, None).unwrap();
        assert_eq!(u1, u2);
        assert_eq!(idx, p);
    }
}

#[test]
fn test_bw_transform_empty_and_single() {
    let mut idx = 9i32;
    let mut u: Vec<u8> = vec![];
    bw_transform(b"", &mut u, None, &mut idx).unwrap();
    assert_eq!(idx, 0);
    let mut u = vec![0u8; 1];
    bw_transform(b"q", &mut u, None, &mut idx).unwrap();
    assert_eq!(idx, 1);
    assert_eq!(u, b"q".to_vec());
}

#[test]
fn test_inverse_bad_index() {
    let mut u = vec![5u8; 6];
    assert_eq!(inverse_bw_transform(b"annbaa", &mut u, None, 0), Err(DivSufSortError::InvalidArgument));
    assert_eq!(inverse_bw_transform(b"annbaa", &mut u, None, 7), Err(DivSufSortError::InvalidArgument));
    assert_eq!(inverse_bw_transform(b"annbaa", &mut u, None, -1), Err(DivSufSortError::InvalidArgument));
    assert_eq!(u, vec![5u8; 6]);
}

#[test]
fn test_inverse_short_scratch() {
    let mut u = vec![0u8; 6];
    let mut a = vec![0i32; 2];
    assert_eq!(
        inverse_bw_transform(b"annbaa", &mut u, Some(&mut a), 4),
        Err(DivSufSortError::InvalidArgument)
    );
}

#[test]
fn test_inverse_with_scratch_and_longer_output() {
    let mut u = vec![7u8; 8];
    let mut a = vec![0i32; 6];
    inverse_bw_transform(b"annbaa", &mut u, Some(&mut a), 4).unwrap();
    assert_eq!(&u[..6], b"banana");
    assert_eq!(&u[6..], &[7u8, 7]);
}

#[test]
fn test_inverse_empty_and_single() {
    let mut u: Vec<u8> = vec![];
    assert_eq!(inverse_bw_transform(b"", &mut u, None, 0), Ok(()));
    let mut u = vec![0u8; 1];
    assert_eq!(inverse_bw_transform(b"z", &mut u, None, 1), Ok(()));
    assert_eq!(u, b"z".to_vec());
}

#[test]
fn test_inverse_of_transform_mississippi() {
    let t = b"mississippi";
    let mut u = vec![0u8; t.len()];
    let p = divbwt(t, &mut u, None).unwrap();
    let mut back = vec![0u8; t.len()];
    inverse_bw_transform(&u, &mut back, None, p).unwrap();
    assert_eq!(&back, t);
}

#[test]
fn test_sa_search_exact_banana() {
    let sa = [5i32, 3, 1, 0, 4, 2];
    assert_eq!(sa_search(b"banana", b"ana", &sa), (2, 1));
    assert_eq!(sa_search(b"banana", b"na", &sa), (2, 4));
    assert_eq!(sa_search(b"banana", b"a", &sa), (3, 0));
    assert_eq!(sa_search(b"banana", b"banana", &sa), (1, 3));
    assert_eq!(sa_search(b"banana", b"bananas", &sa).0, 0);
    assert_eq!(sa_search(b"banana", b"nab", &sa).0, 0);
    assert_eq!(sa_search(b"banana", b"", &sa), (6, 0));
}

#[test]
fn test_sa_search_empty_text() {
    assert_eq!(sa_search(b"", b"a", &[]), (0, -1));
}

#[test]
fn test_sa_simplesearch_exact_banana() {
    let sa = [5i32, 3, 1, 0, 4, 2];
    assert_eq!(sa_simplesearch(b"banana", &sa, b'n'), (2, 4));
    assert_eq!(sa_simplesearch(b"banana", &sa, b'b'), (1, 3));
    assert_eq!(sa_simplesearch(b"banana", &sa, b'a'), (3, 0));
    assert_eq!(sa_simplesearch(b"banana", &sa, b'z').0, 0);
    assert_eq!(sa_simplesearch(b"", &[], b'a'), (0, -1));
}

#[test]
fn test_sufcheck_accepts_abab() {
    assert_eq!(sufcheck(b"abab", &[2, 0, 3, 1], false), Ok(()));
}

#[test]
fn test_sufcheck_rejects_bucket_order() {
    // sorted by first byte, but "abab" does not come before "ab"
    assert!(sufcheck(b"abab", &[0, 2, 3, 1], false).is_err());
}

#[test]
fn test_sufcheck_rejects_repeated_entry() {
    assert!(sufcheck(b"abab", &[2, 2, 3, 1], false).is_err());
}

#[test]
fn test_sufcheck_length_message() {
    let e = sufcheck(b"ab", &[0], false).unwrap_err();
    assert_eq!(e.message, "SA length 1 != T length 2");
}

#[test]
fn test_sufcheck_range_message() {
    let e = sufcheck(b"ab", &[0, 5], false).unwrap_err();
    assert_eq!(e.message, "Out of the range [0,1]. SA[1]=5");
}

#[test]
fn test_sufcheck_order_message() {
    let e = sufcheck(b"ba", &[0, 1], false).unwrap_err();
    assert_eq!(e.message, "Suffixes in wrong order. T[SA[0]=0]=98 > T[SA[1]=1]=97");
}

#[test]
fn test_sufcheck_position_message() {
    let e = sufcheck(b"abab", &[2, 2, 3, 1], false).unwrap_err();
    assert_eq!(e.message, "Suffix in wrong position. SA[-1]=-1 or SA[1]=2");
}

#[test]
fn test_error_messages() {
    assert_eq!(DivSufSortError::InvalidArgument.message(), "invalid argument");
    assert_eq!(DivSufSortError::AllocationFailure.message(), "allocation failure");
}

#[test]
fn test_binarysearch_lower_edges() {
    assert_eq!(binarysearch_lower(&[], 0, 5), 0);
    assert_eq!(binarysearch_lower(&[1, 2, 3], 3, 10), 3);
    assert_eq!(binarysearch_lower(&[1, 2, 3], 3, 0), 0);
    assert_eq!(binarysearch_lower(&[1, 2, 2, 2, 3], 5, 2), 1);
    assert_eq!(binarysearch_lower(&[1, 2, 2, 2, 3], 5, 3), 4);
    assert_eq!(binarysearch_lower(&[1, 2, 3, 100], 3, 50), 3);
}

#[test]
fn test_ss_isqrt_is_floor_root() {
    let mut x: i32 = 0;
    while x < (1 << 20) {
        let r = ss_isqrt(x) as i64;
        let xx = x as i64;
        assert!(r * r <= xx && xx < (r + 1) * (r + 1), "x = {}", x);
        x += if x < 70000 { 1 } else { 37 };
    }
    assert_eq!(ss_isqrt(1 << 20), 1024);
    assert_eq!(ss_isqrt(i32::MAX), 1024);
    assert_eq!(ss_isqrt(65535), 255);
    assert_eq!(ss_isqrt(65536), 256);
    assert_eq!(ss_isqrt(1048575), 1023);
}

#[test]
fn test_tr_insertionsort_marks_ties() {
    let isad = [3i32, 1, 3, 2];
    let mut sa = [0i32, 1, 2, 3];
    tr_insertionsort(&isad, &mut sa, 0, 4);
    assert_eq!(sa, [1, 3, !0, 2]);
}

#[test]
fn test_tr_insertionsort_window_only() {
    let isad = [5i32, 4, 3, 2, 1, 0];
    let mut sa = [9i32, 0, 1, 2, 9];
    tr_insertionsort(&isad, &mut sa, 1, 4);
    assert_eq!(sa, [9, 2, 1, 0, 9]);
}

#[test]
fn test_tr_heapsort_sorts_window() {
    let isad: Vec<i32> = (0..20).map(|v| (v * 7) % 20).collect();
    let mut sa: Vec<i32> = vec![-5, 19, 3, 11, 0, 7, 15, 2, 8, 13, 1, 17, 5, 10, -7];
    tr_heapsort(&isad, &mut sa, 1, 13);
    assert_eq!(sa[0], -5);
    assert_eq!(sa[14], -7);
    for i in 2..14 {
        assert!(isad[sa[i - 1] as usize] <= isad[sa[i] as usize]);
    }
    let mut got: Vec<i32> = sa[1..14].to_vec();
    got.sort();
    assert_eq!(got, vec![0, 1, 2, 3, 5, 7, 8, 10, 11, 13, 15, 17, 19]);
}

#[test]
fn test_ss_heapsort_by_byte() {
    let td = b"dcbaedcba";
    let pa = [0i32, 1, 2, 3, 4, 5, 6, 7, 8];
    let mut sa = [8i32, 0, 4, 2, 6];
    ss_heapsort(td, &pa, 0, &mut sa, 0, 5);
    for i in 1..5 {
        assert!(td[pa[sa[i - 1] as usize] as usize] <= td[pa[sa[i] as usize] as usize]);
    }
}

#[test]
fn test_certificate() {
    assert!(certify_suffix_array(b"banana", &[5, 3, 1, 0, 4, 2]));
    assert!(!certify_suffix_array(b"banana", &[5, 1, 3, 0, 4, 2]));
    assert!(!certify_suffix_array(b"banana", &[5, 3, 1, 0, 4]));
    assert!(!certify_suffix_array(b"banana", &[5, 3, 3, 0, 4, 2]));
    assert!(certify_suffix_array(b"", &[]));
}

#[test]
fn test_ss_insertionsort_marks_ties() {
    let t = b"ababab";
    let pa = [0i32, 1, 2, 3, 4, 5];
    let mut sa = [0i32, 1, 2, 3];
    ss_insertionsort_impl(t, &pa, &mut sa, 0, 4, 0);
    assert_eq!(sa, [0, !2, 1, !3]);
}

#[test]
fn test_sufcheck_empty_text_nonempty_array() {
    let r = sufcheck(b"", &[0], false);
    assert_eq!(r.unwrap_err().message, "SA length 1 != T length 0");
}

#[test]
fn test_sufcheck_first_failure_messages() {
    assert_eq!(
        sufcheck(b"abc", &[0, 9, -1], false).unwrap_err().message,
        "Out of the range [0,2]. SA[1]=9"
    );
    assert_eq!(
        sufcheck(b"abc", &[2, 0, 1], false).unwrap_err().message,
        "Suffixes in wrong order. T[SA[0]=2]=99 > T[SA[1]=0]=97"
    );
}

#[test]
fn test_inverse_single_byte_short_scratch() {
    let mut u = vec![3u8; 1];
    let mut a: Vec<i32> = vec![];
    assert_eq!(
        inverse_bw_transform(b"z", &mut u, Some(&mut a), 1),
        Err(DivSufSortError::InvalidArgument)
    );
    assert_eq!(u, vec![3u8]);
}

#[test]
fn test_bw_transform_inconsistent_arguments() {
    let mut idx = 42i32;
    // output shorter than the text
    let mut u = vec![0u8; 2];
    assert_eq!(bw_transform(b"banana", &mut u, None, &mut idx), Err(DivSufSortError::InvalidArgument));
    let mut u: Vec<u8> = vec![];
    assert_eq!(bw_transform(b"q", &mut u, None, &mut idx), Err(DivSufSortError::InvalidArgument));
    // array shorter than the text
    let mut u = vec![1u8; 6];
    let mut sa = vec![5i32, 3, 1];
    assert_eq!(bw_transform(b"banana", &mut u, Some(&mut sa), &mut idx), Err(DivSufSortError::InvalidArgument));
    // array without a 0, with two, and with an entry out of range
    let mut sa = vec![5i32, 3, 1, 6, 4, 2];
    assert_eq!(bw_transform(b"banana", &mut u, Some(&mut sa), &mut idx), Err(DivSufSortError::InvalidArgument));
    let mut sa = vec![5i32, 0, 1, 0, 4, 2];
    assert_eq!(bw_transform(b"banana", &mut u, Some(&mut sa), &mut idx), Err(DivSufSortError::InvalidArgument));
    let mut sa = vec![5i32, 3, 1, 0, 7, 2];
    assert_eq!(bw_transform(b"banana", &mut u, Some(&mut sa), &mut idx), Err(DivSufSortError::InvalidArgument));
    assert_eq!(u, vec![1u8; 6]);
    assert_eq!(idx, 42);
}

#[test]
fn test_arguments_left_unchanged() {
    let t = b"banana";
    let mut sa = vec![0i32; 6];
    divsufsort(t, &mut sa).unwrap();
    let keep = sa.clone();
    let mut u = vec![0u8; 6];
    let mut idx = 0i32;
    bw_transform(t, &mut u, Some(&mut sa), &mut idx).unwrap();
    assert_eq!(sa, keep);
    let mut a = vec![-3i32; 6];
    divbwt(t, &mut u, Some(&mut a)).unwrap();
    assert_eq!(a, vec![-3i32; 6]);
    let mut a = vec![-3i32; 2];
    let mut back = vec![0u8; 6];
    assert!(inverse_bw_transform(&u, &mut back, Some(&mut a), 4).is_err());
    assert_eq!(a, vec![-3i32; 2]);
}

#[test]
fn test_divbwt_short_scratch_short_output() {
    let mut u = vec![0u8; 1];
    let mut a = vec![0i32; 1];
    assert_eq!(divbwt(b"banana", &mut u, Some(&mut a)), Err(DivSufSortError::InvalidArgument));
    assert_eq!(u, vec![0u8]);
}

#[test]
fn test_tr_insertionsort_keeps_tie_order() {
    // ranks: entries 4, 1, 2 tie at rank 1; entries 3, 0 tie at rank 0
    let isad = [0i32, 1, 1, 0, 1];
    let mut sa = [4i32, 3, 1, 0, 2];
    tr_insertionsort(&isad, &mut sa, 0, 5);
    assert_eq!(sa, [!3, 0, !4, !1, 2]);
}

#[test]
fn test_sufcheck_error_describe() {
    let e = divsufsort_rs::SufCheckError { message: "SA length 1 != T length 0".to_string() };
    assert_eq!(e.describe(), "sufcheck: SA length 1 != T length 0");
}

#[test]
fn test_sufcheck_scan_step_failure() {
    // first bytes in order, but the order of whole suffixes is wrong
    let e = sufcheck(b"aab", &[1, 0, 2], false).unwrap_err();
    assert!(e.message.starts_with("Suffix in wrong position."));
}

#[test]
fn test_fixed_stack_counts_pushes_and_pops() {
    let mut s: divsufsort_rs::constants::FixedStack<i32, 4> = divsufsort_rs::constants::FixedStack::new();
    s.push(1);
    s.push(2);
    s.push(3);
    assert_eq!(s.pop(), Some(3));
    s.push(4);
    assert_eq!(s.pop(), Some(4));
    assert_eq!(s.pop(), Some(2));
    assert_eq!(s.len(), 1);
    assert_eq!(s.pop(), Some(1));
    assert_eq!(s.pop(), None);
    assert_eq!(s.len(), 0);
}
