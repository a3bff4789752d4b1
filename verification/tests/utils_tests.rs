use divsufsort_rs::utils::binarysearch_lower;
use divsufsort_rs::{bw_transform, inverse_bw_transform, sa_search, sa_simplesearch, sufcheck};

#[test]
fn test_sufcheck_empty() {
    assert_eq!(sufcheck(b"", &[], false), Ok(()));
}

#[test]
fn test_sufcheck_single() {
    assert_eq!(sufcheck(b"a", &[0], false), Ok(()));
}

#[test]
fn test_sufcheck_ba() {
    // "ba": suffixes are "a"(1) < "ba"(0)
    assert_eq!(sufcheck(b"ba", &[1, 0], false), Ok(()));
}

#[test]
fn test_sufcheck_wrong_order() {
    assert!(sufcheck(b"ba", &[0, 1], false).is_err());
}

#[test]
fn test_sufcheck_out_of_range() {
    assert!(sufcheck(b"ba", &[0, 2], false).is_err());
}

#[test]
fn test_sufcheck_banana() {
    assert_eq!(sufcheck(b"banana", &[5, 3, 1, 0, 4, 2], false), Ok(()));
}

#[test]
fn test_sa_search_empty_sa() {
    let (count, _) = sa_search(b"banana", b"an", &[]);
    assert_eq!(count, 0);
}

#[test]
fn test_sa_search_empty_pattern() {
    let sa = [5i32, 3, 1, 0, 4, 2];
    let (count, left) = sa_search(b"banana", b"", &sa);
    assert_eq!(count, 6);
    assert_eq!(left, 0);
}

#[test]
fn test_sa_search_found() {
    let sa = [5i32, 3, 1, 0, 4, 2];
    let (count, left) = sa_search(b"banana", b"an", &sa);
    assert_eq!(count, 2);
    for idx in left..left + count {
        let suf_start = sa[idx as usize] as usize;
        assert!(b"banana"[suf_start..].starts_with(b"an"));
    }
}

#[test]
fn test_sa_search_not_found() {
    let sa = [5i32, 3, 1, 0, 4, 2];
    let (count, _) = sa_search(b"banana", b"xyz", &sa);
    assert_eq!(count, 0);
}

#[test]
fn test_sa_simplesearch_found() {
    let sa = [5i32, 3, 1, 0, 4, 2];
    let (count, left) = sa_simplesearch(b"banana", &sa, b'a');
    assert_eq!(count, 3);
    for idx in left..left + count {
        let suf_start = sa[idx as usize] as usize;
        assert_eq!(b"banana"[suf_start], b'a');
    }
}

#[test]
fn test_sa_simplesearch_not_found() {
    let sa = [5i32, 3, 1, 0, 4, 2];
    let (count, _) = sa_simplesearch(b"banana", &sa, b'z');
    assert_eq!(count, 0);
}

#[test]
fn test_bw_transform_banana() {
    let t = b"banana";
    let mut sa = vec![5i32, 3, 1, 0, 4, 2];
    let mut u = vec![0u8; t.len()];
    let mut idx = 0i32;
    bw_transform(t, &mut u, Some(&mut sa), &mut idx).unwrap();
    assert_eq!(&u, b"annbaa");
    assert_eq!(idx, 4);
}

#[test]
fn test_inverse_bw_transform_banana() {
    let bwt = b"annbaa";
    let mut u = vec![0u8; bwt.len()];
    inverse_bw_transform(bwt, &mut u, None, 4).unwrap();
    assert_eq!(&u, b"banana");
}

#[test]
fn test_bw_roundtrip() {
    let t = b"mississippi";
    let mut sa = vec![10i32, 7, 4, 1, 0, 9, 8, 6, 3, 5, 2];
    let mut bwt = vec![0u8; t.len()];
    let mut idx = 0i32;
    bw_transform(t, &mut bwt, Some(&mut sa), &mut idx).unwrap();

    let mut restored = vec![0u8; t.len()];
    inverse_bw_transform(&bwt, &mut restored, None, idx).unwrap();
    assert_eq!(restored, t);
}

#[test]
fn test_binarysearch_lower() {
    let a = [3i32, 4, 6];
    assert_eq!(binarysearch_lower(&a, 3, 3), 0);
    assert_eq!(binarysearch_lower(&a, 3, 4), 1);
    assert_eq!(binarysearch_lower(&a, 3, 5), 2);
    assert_eq!(binarysearch_lower(&a, 3, 6), 2);
    assert_eq!(binarysearch_lower(&a, 3, 7), 3);
}
