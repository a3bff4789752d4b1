use divsufsort_rs::sssort::{ss_compare, ss_heapsort, ss_ilg, ss_insertionsort_impl, ss_isqrt};

#[test]
fn test_ss_ilg() {
    assert_eq!(ss_ilg(1), 0);
    assert_eq!(ss_ilg(2), 1);
    assert_eq!(ss_ilg(4), 2);
    assert_eq!(ss_ilg(255), 7);
    assert_eq!(ss_ilg(256), 8);
    assert_eq!(ss_ilg(1024), 10);
}

#[test]
fn test_ss_isqrt() {
    assert_eq!(ss_isqrt(0), 0);
    assert_eq!(ss_isqrt(1), 1);
    assert_eq!(ss_isqrt(4), 2);
    assert_eq!(ss_isqrt(9), 3);
    assert_eq!(ss_isqrt(16), 4);
    assert_eq!(ss_isqrt(100), 10);
    // boundary where x = y*y
    for y in 1..=32i32 {
        let x = y * y;
        assert_eq!(ss_isqrt(x), y, "ss_isqrt({x}) should be {y}");
        assert_eq!(
            ss_isqrt(x - 1),
            y - 1,
            "ss_isqrt({}) should be {}",
            x - 1,
            y - 1
        );
    }
}

#[test]
fn test_ss_compare_equal() {
    // T = "abab", PA = [0, 2] (next B*-suffix after 0 is at 2)
    let t = b"abab";
    let pa = [0i32, 2];
    assert_eq!(ss_compare(t, &pa, 0, &pa, 0, 0), 0);
}

#[test]
fn test_ss_compare_less() {
    let _t = b"bab\x00";
    let pa = [1i32, 0, 3]; // PA[0]=1, PA[1]=0, PA[2]=3
    // p1: keys T[1..2] = "a"; p2: keys T[0..5] = "bab\0\0"
    let t2 = b"bab\x00\x00\x00";
    let r = ss_compare(t2, &pa, 0, &pa, 1, 0);
    assert!(r < 0, "expected < 0 but got {r}");
}

#[test]
fn test_ss_heapsort() {
    let t = b"banana\x00";
    // PA = [5, 3, 1, 0, 4, 2] (suffix array of "banana")
    let pa = [5i32, 3, 1, 0, 4, 2, 0]; // extra 0 for sentinel
    let mut sa = [0i32, 1, 2, 3, 4, 5]; // indices to sort
    let td_offset = 0usize;
    let pab = 0usize;
    ss_heapsort(&t[td_offset..], &pa, pab, &mut sa, 0, 6);
    for i in 1..6 {
        assert!(
            t[pa[sa[i - 1] as usize] as usize] <= t[pa[sa[i] as usize] as usize],
            "not sorted at {i}"
        );
    }
}

#[test]
fn test_ss_insertionsort_impl() {
    let t = b"dcba\x00\x00\x00\x00";
    let pa = [3i32, 2, 1, 0, 0];
    let mut sa = [3i32, 2, 1, 0];
    ss_insertionsort_impl(t, &pa, &mut sa, 0, 4, 0);
    for i in 1..4 {
        let a = if sa[i - 1] >= 0 {
            sa[i - 1] as usize
        } else {
            !sa[i - 1] as usize
        };
        let b = if sa[i] >= 0 {
            sa[i] as usize
        } else {
            !sa[i] as usize
        };
        assert!(
            ss_compare(t, &pa, a, &pa, b, 0) <= 0,
            "not sorted at {i}: sa[{}]={} sa[{}]={}",
            i - 1,
            sa[i - 1],
            i,
            sa[i]
        );
    }
}
