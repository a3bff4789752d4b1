use divsufsort_rs::trsort::{tr_heapsort, tr_ilg, tr_insertionsort, TrBudget};

#[test]
fn test_tr_ilg() {
    assert_eq!(tr_ilg(1), 0);
    assert_eq!(tr_ilg(2), 1);
    assert_eq!(tr_ilg(3), 1);
    assert_eq!(tr_ilg(4), 2);
    assert_eq!(tr_ilg(256), 8);
    assert_eq!(tr_ilg(255), 7);
}

#[test]
fn test_trbudget_check() {
    let mut b = TrBudget::new(2, 10);
    assert!(b.check(5));
    assert_eq!(b.remain, 5);
    assert!(b.check(5));
    assert_eq!(b.remain, 0);
    // remain=0, chance=2: should use a chance
    assert!(b.check(3));
    assert_eq!(b.chance, 1);
    assert_eq!(b.remain, 7);
    // exhaust chances
    assert!(b.check(20));
    assert_eq!(b.chance, 0);
    assert!(!b.check(1));
    assert_eq!(b.count, 1);
}

#[test]
fn test_tr_insertionsort_simple() {
    let isad = [3i32, 1, 4, 1, 5, 9, 2, 6];
    let mut sa = [1i32, 3, 0, 6, 2, 4, 7, 5];
    tr_insertionsort(&isad, &mut sa, 0, 8);
    for i in 1..sa.len() {
        let a = sa[i - 1];
        let b = sa[i];
        if a >= 0 && b >= 0 {
            assert!(isad[a as usize] <= isad[b as usize]);
        }
    }
}

#[test]
fn test_tr_heapsort_simple() {
    let isad = [3i32, 1, 4, 1, 5, 9, 2, 6];
    let mut sa = [1i32, 3, 0, 6, 2, 4, 7, 5];
    tr_heapsort(&isad, &mut sa, 0, 8);
    for i in 1..sa.len() {
        assert!(isad[sa[i - 1] as usize] <= isad[sa[i] as usize]);
    }
}
