use rust_life::symvec::SymVec;

#[test]
fn test_push_front_back() {
    let mut v: SymVec<i32> = SymVec::new();

    v.push_front(1);
    v.push_front(2);
    v.push_back(-1);

    assert!(v.len() == 3);
    assert!(*v.get(-1) == -1);

    v.set(-1, 20);
    assert!(*v.get(-1) == 20);
}

#[test]
fn test_extend() {
    let mut v: SymVec<i32> = SymVec::new();

    assert!(v.need_extend_pos(0) == true);

    v.push_front(1);

    assert!(v.need_extend_pos(0) == false);
    assert!(v.need_extend_pos(1) == true);
    assert!(v.need_extend_pos(5) == true);

    assert!(v.need_extend_neg(-1) == true);

    v.push_back(-2);

    assert!(v.need_extend_neg(-1) == false);
    assert!(v.need_extend_neg(-2) == true);
}

#[test]
fn test_need_extend_cnt() {
    let mut v: SymVec<i32> = SymVec::new();

    assert_eq!(v.need_extend_neg_cnt(-1), Some(1));
    assert_eq!(v.need_extend_pos_cnt(0), None);

    assert_eq!(v.need_extend_neg_cnt(-20), Some(20));
    assert_eq!(v.need_extend_neg_cnt(15), None);
    assert_eq!(v.need_extend_pos_cnt(15), Some(15));
    assert_eq!(v.need_extend_pos_cnt(-20), None);

    v.push_front(1);
    assert_eq!(v.need_extend_pos_cnt(15), Some(14));

    v.push_back(1);
    assert_eq!(v.need_extend_neg_cnt(-20), Some(19));

    assert_eq!(v.need_extend_neg_cnt(-2), Some(1));
    assert_eq!(v.need_extend_neg_cnt(-1), None);

    assert_eq!(v.need_extend_pos_cnt(2), Some(1));
    assert_eq!(v.need_extend_pos_cnt(1), None);
}

#[test]
fn test_iterator() {
    let mut v: SymVec<i32> = SymVec::new();
    v.push_back(-1);
    v.push_back(-2);
    v.push_front(1);
    v.push_front(2);
    v.push_front(3);

    let mut it = v.into_iter();
    let mut v2: Vec<&i32> = Vec::new();
    while let Some(e) = it.next() {
        v2.push(e);
    }
    assert!(*v2[0] == -2);
    assert!(*v2[1] == -1);
    assert!(*v2[2] == 1);
    assert!(*v2[3] == 2);
    assert!(*v2[4] == 3);
}

#[test]
fn appended_values_stay_at_their_indices() {
    let mut v: SymVec<i32> = SymVec::new();
    v.push_front(10);
    v.push_back(-10);
    v.push_front(11);
    v.push_back(-11);
    v.push_back(-12);
    v.push_front(12);
    assert_eq!(v.len(), 6);
    assert_eq!(v.len_pos(), 3);
    assert_eq!(v.len_neg(), 3);
    assert_eq!(*v.get(0), 10);
    assert_eq!(*v.get(1), 11);
    assert_eq!(*v.get(2), 12);
    assert_eq!(*v.get(-1), -10);
    assert_eq!(*v.get(-2), -11);
    assert_eq!(*v.get(-3), -12);
}

#[test]
fn growth_needed_until_enough_appends() {
    let mut v: SymVec<u8> = SymVec::new();
    v.push_front(0);
    // index 4 with one element on the positive side: 4 - 1 + 1 = 4 appends
    let mut appends = 0;
    while v.need_extend_pos(4) {
        v.push_front(0);
        appends += 1;
    }
    assert_eq!(appends, 4);
    assert!(v.is_available(4));
    assert!(!v.is_available(5));

    let mut appends_neg = 0;
    while v.need_extend_neg(-3) {
        v.push_back(0);
        appends_neg += 1;
    }
    assert_eq!(appends_neg, 3);
    assert!(v.is_available(-3));
    assert!(!v.is_available(-4));
}

#[test]
fn empty_vector_has_nothing_available() {
    let v: SymVec<u8> = SymVec::new();
    assert_eq!(v.len(), 0);
    assert!(!v.is_available(0));
    assert!(!v.is_available(-1));
    let mut it = v.into_iter();
    assert!(it.next().is_none());
    assert!(it.next().is_none());
}

#[test]
fn extreme_indices_do_not_overflow() {
    let v: SymVec<u8> = SymVec::new();
    assert!(v.need_extend_neg(isize::MIN));
    assert_eq!(v.need_extend_neg_cnt(isize::MIN), Some(1usize << 63));
    assert_eq!(v.need_extend_pos_cnt(isize::MAX), Some(isize::MAX as usize));
    assert!(v.need_extend_pos(isize::MAX));
    assert!(!v.need_extend_pos(isize::MIN));
}

#[test]
fn get_mut_changes_one_slot() {
    let mut v: SymVec<i32> = SymVec::new();
    v.push_front(1);
    v.push_back(2);
    *v.get_mut(0) = 7;
    assert_eq!(*v.get(0), 7);
    assert_eq!(*v.get(-1), 2);
}
