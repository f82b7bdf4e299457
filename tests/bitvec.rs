use extensor_coding::bitvec::BitVec;

#[test]
fn bitvec_create() {
    let v = vec![1, 3, 9, 12];
    let b = BitVec::from(&v);
    let res = [
        false, true, false, true, false, false, false, false, false, true, false, false, true,
        false, false, false, false, false, false, false, false, false, false, false, false,
        false, false, false, false, false, false, false,
    ];
    assert_eq!(b.len(), res.len());
    for i in 0..32 {
        assert_eq!(b.get(i), res[i], "bitvec init should work");
    }
}

#[test]
fn bitxor() {
    let b_1 = &BitVec::from(&vec![1, 3, 6]);
    let b_2 = &BitVec::from(&vec![1, 2, 3, 4, 6]);
    let res = b_1.xor(b_2);
    let expect = BitVec::from(&vec![2, 4]);
    assert_eq!(res, expect, "bitwise xor should work");
}

#[test]
fn bitxor_2() {
    let b_1 = &BitVec::from(&vec![1]);
    let b_2 = &BitVec::from(&vec![10]);
    let res = b_1.xor(b_2);
    let expect = BitVec::from(&vec![1, 10]);
    assert_eq!(res, expect, "bitwise xor should work");
}

#[test]
fn bitand() {
    let b_1 = &BitVec::from(&vec![1, 3, 6]);
    let b_2 = &BitVec::from(&vec![1, 2, 3, 4, 6]);
    let res = b_1.and(b_2);
    let expect = BitVec::from(&vec![1, 3, 6]);
    assert_eq!(res, expect, "bitwise and should work");
}

#[test]
fn shift() {
    let mut b_1 = BitVec::from(&vec![1, 3, 6]);
    b_1.shift_right(3);
    let res = BitVec::from(&vec![4, 6, 9]);
    assert_eq!(b_1, res, "shift_right should work");
}

#[test]
fn any() {
    let b_1 = BitVec::from(&vec![10]);
    assert_eq!(b_1.any(), true, "should be true if at least one bit is set");
    let b_2 = BitVec::from(&vec![1, 10, 20]);
    assert_eq!(b_2.any(), true, "should be true if at least one bit is set");
    let b_3 = BitVec::from(&vec![]);
    assert_eq!(b_3.any(), false, "should be false if no bit is set");
}

#[test]
fn count() {
    let b_1 = BitVec::from(&vec![10]);
    assert_eq!(b_1.count_ones(), 1, "should count ones");
    let b_2 = BitVec::from(&vec![1, 3, 4, 5, 7, 10]);
    assert_eq!(b_2.count_ones(), 6, "should count ones");
}

#[test]
fn indices_ascending() {
    let b = BitVec::from(&vec![12, 3, 9, 1, 3]);
    assert_eq!(b.indices(), vec![1, 3, 9, 12]);
    assert_eq!(BitVec::from(&vec![]).indices(), Vec::<usize>::new());
    assert_eq!(BitVec::from(&vec![0, 31]).indices(), vec![0, 31]);
}

#[test]
fn shift_by_zero_keeps_set() {
    let mut b = BitVec::from(&vec![0, 5, 31]);
    b.shift_right(0);
    assert_eq!(b, BitVec::from(&vec![0, 5, 31]));
}

#[test]
fn bitvec_text() {
    let b = BitVec::from(&vec![1, 3, 31]);
    assert_eq!(
        String::from_utf8(b.to_text()).unwrap(),
        "[01010000000000000000000000000001]"
    );
}
