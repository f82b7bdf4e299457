use extensor_coding::bitvec::BitVec;
use extensor_coding::extensor::ExTensor;

fn ext(c: &[i64], b: &[Vec<u8>]) -> ExTensor {
    ExTensor::new(c, b)
}

#[test]
fn extensor_extensor_add() {
    let x_1 = &ext(&[2, 5], &[vec![1, 3], vec![3, 9]]);
    let x_2 = &ext(&[1, 1], &[vec![1, 2], vec![3, 9]]);
    let sum = x_1.add(x_2);
    let res = &ext(&[2, 1, 6], &[vec![1, 3], vec![1, 2], vec![3, 9]]);
    assert_eq!(&sum, res, "exterior sum is definined component wise");
    let sum_2 = x_2.add(x_1);
    assert_eq!(&sum, &sum_2, "exterior sum is commutative");
}

#[test]
fn extensor_wedge_prod() {
    let x_1 = &ext(&[2, 3], &[vec![1, 2], vec![3, 4]]);
    let x_2 = &ext(&[4, 5], &[vec![6, 2], vec![7, 4]]);
    let res_1 = &ext(&[12, 10], &[vec![2, 3, 4, 6], vec![1, 2, 4, 7]]);
    assert_eq!(&x_1.mul(x_2), res_1, "wedge product");
    let x_3 = &ext(&[1], &[vec![2]]);
    let x_4 = &ext(&[1], &[vec![1]]);
    let res_2 = &ext(&[-1], &[vec![1, 2]]);
    assert_eq!(&x_3.mul(x_4), res_2, "sign changes when base has to be reorderd");
}

#[test]
fn extensor_extensor_mul_add() {
    let x_1 = &ext(&[1], &[vec![1]]);
    let x_2 = &ext(&[2], &[vec![1]]);
    let x_3 = &ext(&[1], &[vec![2]]);
    let x_4 = &ext(&[2], &[vec![2]]);
    let a = x_1.mul(x_4).add(&x_2.mul(x_1));
    let expect_a = ext(&[2], &[vec![1, 2]]);
    let b = x_1.mul(x_3).add(&x_2.mul(x_4));
    let expect_b = ext(&[5], &[vec![1, 2]]);
    let c = x_3.mul(x_4).add(&x_4.mul(x_1));
    let expect_c = ext(&[-2], &[vec![1, 2]]);
    let d = x_3.mul(x_3).add(&x_4.mul(x_4));
    let expect_d = ExTensor::zero();
    assert_eq!(a, expect_a, "multiplying and then adding (inner product)");
    assert_eq!(b, expect_b, "multiplying and then adding (inner product)");
    assert_eq!(c, expect_c, "multiplying and then adding (inner product)");
    assert_eq!(d, expect_d, "multiplying and then adding (inner product)");
}

#[test]
fn extensor_extensor_scalar_mul() {
    let x_1 = ext(&[3, 2], &[vec![1, 2], vec![3, 4]]).scale(2);
    let x_2 = ext(&[3, 2], &[vec![1, 2], vec![3, 4]]).scale(2);
    let res = ext(&[6, 4], &[vec![1, 2], vec![3, 4]]);
    assert_eq!(x_1, res, "scalar multiplication is right commutative");
    assert_eq!(x_2, res, "scalar multiplication is left commutative");
    assert_eq!(x_1, x_2, "scalar multiplication is commutative");
}

#[test]
fn extensor_extensor_vanish() {
    let x_1 = &ext(&[1], &[vec![1]]);
    let prod_1 = &x_1.mul(x_1);
    assert_eq!(prod_1.is_zero(), true, "x wedge x vanishes");
}

#[test]
fn extensor_extensor_anti_comm() {
    let x_3 = &ext(&[2], &[vec![1]]);
    let x_4 = &ext(&[4], &[vec![3]]);
    let prod_4 = x_3.mul(x_4);
    let res_1 = ext(&[8], &[vec![1, 3]]);
    let prod_5 = x_4.mul(x_3);
    let res_anti = ext(&[-8], &[vec![1, 3]]);
    assert_eq!(prod_4, res_1, "wedge product on simple extensors");
    assert_eq!(prod_5, res_anti, "wedge product on simple extensors is anti communative");
}

#[test]
fn extensor_det_f2() {
    let x_5 = &ext(&[2, 3], &[vec![1], vec![2]]);
    let x_6 = &ext(&[4, 5], &[vec![1], vec![2]]);
    let prod_6 = &x_5.mul(x_6);
    let det = &ext(&[-2], &[vec![1, 2]]);
    assert_eq!(prod_6, det, "Wedge Product exhibits determinant on F^2x2");
}

#[test]
fn extensor_det_f3() {
    let x_7 = &ext(&[2, 3, 4], &[vec![1], vec![2], vec![3]]);
    let x_8 = &ext(&[5, 6, 7], &[vec![1], vec![2], vec![3]]);
    let x_9 = &ext(&[8, 9, 10], &[vec![1], vec![2], vec![3]]);
    let prod_7 = &x_7.mul(x_8).mul(x_9);
    let det = &ext(&[0], &[vec![1, 2, 3]]);
    assert_eq!(prod_7, det, "Wedge Product exhibits determinant on F^3x3");
}

#[test]
fn extensor_lifted() {
    let x = &ext(&[2, 3], &[vec![1], vec![2]]);
    let l = x.lift(2);
    let a = &ext(&[2, 3], &[vec![3], vec![4]]);
    assert_eq!(l, x.mul(a), "lift is (x, 0)^T wedge (0, x)^T");
}

#[test]
fn extensor_is_zero() {
    let x = ext(&[0, 0], &[vec![1, 2, 3], vec![4, 5, 6]]);
    let y = ExTensor::zero();
    assert_eq!(x.is_zero(), true, "extensor with zero coefficients is zero");
    assert_eq!(y.is_zero(), true, "extensor with empty basis is zero");
}

#[test]
fn bitvec_extensor_add() {
    let x_1 = &ext(&[2, 5], &[vec![1, 3], vec![3, 9]]);
    let x_2 = &ext(&[1, 1], &[vec![1, 2], vec![3, 9]]);
    let sum = x_1.add(x_2);
    let res = &ext(&[2, 1, 6], &[vec![1, 3], vec![1, 2], vec![3, 9]]);
    assert_eq!(&sum, res, "exterior sum is definined component wise");
    let sum_2 = x_2.add(x_1);
    assert_eq!(&sum, &sum_2, "exterior sum is commutative");
}

#[test]
fn bitvec_extensor_add_2() {
    let x_1 = &ext(&[-3, 4], &[vec![1, 3], vec![3, 9]]);
    let x_2 = &ext(&[3, -4], &[vec![1, 3], vec![3, 9]]);
    let sum = x_1.add(x_2);
    let res = &ext(&[0, 0], &[vec![1, 3], vec![3, 9]]);
    assert_eq!(&sum, res, "tensors should cancel each other");
}

#[test]
fn bitvec_extensor_add_3() {
    let x_1 = &ext(&[-3, 4], &[vec![1, 3], vec![3, 4]]);
    let x_2 = &ext(&[3, -4], &[vec![1, 3], vec![3, 9]]);
    let sum = x_1.add(x_2);
    let res = &ext(&[0, 4, -4], &[vec![1, 3], vec![3, 4], vec![3, 9]]);
    assert_eq!(&sum, res, "tensors should add");
}

#[test]
fn get_sign() {
    let x_1 = BitVec::from(&vec![2]);
    let x_2 = BitVec::from(&vec![2]);
    assert_eq!(ExTensor::get_sign(&x_1, &x_2), 1);
    let x_3 = BitVec::from(&vec![3]);
    assert_eq!(ExTensor::get_sign(&x_1, &x_3), 1);
    let x_4 = BitVec::from(&vec![3, 4]);
    assert_eq!(ExTensor::get_sign(&x_1, &x_4), 1);
    let x_5 = BitVec::from(&vec![3, 4, 5]);
    assert_eq!(ExTensor::get_sign(&x_1, &x_5), 1);
}

#[test]
fn get_sign_2() {
    let x_1 = BitVec::from(&vec![1, 2, 4]);
    let x_2 = BitVec::from(&vec![3, 5, 6]);
    let sign = ExTensor::get_sign(&x_1, &x_2);
    assert_eq!(sign, -1, "sign of simple permutation should be -1");
}

#[test]
fn bitvec_lifted() {
    let x = &ext(&[2, 3], &[vec![1], vec![2]]);
    let l = x.lift(2);
    let a = &ext(&[2, 3], &[vec![3], vec![4]]);
    assert_eq!(l, x.mul(a), "lift is (x, 0)^T wedge (0, x)^T");
}

#[test]
fn bitvec_wedge_prod() {
    let x_1 = ext(&[2, 3], &[vec![1, 2], vec![3, 4]]);
    let x_2 = ext(&[4, 5], &[vec![2, 6], vec![4, 7]]);
    let res = ext(&[12, 10], &[vec![2, 3, 4, 6], vec![1, 2, 4, 7]]);
    assert_eq!(x_1.mul(&x_2), res, "wedge product should match");
}

#[test]
fn bitvec_wedge_prod_2() {
    let x_1 = ext(&[3], &[vec![3, 4]]);
    let x_2 = ext(&[4], &[vec![2, 6]]);
    let res = ext(&[12], &[vec![2, 3, 4, 6]]);
    assert_eq!(x_1.mul(&x_2), res, "wedge product should match");
}

#[test]
fn bitvec_extensor_mul_add() {
    let x_1 = &ext(&[1], &[vec![1]]);
    let x_2 = &ext(&[2], &[vec![1]]);
    let x_3 = &ext(&[1], &[vec![2]]);
    let x_4 = &ext(&[2], &[vec![2]]);
    let a = x_1.mul(x_4).add(&x_2.mul(x_1));
    let expect_a = ext(&[2], &[vec![1, 2]]);
    let b = x_1.mul(x_3).add(&x_2.mul(x_4));
    let expect_b = ext(&[5], &[vec![1, 2]]);
    let c = x_3.mul(x_4).add(&x_4.mul(x_1));
    let expect_c = ext(&[-2], &[vec![1, 2]]);
    let d = x_3.mul(x_3).add(&x_4.mul(x_4));
    let expect_d = ExTensor::zero();
    assert_eq!(a, expect_a, "multiplying and then adding (inner product)");
    assert_eq!(b, expect_b, "multiplying and then adding (inner product)");
    assert_eq!(c, expect_c, "multiplying and then adding (inner product)");
    assert_eq!(d, expect_d, "multiplying and then adding (inner product)");
}

#[test]
fn bitvec_extensor_vanish() {
    let x_1 = &ext(&[1], &[vec![1]]);
    let prod_1 = &x_1.mul(x_1);
    assert_eq!(prod_1.is_zero(), true, "x wedge x vanishes");
}

#[test]
fn bitvec_extensor_vanish_2() {
    let x_1 = &ext(&[9, 8, 7, 12], &[vec![1], vec![1, 2, 3], vec![4], vec![6, 7, 8]]);
    let prod_1 = &x_1.mul(x_1);
    assert_eq!(prod_1.is_zero(), true, "x wedge x vanishes");
}

#[test]
fn bitvec_extensor_anti_comm() {
    let x_3 = &ext(&[2], &[vec![1]]);
    let x_4 = &ext(&[4], &[vec![3]]);
    let prod_4 = x_3.mul(x_4);
    let res_1 = ext(&[8], &[vec![1, 3]]);
    let prod_5 = x_4.mul(x_3);
    let res_anti = ext(&[-8], &[vec![1, 3]]);
    assert_eq!(prod_4, res_1, "wedge product on simple extensors");
    assert_eq!(prod_5, res_anti, "wedge product on simple extensors is anti communative");
}

#[test]
fn bitvec_det_f2() {
    let x_5 = &ext(&[2, 3], &[vec![1], vec![2]]);
    let x_6 = &ext(&[4, 5], &[vec![1], vec![2]]);
    let prod_6 = &x_5.mul(x_6);
    let det = &ext(&[-2], &[vec![1, 2]]);
    assert_eq!(prod_6, det, "Wedge Product exhibits determinant on F^2x2");
}

#[test]
fn bitvec_det_f3() {
    let x_7 = &ext(&[2, 3, 4], &[vec![1], vec![2], vec![3]]);
    let x_8 = &ext(&[5, 6, 7], &[vec![1], vec![2], vec![3]]);
    let x_9 = &ext(&[8, 9, 10], &[vec![1], vec![2], vec![3]]);
    let prod_7 = &x_7.mul(x_8).mul(x_9);
    let det = &ext(&[0], &[vec![1, 2, 3]]);
    assert_eq!(prod_7, det, "Wedge Product exhibits determinant on F^3x3");
}

#[test]
fn bitvec_is_zero() {
    let x = ext(&[0, 0], &[vec![1, 2, 3], vec![4, 5, 6]]);
    let y = ExTensor::zero();
    assert_eq!(x.is_zero(), true, "extensor with zero coefficients is zero");
    assert_eq!(y.is_zero(), true, "extensor with empty basis is zero");
}

#[test]
fn dense_hashmap_extensor_add() {
    let x_1 = &ext(&[2, 5], &[vec![1, 3], vec![3, 9]]);
    let x_2 = &ext(&[1, 1], &[vec![1, 2], vec![3, 9]]);
    let sum = x_1.add(x_2);
    let res = ext(&[2, 1, 6], &[vec![1, 3], vec![1, 2], vec![3, 9]]);
    assert_eq!(&sum, &res, "exterior sum is definined component wise");
    let sum_2 = x_2.add(x_1);
    assert_eq!(&sum, &sum_2, "exterior sum is commutative");
}

#[test]
fn dense_hashmap_extensor_add_2() {
    let x_1 = &ext(&[-3, 4], &[vec![1, 3], vec![3, 9]]);
    let x_2 = &ext(&[3, -4], &[vec![1, 3], vec![3, 9]]);
    let sum = x_1.add(x_2);
    let res = &ext(&[0, 0], &[vec![1, 3], vec![3, 9]]);
    assert_eq!(&sum, res, "tensors should cancel each other");
}

#[test]
fn dense_hashmap_extensor_add_3() {
    let x_1 = &ext(&[-3, 4], &[vec![1, 3], vec![3, 4]]);
    let x_2 = &ext(&[3, -4], &[vec![1, 3], vec![3, 9]]);
    let sum = x_1.add(x_2);
    let res = &ext(&[0, 4, -4], &[vec![1, 3], vec![3, 4], vec![3, 9]]);
    assert_eq!(&sum, res, "tensors should add");
}

#[test]
fn extensor_sub() {
    let x_1 = &ext(&[3, 4], &[vec![1, 3], vec![3, 9]]);
    let x_2 = &ext(&[3, 4], &[vec![1, 3], vec![3, 9]]);
    let sum = x_1.sub(x_2);
    let res = &ext(&[0, 0], &[vec![1, 3], vec![3, 9]]);
    assert_eq!(&sum, res, "tensors should cancel each other");
}

#[test]
fn extensor_sub_2() {
    let x_1 = &ext(&[3, 4], &[vec![1, 3], vec![3, 9]]);
    let x_2 = &ext(&[3, -4], &[vec![1, 3], vec![3, 9]]);
    let sum = x_1.sub(x_2);
    let res = &ext(&[0, 8], &[vec![1, 3], vec![3, 9]]);
    assert_eq!(&sum, res, "tensors sub should work");
}

#[test]
fn dense_hashmap_wedge_prod() {
    let x_1 = ext(&[2, 3], &[vec![1, 2], vec![3, 4]]);
    let x_2 = ext(&[4, 5], &[vec![2, 6], vec![4, 7]]);
    let res = ext(&[12, 10], &[vec![2, 3, 4, 6], vec![1, 2, 4, 7]]);
    assert_eq!(x_1.mul(&x_2), res, "wedge product should match");
}

#[test]
fn dense_hashmap_wedge_prod_2() {
    let x_1 = ext(&[3], &[vec![3, 4]]);
    let x_2 = ext(&[4], &[vec![2, 6]]);
    let res = ext(&[12], &[vec![2, 3, 4, 6]]);
    assert_eq!(x_1.mul(&x_2), res, "wedge product should match");
}

#[test]
fn dense_hashmap_lifted() {
    let x = &ext(&[2, 3], &[vec![1], vec![2]]);
    let l = x.lift(2);
    let a = &ext(&[2, 3], &[vec![3], vec![4]]);
    assert_eq!(l, x.mul(a), "lift is (x, 0)^T wedge (0, x)^T");
}

#[test]
fn dense_hashmap_extensor_vanish() {
    let x_1 = &ext(&[1], &[vec![1]]);
    let prod_1 = &x_1.mul(x_1);
    assert_eq!(prod_1.is_zero(), true, "x wedge x vanishes");
}

#[test]
fn dense_hashmap_extensor_vanish_2() {
    let x_1 = &ext(&[9, 8, 7, 12], &[vec![1], vec![1, 2, 3], vec![4], vec![6, 7, 8]]);
    let prod_1 = &x_1.mul(x_1);
    assert_eq!(prod_1.is_zero(), true, "x wedge x vanishes");
}

#[test]
fn dense_hashmap_extensor_anti_comm() {
    let x_3 = &ext(&[2], &[vec![1]]);
    let x_4 = &ext(&[4], &[vec![3]]);
    let prod_4 = x_3.mul(x_4);
    let res_1 = ext(&[8], &[vec![1, 3]]);
    let prod_5 = x_4.mul(x_3);
    let res_anti = ext(&[-8], &[vec![1, 3]]);
    assert_eq!(prod_4, res_1, "wedge product on simple extensors");
    assert_eq!(prod_5, res_anti, "wedge product on simple extensors is anti communative");
}

#[test]
fn dense_hashmap_det_f2() {
    let x_5 = &ext(&[2, 3], &[vec![1], vec![2]]);
    let x_6 = &ext(&[4, 5], &[vec![1], vec![2]]);
    let prod_6 = x_5.mul(x_6);
    let det = ext(&[-2], &[vec![1, 2]]);
    assert_eq!(prod_6, det, "Wedge Product exhibits determinant on F^2x2");
}

#[test]
fn dense_hashmap_det_f3() {
    let x_7 = &ext(&[2, 3, 4], &[vec![1], vec![2], vec![3]]);
    let x_8 = &ext(&[5, 6, 7], &[vec![1], vec![2], vec![3]]);
    let x_9 = &ext(&[8, 9, 10], &[vec![1], vec![2], vec![3]]);
    let prod_7 = &x_7.mul(x_8).mul(x_9);
    let det = &ext(&[0], &[vec![1, 2, 3]]);
    assert_eq!(prod_7, det, "Wedge Product exhibits determinant on F^3x3");
}

#[test]
fn new_collapses_duplicate_bases() {
    let x = ext(&[2, 3, -5], &[vec![1, 2], vec![2, 1], vec![4]]);
    assert_eq!(x.coeffs(), vec![5, -5]);
    let y = ext(&[2, -2], &[vec![1, 2], vec![2, 1]]);
    assert!(y.is_zero());
}

#[test]
fn coefficients_are_listed_by_basis() {
    let x = ext(&[7, 3, 5], &[vec![3], vec![1], vec![2]]);
    assert_eq!(x.coeffs(), vec![3, 5, 7]);
    assert_eq!(x.coeff_of(&BitVec::from(&vec![2])), 5);
    assert_eq!(x.coeff_of(&BitVec::from(&vec![1, 2])), 0);
}

#[test]
fn antisymmetry_of_grade_one() {
    let x = ext(&[2, -3, 5], &[vec![1], vec![2], vec![3]]);
    let y = ext(&[7, 11, -13], &[vec![1], vec![2], vec![3]]);
    assert!(x.mul(&y).add(&y.mul(&x)).is_zero());
    assert!(x.mul(&x).is_zero());
    assert!(!x.mul(&y).is_zero());
}

#[test]
fn determinant_of_three_by_three() {
    // det [[2, 0, 1], [1, 3, 2], [1, 1, 4]] = 2*(12-2) - 0 + 1*(1-3) = 18
    let b = [vec![1u8], vec![2u8], vec![3u8]];
    let x_1 = ext(&[2, 0, 1], &b);
    let x_2 = ext(&[1, 3, 2], &b);
    let x_3 = ext(&[1, 1, 4], &b);
    assert_eq!(x_1.mul(&x_2).mul(&x_3), ext(&[18], &[vec![1, 2, 3]]));
}

#[test]
fn lift_equals_wedge_with_shift() {
    let x = ext(&[1, -1, 1], &[vec![1], vec![2], vec![3]]);
    let s = x.shift_right(3);
    assert_eq!(s, ext(&[1, -1, 1], &[vec![4], vec![5], vec![6]]));
    assert_eq!(x.lift(3), x.mul(&s));
    assert_eq!(x.lift(3).coeffs().len(), 9);
}

#[test]
fn scale_by_zero_is_zero() {
    let x = ext(&[3, 4], &[vec![1], vec![2]]);
    assert!(x.scale(0).is_zero());
    assert_eq!(x.scale(-1), ext(&[-3, -4], &[vec![1], vec![2]]));
}

#[test]
fn coefficients_wrap_on_overflow() {
    let x = ext(&[i64::MAX], &[vec![1]]);
    let y = ext(&[1], &[vec![1]]);
    assert_eq!(x.add(&y), ext(&[i64::MIN], &[vec![1]]));
}

#[test]
fn duplicate_keeps_terms() {
    let x = ext(&[3, 4], &[vec![1, 5], vec![2]]);
    assert_eq!(x.duplicate(), x);
    assert_eq!(x.terms().len(), 2);
}

#[test]
fn get_sign_ord() {
    let x_1 = vec![1, 2, 3];
    let x_2 = vec![4, 5, 6];
    let (sign, ord_basis) = ExTensor::get_sign_and_ord_basis(&x_1, &x_2);
    assert_eq!(sign, 1, "sign of simple ordered basis should be 1");
    assert_eq!(ord_basis, vec![1, 2, 3, 4, 5, 6], "ordered basis should match");
}

#[test]
fn get_sign_unord() {
    let x_1 = vec![1, 2, 4];
    let x_2 = vec![3, 5, 6];
    let (sign, ord_basis) = ExTensor::get_sign_and_ord_basis(&x_1, &x_2);
    assert_eq!(sign, -1, "sign of simple permutation should be -1");
    assert_eq!(ord_basis, vec![1, 2, 3, 4, 5, 6], "ordered basis should match");
}

#[test]
fn get_sign_unord_2() {
    let x_1 = vec![1, 2, 6];
    let x_2 = vec![3, 4, 5];
    let (sign, ord_basis) = ExTensor::get_sign_and_ord_basis(&x_1, &x_2);
    assert_eq!(sign, -1, "sign of simple permutation should be -1");
    assert_eq!(ord_basis, vec![1, 2, 3, 4, 5, 6], "ordered basis should match");
}

#[test]
fn get_sign_unord_3() {
    let x_1 = vec![1, 2];
    let x_2 = vec![2, 6];
    let (sign, ord_basis) = ExTensor::get_sign_and_ord_basis(&x_1, &x_2);
    assert_eq!(sign, 1, "sign of simple permutation should be 1");
    assert_eq!(ord_basis, vec![1, 2, 2, 6], "ordered basis should match");

    let x_3 = vec![4, 7];
    let (sign_2, ord_basis_2) = ExTensor::get_sign_and_ord_basis(&x_1, &x_3);
    assert_eq!(sign_2, 1, "sign of simple permutation should be 1");
    assert_eq!(ord_basis_2, vec![1, 2, 4, 7], "ordered basis should match");

    let (sign_3, ord_basis_3) = ExTensor::get_sign_and_ord_basis(&x_3, &x_1);
    assert_eq!(sign_3, 1, "sign of simple permutation should be 1");
    assert_eq!(ord_basis_3, vec![1, 2, 4, 7], "ordered basis should match");

    let x_4 = vec![3, 4];
    let (sign_4, ord_basis_4) = ExTensor::get_sign_and_ord_basis(&x_2, &x_4);
    assert_eq!(sign_4, 1, "sign of simple permutation should be 1");
    assert_eq!(ord_basis_4, vec![2, 3, 4, 6], "ordered basis should match");
}

#[test]
fn cursor_sign_agrees_with_bit_sign() {
    let a = BitVec::from(&vec![1, 4, 7]);
    let b = BitVec::from(&vec![2, 3, 8]);
    let (sign, _) = ExTensor::get_sign_and_ord_basis(&vec![1, 4, 7], &vec![2, 3, 8]);
    assert_eq!(ExTensor::get_sign(&a, &b), sign);
    // 4 > 2, 3 and 7 > 2, 3: four swaps
    assert_eq!(sign, 1);
    assert_eq!(ExTensor::get_sign(&b, &a), -1);
}

#[test]
fn extensor_text() {
    let x = ext(&[2, 5], &[vec![1, 3], vec![3, 9]]);
    assert_eq!(String::from_utf8(x.to_text()).unwrap(), "2 e1^e3 + 5 e3^e9");
    assert_eq!(String::from_utf8(ExTensor::zero().to_text()).unwrap(), "0");
    let y = ext(&[-7, 4], &[vec![2], vec![]]);
    assert_eq!(String::from_utf8(y.to_text()).unwrap(), "4 + -7 e2");
    let z = ext(&[i64::MIN], &[vec![10]]);
    assert_eq!(String::from_utf8(z.to_text()).unwrap(), "-9223372036854775808 e10");
}
