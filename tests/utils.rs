use extensor_coding::extensor::ExTensor;
use extensor_coding::utils::{
    create_bernoulli, create_vandermonde, factorial, has_intersection, t_value_milli,
};

#[test]
fn vandermonde() {
    let k = 5;
    let n = 5;
    let coding = create_vandermonde(n, k);
    let prod = coding[0].mul(&coding[1]).mul(&coding[2]).mul(&coding[3]).mul(&coding[4]);
    let res = ExTensor::new(&[82944], &[vec![1, 2, 3, 4, 5, 6, 7, 8, 9, 10]]);
    assert_eq!(prod, res, "lifted vandermonde");
}

#[test]
fn bernoulli() {
    let k = 3;
    let n = 5;
    let coding = create_bernoulli(n, k);
    for i in 0..n {
        let vert_val = &coding[i];
        for coeff in vert_val.coeffs() {
            assert!(coeff == 1 || coeff == -1, "coefficients are either +1 or -1");
        }
        assert_eq!(vert_val.coeffs().len(), k * k);
    }
}

#[test]
fn facto() {
    let r1 = factorial(3);
    let r2 = factorial(4);
    let r3 = factorial(7);
    let r4 = factorial(10);
    assert_eq!(r1, 6, "3!");
    assert_eq!(r2, 24, "4!");
    assert_eq!(r3, 5040, "7!");
    assert_eq!(r4, 3628800, "10!");
}

#[test]
fn intersect() {
    let v_1 = vec![1, 2, 3, 4, 5, 6];
    let v_2 = vec![6, 7, 8, 9, 10, 11];
    let res = has_intersection(&v_1, &v_2);
    assert_eq!(res, true);
    let v_3 = vec![7, 8, 9, 10, 11, 12];
    let res_2 = has_intersection(&v_1, &v_3);
    assert_eq!(res_2, false);
}

#[test]
fn intersect2() {
    let v_1 = vec![1, 3, 5, 7, 9, 10];
    let v_2 = vec![2, 4, 6, 8, 10];
    let res = has_intersection(&v_1, &v_2);
    assert_eq!(res, true);
    let v_3 = vec![];
    let res_2 = has_intersection(&v_1, &v_3);
    assert_eq!(res_2, false);
    let v_4 = vec![11, 12, 13, 14];
    let res_3 = has_intersection(&v_1, &v_4);
    assert_eq!(res_3, false);
}

#[test]
fn factorial_edges() {
    assert_eq!(factorial(0), 1);
    assert_eq!(factorial(20), 2432902008176640000);
}

#[test]
fn t_table() {
    assert_eq!(t_value_milli(0), 3747);
    assert_eq!(t_value_milli(4), 3747);
    assert_eq!(t_value_milli(5), 2896);
    assert_eq!(t_value_milli(16), 2583);
    assert_eq!(t_value_milli(17), 2457);
    assert_eq!(t_value_milli(64), 2390);
    assert_eq!(t_value_milli(128), 2358);
    assert_eq!(t_value_milli(129), 2326);
}

#[test]
fn vandermonde_coefficients() {
    let coding = create_vandermonde(3, 2);
    // vertex 3: (1 e1 + 3 e2) ∧ (1 e3 + 3 e4) = e13 + 3 e14 + 3 e23 + 9 e24
    let expect = ExTensor::new(&[1, 3, 3, 9], &[vec![1, 3], vec![1, 4], vec![2, 3], vec![2, 4]]);
    assert_eq!(coding[2], expect);
}
