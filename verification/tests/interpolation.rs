use psi::{
    bytes_to_u32, divided_matrix, evaluate_poly, newton_interpolate, poly_mul_monomial,
    InterpError,
};
use rand::{thread_rng, Rng};

#[test]
fn test_byte_to_u32() {
    let bytes = vec![49, 255];
    let v = bytes_to_u32(&bytes);
    assert_eq!(v, 49 + 255 * 256);
}

#[test]
fn bytes_to_u32_of_nothing_and_of_four_bytes() {
    assert_eq!(bytes_to_u32(&[]), 0);
    assert_eq!(bytes_to_u32(&[0x78, 0x56, 0x34, 0x12]), 0x12345678);
}

#[test]
fn divided_difference_matrix_correct() {
    let x = vec![1, 2, 3, 4, 5, 6];
    let y: Vec<u32> = vec![1, 4, 2, 4, 1, 4];
    let matrix = divided_matrix(&x, &y, 65537).unwrap();
    assert_eq!(
        matrix,
        vec![
            vec![1, 3, 32766, 32770, 49152, 14200],
            vec![4, 65535, 2, 32767, 54615],
            vec![2, 2, 32766, 54616],
            vec![4, 65534, 3],
            vec![1, 3],
            vec![4],
        ]
    );
}

#[test]
fn poly_mul_monomial_works() {
    let mut x = vec![1, 4, 2, 4, 2, 4, 56, 6];
    poly_mul_monomial(&mut x, 3, 65537);
    assert_eq!(x, vec![65534, 65526, 65535, 65527, 65535, 65527, 65373, 38, 6]);
}

#[test]
fn newton_interpolate_small() {
    let x: Vec<u32> = vec![1, 2, 3, 4, 5, 6];
    let y: Vec<u32> = vec![1, 4, 2, 4, 1, 4];
    let coeffs = newton_interpolate(&x, &y, 65537).unwrap();
    assert_eq!(coeffs, vec![65465, 56950, 65428, 27343, 32763, 14200]);
    for i in 0..6 {
        assert_eq!(evaluate_poly(x[i], &coeffs, 65537), y[i]);
    }
}

#[test]
fn newton_interpolate_works() {
    let mut rng = thread_rng();
    let degree = 1300;
    let modq = 65537;

    let mut x = vec![];
    let mut y: Vec<u32> = vec![];

    while x.len() != degree {
        let tmp_x = rng.gen::<u32>() % modq;
        if !x.contains(&tmp_x) {
            x.push(tmp_x);
            y.push(rng.gen::<u32>() % modq);
        }
    }

    for _ in 0..3 {
        let coeffs = newton_interpolate(&x, &y, modq).unwrap();
        assert_eq!(coeffs.len(), degree);
        for i in 0..degree {
            let y_res = evaluate_poly(x[i], &coeffs, modq);
            assert_eq!(y_res, y[i]);
        }
    }
}

#[test]
fn newton_interpolate_of_no_points_is_empty() {
    let coeffs = newton_interpolate(&[], &[], 65537).unwrap();
    assert!(coeffs.is_empty());
    assert_eq!(evaluate_poly(17, &coeffs, 65537), 0);
}

#[test]
fn newton_interpolate_of_one_point_is_constant() {
    let coeffs = newton_interpolate(&[9], &[1234], 65537).unwrap();
    assert_eq!(coeffs, vec![1234]);
}

#[test]
fn repeated_abscissa_is_refused() {
    assert_eq!(newton_interpolate(&[1, 2, 1], &[5, 6, 7], 65537), Err(InterpError::RepeatedX));
    assert_eq!(divided_matrix(&[4, 4], &[1, 1], 65537), Err(InterpError::RepeatedX));
    // congruent modulo the modulus
    assert_eq!(newton_interpolate(&[1, 65538], &[5, 6], 65537), Err(InterpError::RepeatedX));
    // a difference that is no unit of a composite modulus
    assert_eq!(newton_interpolate(&[1, 3], &[0, 1], 4), Err(InterpError::RepeatedX));
}

#[test]
fn evaluate_poly_is_the_polynomial() {
    // 3 + 2 x + x^2 at 10
    assert_eq!(evaluate_poly(10, &[3, 2, 1], 65537), 123);
    assert_eq!(evaluate_poly(10, &[3, 2, 1], 100), 23);
    assert_eq!(evaluate_poly(0, &[7, 9], 65537), 7);
}
