use byte_arithmetic::base256::{add_scalar_overflow, sub_scalar_underflow, Base256, Base256Error};

fn b(bytes: &[u8]) -> Base256 {
    Base256::new(bytes.to_vec())
}

#[test]
fn test_scalar_add() {
    assert_eq!(add_scalar_overflow(0, 1, 0), (1, 0));
    assert_eq!(add_scalar_overflow(255, 1, 0), (0, 1));
    assert_eq!(add_scalar_overflow(255, 255, 2), (0, 2));
}

#[test]
fn test_scalar_sub_direct() {
    assert_eq!(sub_scalar_underflow(5, 8, 0), (252, 1));
    assert_eq!(sub_scalar_underflow(1, 0, 0), (1, 0));
    assert_eq!(sub_scalar_underflow(1, 0, 1), (0, 0));
}

#[test]
fn test_scalar() {
    assert_eq!(
        Base256::new(vec![0]) + Base256::new(vec![1]),
        Base256::new(vec![1])
    );
}

#[test]
fn test_scalar_sub() {
    assert_eq!(
        Base256::new(vec![30]) - Base256::new(vec![25]),
        Base256::new(vec![5])
    );
}

#[test]
fn test_multiple_sub() {
    assert_eq!(
        Base256::new(vec![30, 200]) - Base256::new(vec![30, 170]),
        Base256::new(vec![0, 30])
    );
}

#[test]
fn test_underflow_multiple_sub() {
    assert_eq!(
        Base256::new(vec![200, 200]) - Base256::new(vec![0, 255]),
        Base256::new(vec![199, 200])
    );
}

#[test]
fn test_multiple() {
    assert_eq!(
        Base256::new(vec![1, 2, 3]) + Base256::new(vec![2, 2, 2]),
        Base256::new(vec![3, 4, 5])
    );
}

#[test]
fn test_overflow_multiple() {
    assert_eq!(
        Base256::new(vec![255, 255, 255]) + Base256::new(vec![1]),
        Base256::new(vec![1, 0, 0, 0])
    );
}

#[test]
fn test_scalar_mult() {
    assert_eq!(
        Base256::new(vec![1, 1, 1]).scalar_multiply(3),
        Base256::new(vec![3, 3, 3])
    );
}

#[test]
fn test_scalar_wrapped_mult() {
    assert_eq!(
        Base256::new(vec![1, 1, 1]).wrapped_scalar_multiply(40, 3),
        Base256::new(vec![40, 40, 40])
    );
}

#[test]
fn test_wrapped_addition() {
    assert_eq!(
        Base256::new(vec![255, 255]).wrapped_add(Base256::new(vec![0, 1]), 2),
        Base256::new(vec![0, 0])
    );

    assert_eq!(
        Base256::new(vec![0, 0]).wrapped_add(Base256::new(vec![0, 1]), 2),
        Base256::new(vec![0, 1])
    );
}

#[test]
fn addition_commutes_on_unequal_lengths() {
    assert_eq!(b(&[1, 255]) + b(&[3]), b(&[2, 2]));
    assert_eq!(b(&[3]) + b(&[1, 255]), b(&[2, 2]));
}

#[test]
fn adding_aligned_zeros_keeps_value() {
    assert_eq!(b(&[5, 6]) + b(&[0, 0]), b(&[5, 6]));
    assert_eq!(b(&[5, 6]) + b(&[0]), b(&[5, 6]));
}

#[test]
fn addition_keeps_leading_zeros() {
    assert_eq!(b(&[0, 0, 1]) + b(&[2]), b(&[0, 0, 3]));
}

#[test]
fn addition_of_empties_is_empty() {
    assert_eq!(Base256::empty() + Base256::empty(), Base256::empty());
    assert_eq!(Base256::empty() + b(&[7]), b(&[7]));
}

#[test]
fn named_addition_matches_operator() {
    assert_eq!(b(&[1, 2, 3]).plus(b(&[1, 2, 3])), b(&[2, 4, 6]));
    assert_eq!(b(&[128]).plus(b(&[128])), b(&[1, 0]));
}

#[test]
fn subtraction_then_addition_restores() {
    let a = b(&[30, 200]);
    let c = b(&[30, 170]);
    assert_eq!((a.clone() - c.clone()) + c, a);
    let d = b(&[9, 9, 9]);
    let e = b(&[4, 5]);
    assert_eq!((d.clone() - e.clone()) + e, d);
}

#[test]
fn subtraction_borrow_takes_255() {
    assert_eq!(b(&[1, 0]) - b(&[0, 1]), b(&[0, 254]));
    assert_eq!(b(&[1, 0, 0]) - b(&[0, 0, 1]), b(&[0, 255, 254]));
}

#[test]
fn subtraction_of_equal_values_is_zero() {
    assert_eq!(b(&[4, 4]) - b(&[4, 4]), b(&[0, 0]));
}

#[test]
fn subtract_reports_underflow() {
    assert_eq!(b(&[1]).subtract(b(&[2])), Err(Base256Error::Underflow));
    assert_eq!(b(&[1, 0]).subtract(b(&[9])), Err(Base256Error::Underflow));
    assert_eq!(b(&[1]).subtract(b(&[1, 0])), Err(Base256Error::Underflow));
    assert_eq!(Base256::empty().subtract(b(&[0])), Err(Base256Error::Underflow));
}

#[test]
fn subtract_succeeds_in_byte_order() {
    assert_eq!(b(&[200, 200]).subtract(b(&[0, 255])), Ok(b(&[199, 200])));
    assert_eq!(b(&[5]).subtract(b(&[5])), Ok(b(&[0])));
    assert_eq!(b(&[9]).subtract(b(&[1, 0])), Ok(b(&[254, 9])));
}

#[test]
fn xor_with_self_is_zero() {
    assert_eq!(b(&[1, 2, 3]) ^ b(&[1, 2, 3]), b(&[0, 0, 0]));
    assert_eq!(Base256::empty() ^ Base256::empty(), Base256::empty());
}

#[test]
fn xor_aligns_at_front_and_commutes() {
    assert_eq!(b(&[1, 2, 7]) ^ b(&[3]), b(&[2, 2, 7]));
    assert_eq!(b(&[3]) ^ b(&[1, 2, 7]), b(&[2, 2, 7]));
    assert_eq!(b(&[0xf0, 0x0f]).xor(b(&[0xff, 0xff])), b(&[0x0f, 0xf0]));
}

#[test]
fn scalar_multiply_by_zero_is_single_zero() {
    assert_eq!(b(&[7, 8]).scalar_multiply(0), b(&[0]));
    assert_eq!(Base256::empty().scalar_multiply(0), b(&[0]));
}

#[test]
fn scalar_multiply_grows() {
    assert_eq!(b(&[1, 2, 3]) * 3, b(&[3, 6, 9]));
    assert_eq!(b(&[255]).scalar_multiply(255), b(&[254, 1]));
    assert_eq!(b(&[0, 1]).scalar_multiply(1), b(&[0, 1]));
}

#[test]
fn wrapped_add_without_truncation() {
    assert_eq!(b(&[255, 255]).wrapped_add(b(&[0, 1]), 3), b(&[1, 0, 0]));
    assert_eq!(b(&[1]).wrapped_add(b(&[1]), 4), b(&[2]));
}

#[test]
fn wrapped_add_to_zero_width() {
    assert_eq!(b(&[1, 2]).wrapped_add(b(&[3]), 0), Base256::empty());
}

#[test]
fn wrapped_scalar_multiply_truncates_each_step() {
    assert_eq!(b(&[200]).wrapped_scalar_multiply(2, 1), b(&[144]));
    assert_eq!(b(&[255]).wrapped_scalar_multiply(3, 1), b(&[253]));
    assert_eq!(b(&[9]).wrapped_scalar_multiply(0, 1), b(&[0]));
}

#[test]
fn bytes_round_trip() {
    let bytes = vec![0u8, 1, 2, 255];
    assert_eq!(Base256::new(bytes.clone()).into_bytes(), bytes);
    let back: Vec<u8> = Vec::from(Base256::from(bytes.clone()));
    assert_eq!(back, bytes);
    assert_eq!(Base256::new(bytes.clone()).as_bytes(), &bytes);
    assert_eq!(Base256::new(bytes.clone()).len(), 4);
    assert_eq!(Base256::empty().into_bytes(), Vec::<u8>::new());
}

#[test]
fn ordering_is_lexicographic() {
    assert!(b(&[9]) > b(&[1, 0]));
    assert!(b(&[0, 1]) != b(&[1]));
}
