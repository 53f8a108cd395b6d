use bitrust::corrupt::{plan_corruption, CorruptError, INJECTED_BIT, SIZE_CEILING};

#[test]
fn corruption_plan_targets_bit_three() {
    assert_eq!(plan_corruption(100, 42), Ok((42, INJECTED_BIT)));
    assert_eq!(INJECTED_BIT, 3);
}

#[test]
fn corruption_refuses_files_over_the_ceiling() {
    assert_eq!(
        plan_corruption(SIZE_CEILING + 1, 0),
        Err(CorruptError::TooLarge)
    );
    assert_eq!(plan_corruption(SIZE_CEILING, 7), Ok((7, INJECTED_BIT)));
}
