use plonkit::prover::{check_setup_power_of_two, log2_ceil_of, verification_key_power_of_two, SetupError};

#[test]
fn log2_ceil_values() {
    assert_eq!(log2_ceil_of(0), 0);
    assert_eq!(log2_ceil_of(1), 0);
    assert_eq!(log2_ceil_of(2), 1);
    assert_eq!(log2_ceil_of(3), 2);
    assert_eq!(log2_ceil_of(4), 2);
    assert_eq!(log2_ceil_of(5), 3);
    assert_eq!(log2_ceil_of(1 << 40), 40);
    assert_eq!(log2_ceil_of((1 << 40) + 1), 41);
    assert_eq!(log2_ceil_of(usize::MAX / 2 + 1), usize::BITS - 1);
}

#[test]
fn log2_ceil_agrees_with_std() {
    for n in [0usize, 1, 2, 3, 7, 8, 9, 1000, 1 << 20, (1 << 20) + 1, 123456789] {
        assert_eq!(log2_ceil_of(n), n.next_power_of_two().trailing_zeros());
    }
}

#[test]
fn setup_power_ranges() {
    assert_eq!(check_setup_power_of_two(0), Ok(20));
    assert_eq!(check_setup_power_of_two(1000), Ok(20));
    assert_eq!(check_setup_power_of_two(1 << 20), Ok(20));
    assert_eq!(check_setup_power_of_two((1 << 20) + 1), Ok(21));
    assert_eq!(check_setup_power_of_two(1 << 26), Ok(26));
    assert_eq!(check_setup_power_of_two((1 << 26) + 1), Err(SetupError::PowerOfTwoOutOfRange));
}

#[test]
fn verification_key_power() {
    assert_eq!(verification_key_power_of_two(1), 20);
    assert_eq!(verification_key_power_of_two(1 << 20), 20);
    assert_eq!(verification_key_power_of_two(3_000_000), 22);
    assert_eq!(verification_key_power_of_two((1 << 26) + 1), 27);
}
