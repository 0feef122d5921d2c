use hlife::util::{log2_upper_bigu, make_2x2, make_3x3, try_log2_upper_bigu, try_make_2x2};
use num::{BigUint, FromPrimitive};

#[test]
fn test_log2_upper() {
    assert_eq!(log2_upper_bigu(&BigUint::from_u32(6).unwrap()), 3);
    assert_eq!(log2_upper_bigu(&BigUint::from_u32(8).unwrap()), 3);
}

#[test]
fn log2_upper_at_powers_of_two() {
    assert_eq!(log2_upper_bigu(&BigUint::from(1u8)), 0);
    assert_eq!(log2_upper_bigu(&BigUint::from(2u8)), 1);
    assert_eq!(log2_upper_bigu(&BigUint::from(3u8)), 2);
    assert_eq!(log2_upper_bigu(&BigUint::from(9u8)), 4);
    assert_eq!(log2_upper_bigu(&(BigUint::from(1u8) << 100u32)), 100);
    assert_eq!(log2_upper_bigu(&((BigUint::from(1u8) << 100u32) + 1u32)), 101);
}

#[test]
fn log2_upper_of_zero_is_nothing() {
    assert_eq!(try_log2_upper_bigu(&BigUint::from(0u8)), None);
    assert_eq!(try_log2_upper_bigu(&BigUint::from(1u8)), Some(0));
    assert_eq!(try_log2_upper_bigu(&BigUint::from(1000u32)), Some(10));
    assert_eq!(try_log2_upper_bigu(&BigUint::from(1024u32)), Some(10));
    assert_eq!(try_log2_upper_bigu(&BigUint::from(1025u32)), Some(11));
}

#[test]
fn arrays_from_positions() {
    assert_eq!(make_2x2(|i, j| 10 * i + j), [[0, 1], [10, 11]]);
    assert_eq!(make_3x3(|i, j| 10 * i + j), [[0, 1, 2], [10, 11, 12], [20, 21, 22]]);
    let ok: Result<[[usize; 2]; 2], ()> = try_make_2x2(|i, j| Ok(i + j));
    assert_eq!(ok, Ok([[0, 1], [1, 2]]));
    let err: Result<[[usize; 2]; 2], usize> = try_make_2x2(|i, j| if i == 1 { Err(10 * i + j) } else { Ok(0) });
    assert_eq!(err, Err(10));
}
