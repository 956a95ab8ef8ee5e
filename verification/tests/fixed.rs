use promethee::fixed::{Fixed, SCALE};

#[test]
fn fixed_from_int_and_ratio() {
    assert_eq!(Fixed::from_int(3).to_raw(), 3 * SCALE);
    assert_eq!(Fixed::from_ratio(48, 10).to_raw(), 4_800_000_000_000);
    assert_eq!(Fixed::from_ratio(1, 3).to_raw(), 333_333_333_333);
    assert_eq!(Fixed::from_ratio(-1, 3).to_raw(), -333_333_333_333);
    assert_eq!(Fixed::from_ratio(1, -3).to_raw(), -333_333_333_333);
    assert_eq!(Fixed::from_ratio(-2, -3).to_raw(), 666_666_666_666);
    assert_eq!(Fixed::zero().to_raw(), 0);
}

#[test]
fn fixed_arithmetic() {
    let a = Fixed::from_ratio(35, 100);
    let b = Fixed::from_int(2);
    assert_eq!(a.add(b), Fixed::from_ratio(235, 100));
    assert_eq!(a.sub(b), Fixed::from_ratio(-165, 100));
    assert_eq!(a.mul(b), Fixed::from_ratio(70, 100));
    assert_eq!(a.div(b), Fixed::from_ratio(175, 1000));
    // Products and quotients are cut toward zero.
    let third = Fixed::from_ratio(1, 3);
    assert_eq!(third.mul(third).to_raw(), 111_111_111_110);
    assert_eq!(Fixed::from_int(-1).div(Fixed::from_int(3)).to_raw(), -333_333_333_333);
    assert_eq!(Fixed::from_raw(-7).mul(Fixed::from_ratio(1, 2)).to_raw(), -3);
}
