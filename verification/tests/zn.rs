use notebook::zn::{extended_gcd, Zn};

#[test]
fn test_extended_gcd() {
    assert_eq!(extended_gcd(0, 3), (3, 0, 1));
    assert_eq!(extended_gcd(7, 0), (7, 1, 0));
    assert_eq!(extended_gcd(10, 20), (10, 1, 0));
    assert_eq!(extended_gcd(18, 30), (6, 2, -1));
}

#[test]
fn test_zn() {
    const MOD: u32 = 1000000007;
    type Z = Zn<MOD>;
    let n10 = Z::new(-10);
    let p12 = Z::new(12);
    let p20 = Z::new(20);
    let zero = Z::new(2 * MOD);
    let inv_20 = Z::new(850000006); // 1/20

    //constructor
    assert_eq!(n10.0, 999999997);
    assert_eq!(p12.0, 12);
    assert_eq!(zero.0, 0);

    // addition
    assert_eq!((n10 + p12).0, 2);

    // subtraction
    assert_eq!((n10 - p12).0, MOD - 22);

    // multiplication
    assert_eq!((n10 * p12).0, MOD - 120);
    assert_eq!((p20 * inv_20).0, 1);

    // division
    assert_eq!((p20 / p20).0, 1);
    assert_eq!((p20 / n10).0, MOD - 2);
    assert_eq!((Z::new(120) / Z::new(6)).0, 20);
}

#[test]
fn extended_gcd_combines_to_gcd() {
    for a in 0..60i64 {
        for b in 0..60i64 {
            let (d, x, y) = extended_gcd(a, b);
            assert_eq!(a * x + b * y, d);
            if a > 0 || b > 0 {
                assert!(d > 0);
                assert_eq!(a % d, 0);
                assert_eq!(b % d, 0);
                for c in (d + 1)..=60 {
                    assert!(a % c != 0 || b % c != 0);
                }
            } else {
                assert_eq!((d, x, y), (0, 1, 0));
            }
        }
    }
}

#[test]
fn extended_gcd_largest_values() {
    assert_eq!(extended_gcd(i64::MAX, i64::MAX), (i64::MAX, 0, 1));
    let (d, x, y) = extended_gcd(i64::MAX, i64::MAX - 1);
    assert_eq!(d, 1);
    assert_eq!((i64::MAX as i128) * (x as i128) + ((i64::MAX - 1) as i128) * (y as i128), 1);
    assert_eq!(extended_gcd(0, 0), (0, 1, 0));
}

#[test]
fn zn_new_takes_the_residue() {
    type Z = Zn<7>;
    assert_eq!(Z::new(0i64).0, 0);
    assert_eq!(Z::new(7i64).0, 0);
    assert_eq!(Z::new(-1i64).0, 6);
    assert_eq!(Z::new(-7i64).0, 0);
    assert_eq!(Z::new(-8i64).0, 6);
    assert_eq!(Z::new(i64::MAX).0, (i64::MAX % 7) as u32);
    assert_eq!(Z::new(i64::MIN).0, (i64::MIN.rem_euclid(7)) as u32);
    assert_eq!(Z::new(200u8).0, 4);
    assert_eq!(Zn::<1>::new(5).0, 0);
    assert_eq!(Zn::<{ u32::MAX }>::new(-1i64).0, u32::MAX - 1);
}

#[test]
fn zn_inverse_is_inverse() {
    type Z = Zn<13>;
    for v in 1..13u32 {
        let inv = Z::new(v).inverse();
        assert!(inv.0 < 13);
        assert_eq!((v * inv.0) % 13, 1);
    }
    // coprime to a composite modulus
    assert_eq!(Zn::<10>::new(3).inverse().0, 7);
    assert_eq!(Zn::<10>::new(9).inverse().0, 9);
    assert_eq!(Zn::<1>::new(0).inverse().0, 0);
}

#[test]
fn zn_operators() {
    type Z = Zn<11>;
    assert_eq!((Z::new(7) + Z::new(9)).0, 5);
    assert_eq!((Z::new(3) - Z::new(9)).0, 5);
    assert_eq!((Z::new(7) * Z::new(9)).0, 8);
    assert_eq!((Z::new(7) / Z::new(9)).0, 2);
    let big = Zn::<{ u32::MAX }>::new((u32::MAX - 1) as i64);
    assert_eq!((big * big).0, 1);
}
