use stupid_ec::gcd::{egcd, extended_gcd};

fn reference_gcd(mut a: u64, mut b: u64) -> u64 {
    while b != 0 {
        let r = a % b;
        a = b;
        b = r;
    }
    a
}

fn check_coefficients(a: u64, n: u64) {
    let res = egcd(a, n);
    assert_eq!(reference_gcd(a, n), res.d);

    if res.d != 0 {
        assert!(a % res.d == 0);
        assert!(n % res.d == 0);
    }

    let (a, n) = if a > n { (n, a) } else { (a, n) };

    let ax = a as i128 * res.a_coeff as i128;
    let ny = n as i128 * res.n_coeff as i128;
    let d = res.d as i128;

    if res.negative {
        assert_eq!(-ax + ny, d);
    } else {
        assert_eq!(ax - ny, d);
    }
}

#[test]
fn test_gcd() {
    for a in 0..256u64 {
        for n in 0..256u64 {
            check_coefficients(a, n);
        }
    }
}

#[test]
fn gcd_fast_paths() {
    let zero = egcd(0, 17);
    assert_eq!((zero.d, zero.a_coeff, zero.n_coeff, zero.negative), (17, 0, 1, true));
    let multiple = egcd(5, 35);
    assert_eq!((multiple.d, multiple.a_coeff, multiple.n_coeff, multiple.negative), (5, 1, 0, false));
}

#[test]
fn gcd_large_inputs() {
    let a = 0xffff_ffff_ffff_ffc5u64;
    let b = 0x8000_0000_0000_001du64;
    check_coefficients(a, b);
    check_coefficients(25, 4999);
    check_coefficients(u64::MAX, u64::MAX - 1);
}

#[test]
fn extended_gcd_bezout() {
    let r = extended_gcd(25, 4999);
    assert_eq!(r.d, 1);
    let (ax, ny) = (25i128 * r.a_coeff as i128, 4999i128 * r.n_coeff as i128);
    assert_eq!(if r.negative { -ax + ny } else { ax - ny }, 1);
    let r = extended_gcd(12, 18);
    assert_eq!(r.d, 6);
}
