use stupid_ec::ec::{GeneralForm, Point};
use stupid_ec::fields::PrimeField4999;

fn el(v: i64) -> PrimeField4999 {
    PrimeField4999::integer_embed(v)
}

#[test]
fn j_invariant_round_trip() {
    for j in [1i64, 2, 5, 100, 1727, 1729, 3000, 4998] {
        let curve = GeneralForm::<4999>::from_j_invariant(el(j));
        assert_eq!(curve.j_invariant(), el(j), "j = {}", j);
    }
}

#[test]
fn special_j_invariants() {
    let zero = GeneralForm::<4999>::from_j_invariant(el(0));
    assert_eq!(zero.j_invariant(), el(0));
    let k = GeneralForm::<4999>::from_j_invariant(el(1728));
    assert_eq!(k.j_invariant(), el(1728));
    assert_eq!(k.discriminant(), el(-64));
}

#[test]
fn singular_curves() {
    let cusp = GeneralForm::new(el(0), el(0), el(0), el(0), el(0));
    assert!(cusp.has_cusp());
    assert!(!cusp.has_node());
    let node = GeneralForm::new(el(0), el(1), el(0), el(0), el(0));
    assert!(node.has_node());
    assert!(!node.has_cusp());
    let smooth = GeneralForm::<4999>::from_j_invariant(el(5));
    assert!(!smooth.has_node() && !smooth.has_cusp());
}

#[test]
fn points_and_negation() {
    let curve = GeneralForm::<4999>::from_j_invariant(el(0));
    let p = Point::Point((el(0), el(0)));
    assert!(curve.is_on_curve(&p));
    assert!(curve.is_on_curve(&Point::Infinity));
    assert!(!curve.is_on_curve(&Point::Point((el(1), el(0)))));
    match curve.negate(&p) {
        Point::Point((x, y)) => {
            assert_eq!(x, el(0));
            assert_eq!(y, el(-1));
            assert!(curve.is_on_curve(&Point::Point((x, y))));
        }
        Point::Infinity => panic!("negation of an affine point is affine"),
    }
    assert!(matches!(curve.negate(&Point::Infinity), Point::Infinity));
}
