use stupid_ec::fields::PrimeField4999;
use stupid_ec::poly::DensePolynomial;

#[test]
fn basic_construction() {
    let zero: DensePolynomial<4999> = DensePolynomial::zero();
    assert!(zero.is_zero());
    assert!(zero.degree().is_none());
    assert!(zero.coeff(42).is_zero());
    let values: [i64; 7] = [1, 2, 3, 4, 5, 18, 0];
    let f: DensePolynomial<4999> = DensePolynomial::new_integers(values.to_vec());
    let g: DensePolynomial<4999> =
        DensePolynomial::new_degree_list_integers(vec![(0, 1), (1, 2), (2, 3), (3, 4), (4, 5), (5, 18)]);
    for i in 0..values.len() {
        assert_eq!(f.coeff(i), PrimeField4999::integer_embed(values[i]));
        assert_eq!(g.coeff(i), PrimeField4999::integer_embed(values[i]));
    }

    assert_eq!(f.degree(), Some(5));
    assert_eq!(g.degree(), Some(5));
    assert_eq!(f, g);
}

#[test]
fn evaluation() {
    // x^4 + 3 x^ 2 + 2 x + 1
    let f = DensePolynomial::<4999>::new_integers(vec![1, 2, 3, 0, 1]);

    assert_eq!(f.evaluate(PrimeField4999::zero()), PrimeField4999::one());
    assert_eq!(f.evaluate(PrimeField4999::one()), PrimeField4999::integer_embed(7));
    assert_eq!(
        f.evaluate(PrimeField4999::integer_embed(15)),
        PrimeField4999::integer_embed(1341)
    );
}

#[test]
fn shift() {
    // x^4 + 1
    let f: DensePolynomial<4999> = DensePolynomial::new_degree_list_integers(vec![(0, 1), (4, 1)]);

    // x^7 + x^3
    let g = DensePolynomial::new_degree_list_integers(vec![(3, 1), (7, 1)]);

    assert_eq!(f.shift(3), g);
}

#[test]
fn division_by_linear_factor() {
    let first = DensePolynomial::<4999>::new_integers(vec![-4, 0, -2, 1]);
    let second = DensePolynomial::<4999>::new_integers(vec![-3, 1]);
    let (q, r) = first.div_quotient_rem(&second);
    assert_eq!(q, DensePolynomial::new_integers(vec![3, 1, 1]));
    assert_eq!(r, DensePolynomial::new_integers(vec![5]));
    assert_eq!(second.mult(&q).add(&r), first);
}

#[test]
fn division_edge_cases() {
    let small = DensePolynomial::<4999>::new_integers(vec![1, 2]);
    let big = DensePolynomial::<4999>::new_integers(vec![1, 0, 0, 7]);
    let (q, r) = small.div_quotient_rem(&big);
    assert!(q.is_zero());
    assert_eq!(r, small);
    let (q, r) = big.div_quotient_rem(&big);
    assert_eq!(q, DensePolynomial::new_integers(vec![1]));
    assert!(r.is_zero());
    let zero = DensePolynomial::<4999>::zero();
    let (q, r) = zero.div_quotient_rem(&small);
    assert!(q.is_zero() && r.is_zero());
}

#[test]
fn ring_operations() {
    let f = DensePolynomial::<4999>::new_integers(vec![1, 1]);
    let g = DensePolynomial::<4999>::new_integers(vec![-1, 1]);
    // (x + 1)(x - 1) = x^2 - 1
    assert_eq!(f.mult(&g), DensePolynomial::new_integers(vec![-1, 0, 1]));
    assert_eq!(f.add(&g), DensePolynomial::new_integers(vec![0, 2]));
    assert_eq!(f.add(&f.negate()), DensePolynomial::zero());
    assert_eq!(f.leading(), PrimeField4999::one());
    assert_eq!(DensePolynomial::<4999>::zero().leading(), PrimeField4999::zero());
    assert_eq!(f.mult(&DensePolynomial::zero()), DensePolynomial::zero());
    let h = DensePolynomial::<4999>::new_integers(vec![0, 0, 4999]);
    assert!(h.is_zero());
    assert_eq!(DensePolynomial::<4999>::zero().shift(5), DensePolynomial::zero());
}

#[test]
fn degree_list_last_entry_wins() {
    let f = DensePolynomial::<4999>::new_degree_list_integers(vec![(2, 5), (2, 0), (0, 3)]);
    assert_eq!(f, DensePolynomial::new_integers(vec![3]));
    let c = DensePolynomial::<4999>::new_degree_list(vec![(0, PrimeField4999::integer_embed(9))]);
    assert_eq!(c.degree(), Some(0));
    assert_eq!(c.coeff(0).el, 9);
}

#[test]
fn rendering() {
    let f = DensePolynomial::<4999>::new_integers(vec![1, 2, 3, 4, 5]);
    assert_eq!(f.render(), "5 x^4 + 4 x^3 + 3 x^2 + 2 x + 1");
    assert_eq!(DensePolynomial::<4999>::zero().render(), "0");
    let q = DensePolynomial::<4999>::new_integers(vec![3, 1, 1]);
    assert_eq!(q.render(), " x^2 +  x + 3");
    let g = DensePolynomial::<4999>::new_integers(vec![1, 0, 0, 0, 0, 0, 0, 0, 0, 0, 0, 4998]);
    assert_eq!(g.render(), "4998 x^11 + 1");
    assert_eq!(DensePolynomial::<4999>::new_integers(vec![0, 1]).render(), " x");
}
