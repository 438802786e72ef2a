use tpt_axiom::poly::{expect_equal, Polynomial};

#[test]
fn constants_fold() {
    assert_eq!(Polynomial::constant(0), Polynomial::zero());
    assert_eq!(Polynomial::constant(2).add(Polynomial::constant(3)), Polynomial::constant(5));
}

#[test]
fn commutative_and_associative_like_ordinary_arithmetic() {
    let a = Polynomial::variable(0);
    let b = Polynomial::variable(1);
    assert_eq!(a.clone().add(b.clone()), b.add(a));
}

#[test]
fn mul_expands_and_collects_like_terms() {
    // (a + b) * (a - b) == a^2 - b^2
    let a = Polynomial::variable(0);
    let b = Polynomial::variable(1);
    let lhs = (a.clone().add(b.clone())).mul(a.clone().sub(b.clone()));
    let rhs = a.clone().mul(a).sub(b.clone().mul(b));
    assert_eq!(lhs, rhs);
}

#[test]
fn different_expressions_same_polynomial_are_equal() {
    // 2*(a+1) - a  ==  a + 2, built two completely different ways.
    let a = Polynomial::variable(0);
    let lhs = (Polynomial::constant(2).mul(a.clone().add(Polynomial::constant(1)))).sub(a.clone());
    let rhs = a.add(Polynomial::constant(2));
    assert_eq!(lhs, rhs);
}

#[test]
fn display_renders_a_readable_form() {
    let a = Polynomial::variable(0);
    let p = a.clone().mul(a).sub(Polynomial::constant(4));
    assert_eq!(p.to_string(), "-4 + 1*v0*v0");
}

#[test]
fn zero_renders_and_tests_as_zero() {
    let a = Polynomial::variable(3);
    let z = a.clone().sub(a);
    assert!(z.is_zero());
    assert!(!Polynomial::constant(1).is_zero());
    assert_eq!(z.to_string(), "0");
    assert_eq!(Polynomial::variable(2).neg().to_string(), "-1*v2");
}

#[test]
fn terms_render_in_monomial_order() {
    let a = Polynomial::variable(0);
    let b = Polynomial::variable(1);
    let p = b.clone().mul(b).add(a.clone()).add(Polynomial::constant(3)).add(a.clone().mul(Polynomial::constant(-2)));
    assert_eq!(p.to_string(), "3 - 1*v0 + 1*v1*v1");
}

#[test]
fn expect_equal_returns_both_forms_on_mismatch() {
    let a = Polynomial::variable(0);
    let found = a.clone().add(Polynomial::constant(1));
    let expected = a.clone();
    let mismatch = expect_equal(found.clone(), expected.clone()).unwrap_err();
    assert_eq!(mismatch.found, found);
    assert_eq!(mismatch.expected, expected);
    assert_eq!(mismatch.to_string(), "expected `1*v0` but found `1 + 1*v0`");
    assert!(expect_equal(a.clone(), a).is_ok());
}

#[test]
fn equal_forms_evaluate_equally_on_a_sample() {
    // (a + 1)^2 and a^2 + 2a + 1 agree as polynomials.
    let a = Polynomial::variable(0);
    let one = Polynomial::constant(1);
    let lhs = a.clone().add(one.clone()).mul(a.clone().add(one.clone()));
    let rhs = a.clone().mul(a.clone()).add(Polynomial::constant(2).mul(a)).add(one);
    assert!(expect_equal(lhs, rhs).is_ok());
}

#[test]
fn product_laws_hold_on_samples() {
    let a = Polynomial::variable(0);
    let b = Polynomial::variable(1).add(Polynomial::constant(2));
    let c = Polynomial::variable(0).sub(Polynomial::variable(2));
    // commutativity
    assert_eq!(a.clone().mul(b.clone()), b.clone().mul(a.clone()));
    // associativity
    assert_eq!(a.clone().mul(b.clone()).mul(c.clone()), a.clone().mul(b.clone().mul(c.clone())));
    // distributivity
    assert_eq!(a.clone().mul(b.clone().add(c.clone())), a.clone().mul(b.clone()).add(a.clone().mul(c.clone())));
    // additive laws
    assert_eq!(a.clone().add(b.clone()).add(c.clone()), a.clone().add(b.clone().add(c.clone())));
    assert_eq!(b.clone().add(Polynomial::zero()), b);
    assert!(c.clone().sub(c).is_zero());
}

#[test]
fn additive_inverse_and_multiplicative_identities() {
    let a = Polynomial::variable(0);
    let b = Polynomial::variable(1);
    let p = a.clone().mul(b.clone()).add(Polynomial::constant(3)).sub(a.clone());
    assert!(p.clone().add(p.clone().neg()).is_zero());
    assert_eq!(p.clone().mul(Polynomial::constant(1)), p);
    assert!(p.clone().mul(Polynomial::zero()).is_zero());
    assert!(Polynomial::zero().mul(p).is_zero());
}
