use tpt_axiom::poly::{expect_equal, Polynomial};
use tpt_axiom::variance::{
    check_add_variance, check_div_variance, check_mul_variance, check_scale_variance, check_sub_variance, MEAN_A,
    MEAN_B, SCALE_K, VAR_A, VAR_B,
};

#[test]
fn add_variance_matches_reference() {
    assert!(check_add_variance().is_ok());
}

#[test]
fn sub_variance_matches_reference() {
    assert!(check_sub_variance().is_ok());
}

#[test]
fn scale_variance_matches_reference() {
    assert!(check_scale_variance().is_ok());
}

#[test]
fn mul_variance_matches_reference() {
    assert!(check_mul_variance().is_ok());
}

#[test]
fn div_variance_matches_reference() {
    assert!(check_div_variance().is_ok());
}

#[test]
fn correct_mul_variance_passes() {
    assert!(check_mul_variance().is_ok());
}

#[test]
fn dropped_term_is_caught() {
    // Drops the `Var(A)Var(B)` term from
    // `Var(AB) = Var(A)Var(B) + Var(A)E[B]^2 + Var(B)E[A]^2`.
    let v = Polynomial::variable;
    let broken = v(VAR_A).mul(v(MEAN_B)).mul(v(MEAN_B)).add(v(VAR_B).mul(v(MEAN_A)).mul(v(MEAN_A)));
    let reference = v(VAR_A)
        .mul(v(VAR_B))
        .add(v(VAR_A).mul(v(MEAN_B)).mul(v(MEAN_B)))
        .add(v(VAR_B).mul(v(MEAN_A)).mul(v(MEAN_A)));
    let mismatch = expect_equal(broken, reference).expect_err("dropped term must be rejected");
    let message = mismatch.to_string();
    assert!(
        message.contains("expected") && message.contains("found"),
        "diagnostic should be readable: {message}"
    );
}

#[test]
fn wrong_exponent_is_caught() {
    // `k * variance` instead of `k^2 * variance`.
    let k = Polynomial::variable(4);
    let var_a = Polynomial::variable(VAR_A);
    let broken = k.clone().mul(var_a.clone());
    let correct = (k.clone().mul(k)).mul(var_a);
    assert!(expect_equal(broken, correct).is_err());
}

#[test]
fn symbol_ids_are_distinct() {
    let ids = [MEAN_A, VAR_A, MEAN_B, VAR_B, SCALE_K];
    assert_eq!(ids, [0, 1, 2, 3, 4]);
}
