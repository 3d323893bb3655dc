use rand::Rng;
use sumcheck_core::field::FieldElement;
use sumcheck_core::polynomial::{MultiVariatePolynomial, PolyError, Term};
use sumcheck_core::prover::Prover;

fn fe(x: u64) -> FieldElement {
    FieldElement::from_u64(x)
}

fn term(exponents: Vec<u64>, coeff: u64) -> Term {
    Term { exponents, coeff: fe(coeff) }
}

/// The polynomial 3*x^2*y + 5*y^2 + 7 over two variables.
fn example_poly() -> MultiVariatePolynomial {
    let terms = vec![term(vec![2, 1], 3), term(vec![0, 2], 5), term(vec![0, 0], 7)];
    MultiVariatePolynomial::new(2, terms).unwrap()
}

#[test]
fn test_multivariate_polynomial_evaluation_and_univariate_extraction() {
    // Example: f(x, y) = 3*x^2*y + 5*y^2 + 7
    let poly = example_poly();

    // Evaluate f(2, 3) = 3*(2^2)*(3) + 5*(3^2) + 7 = 36 + 45 + 7 = 88
    let x = fe(2);
    let y = fe(3);
    let result = poly.evaluate(&vec![x, y]).unwrap();

    assert_eq!(result, fe(88));

    // Fix y = 3 and extract a univariate polynomial in x:
    // f(x, 3) = 9*x^2 + 52, so evaluating at x = 2 gives 88 again.
    let uni_poly = poly.get_univariate_at_round(0, &vec![x, y]).unwrap();
    let eval_univariate = uni_poly.evaluate(x);

    assert_eq!(eval_univariate, result);

    // Randomized sanity check: evaluate f(x, y) and the extracted univariate
    // polynomial at the same (x, y).
    let mut rng = rand::thread_rng();
    let rand_x = fe(rng.gen());
    let rand_y = fe(rng.gen());

    let fxy = poly.evaluate(&vec![rand_x, rand_y]).unwrap();
    let uni_poly_y_fixed = poly.get_univariate_at_round(0, &vec![rand_x, rand_y]).unwrap();
    let fx_from_uni = uni_poly_y_fixed.evaluate(rand_x);

    assert_eq!(
        fxy, fx_from_uni,
        "Evaluation mismatch between f(x,y) and sliced univariate polynomial"
    );
}

#[test]
fn test_round0_concrete_coefficients() {
    // With y = 3 fixed, round 0 of the example polynomial is 9*x^2 + 52.
    let poly = example_poly();
    let uni = poly.get_univariate_at_round(0, &vec![fe(2), fe(3)]).unwrap();

    assert_eq!(uni.num_entries(), 2);
    assert_eq!(uni.coeff_of(2), fe(9));
    assert_eq!(uni.coeff_of(0), fe(52));
    assert_eq!(uni.coeff_of(1), fe(0));
    assert_eq!(uni.evaluate(fe(2)), fe(88));
}

#[test]
fn test_degree_aggregation_sums_colliding_terms() {
    // 3*x*y^2 and 5*x both land on degree 1 of x once y is folded away:
    // with y = 2 their partial coefficients 12 and 5 must be summed.
    let terms = vec![term(vec![1, 2], 3), term(vec![1, 0], 5)];
    let poly = MultiVariatePolynomial::new(2, terms).unwrap();
    let uni = poly.get_univariate_at_round(0, &vec![fe(0), fe(2)]).unwrap();

    assert_eq!(uni.num_entries(), 1);
    assert_eq!(uni.coeff_of(1), fe(17));
}

#[test]
fn test_equal_exponent_vectors_are_summed() {
    // Two terms stored under the same exponent vector contribute both.
    let terms = vec![term(vec![0, 0], 5), term(vec![0, 0], 7)];
    let poly = MultiVariatePolynomial::new(2, terms).unwrap();

    assert_eq!(poly.evaluate(&vec![fe(4), fe(9)]).unwrap(), fe(12));

    let uni = poly.get_univariate_at_round(0, &vec![fe(4), fe(9)]).unwrap();
    assert_eq!(uni.num_entries(), 1);
    assert_eq!(uni.coeff_of(0), fe(12));
}

#[test]
fn test_round_extraction_consistent_every_round() {
    // For a full assignment, extracting round i and evaluating at the i-th
    // value must equal evaluating the whole polynomial, for every i.
    let poly = example_poly();
    let mut rng = rand::thread_rng();

    let assignments = vec![vec![fe(2), fe(3)], vec![fe(7), fe(11)], vec![
        fe(rng.gen()),
        fe(rng.gen()),
    ]];
    for point in assignments {
        let full = poly.evaluate(&point).unwrap();
        for i in 0..2 {
            let uni = poly.get_univariate_at_round(i, &point).unwrap();
            assert_eq!(uni.evaluate(point[i]), full);
        }
    }
}

#[test]
fn test_prover_round_sequencing() {
    // Driven through n rounds, the prover hands out exactly the round-k
    // extraction of the original polynomial under the first k challenges.
    let poly = example_poly();
    let mut prover = Prover::new(poly.clone());
    let challenges = vec![fe(5), fe(3)];

    let round0 = prover.get_next_polynomial().unwrap();
    let direct0 = poly.get_univariate_at_round(0, &vec![]).unwrap();
    assert!(round0.equals(&direct0));

    prover.receive_challenge(challenges[0]).unwrap();

    let round1 = prover.get_next_polynomial().unwrap();
    let direct1 = poly.get_univariate_at_round(1, &vec![challenges[0]]).unwrap();
    assert!(round1.equals(&direct1));

    prover.receive_challenge(challenges[1]).unwrap();

    // All variables have received a challenge: the rounds are exhausted.
    assert!(matches!(prover.get_next_polynomial(), Err(PolyError::RoundIndexExhausted)));
    assert!(matches!(prover.receive_challenge(fe(1)), Err(PolyError::RoundIndexExhausted)));
}

#[test]
fn test_run_rounds_matches_direct_extraction() {
    let poly = example_poly();
    let challenges = vec![fe(6), fe(10)];
    let rounds = Prover::run_rounds(poly.clone(), &challenges);

    assert_eq!(rounds.len(), 2);
    let direct0 = poly.get_univariate_at_round(0, &vec![]).unwrap();
    let direct1 = poly.get_univariate_at_round(1, &vec![challenges[0]]).unwrap();
    assert!(rounds[0].equals(&direct0));
    assert!(rounds[1].equals(&direct1));
}

#[test]
fn test_get_next_polynomial_is_idempotent() {
    let poly = example_poly();
    let mut prover = Prover::new(poly);

    let first = prover.get_next_polynomial().unwrap();
    let second = prover.get_next_polynomial().unwrap();
    assert!(first.equals(&second));

    prover.receive_challenge(fe(4)).unwrap();

    let third = prover.get_next_polynomial().unwrap();
    let fourth = prover.get_next_polynomial().unwrap();
    assert!(third.equals(&fourth));
}

#[test]
fn test_evaluate_rejects_short_point() {
    let poly = example_poly();
    assert_eq!(poly.evaluate(&vec![fe(2)]), Err(PolyError::VariableCountMismatch));
    assert_eq!(poly.evaluate(&vec![]), Err(PolyError::VariableCountMismatch));

    // Extra entries beyond the variable count are ignored.
    assert_eq!(poly.evaluate(&vec![fe(2), fe(3), fe(99)]).unwrap(), fe(88));
}

#[test]
fn test_new_rejects_mismatched_exponent_vectors() {
    let bad = vec![term(vec![2, 1], 3), term(vec![0, 2, 1], 5)];
    assert!(matches!(
        MultiVariatePolynomial::new(2, bad),
        Err(PolyError::VariableCountMismatch)
    ));

    let empty = MultiVariatePolynomial::new(2, vec![]).unwrap();
    assert_eq!(empty.evaluate(&vec![fe(1), fe(2)]).unwrap(), fe(0));
}

#[test]
fn test_get_univariate_rejects_bad_round_and_long_assignment() {
    let poly = example_poly();
    assert!(matches!(
        poly.get_univariate_at_round(2, &vec![fe(1), fe(2)]),
        Err(PolyError::RoundIndexExhausted)
    ));
    assert!(matches!(
        poly.get_univariate_at_round(0, &vec![fe(1), fe(2), fe(3)]),
        Err(PolyError::VariableCountMismatch)
    ));

    // An assignment shorter than the variable count leaves the missing
    // positions unmultiplied: with no values fixed, round 0 of the example
    // keeps each term's bare coefficient.
    let uni = poly.get_univariate_at_round(0, &vec![]).unwrap();
    assert_eq!(uni.coeff_of(2), fe(3));
    assert_eq!(uni.coeff_of(0), fe(12));
}

#[test]
fn test_empty_polynomial_round_extraction() {
    let empty = MultiVariatePolynomial::new(2, vec![]).unwrap();
    let uni = empty.get_univariate_at_round(0, &vec![]).unwrap();
    assert_eq!(uni.num_entries(), 0);
    assert_eq!(uni.evaluate(fe(37)), fe(0));
    assert_eq!(uni.coeff_of(0), fe(0));
}

#[test]
fn test_zero_variable_polynomial_exhausts_immediately() {
    let constant = MultiVariatePolynomial::new(0, vec![term(vec![], 5)]).unwrap();
    assert_eq!(constant.evaluate(&vec![]).unwrap(), fe(5));

    let mut prover = Prover::new(constant);
    assert!(matches!(prover.get_next_polynomial(), Err(PolyError::RoundIndexExhausted)));
    assert!(matches!(prover.receive_challenge(fe(1)), Err(PolyError::RoundIndexExhausted)));
}

#[test]
fn test_field_arithmetic() {
    // The modulus is the Mersenne prime 2^31 - 1.
    let modulus: u64 = 2147483647;

    assert_eq!(fe(modulus).as_u64(), 0);
    assert_eq!(fe(modulus + 4).as_u64(), 4);
    assert_eq!(FieldElement::zero(), fe(0));
    assert_eq!(FieldElement::one(), fe(1));

    // Wrap-around addition.
    assert_eq!(fe(modulus - 1).add(fe(5)).as_u64(), 4);
    // 2^20 * 2^20 = 2^40 = 2^9 * 2^31 = 512 modulo 2^31 - 1.
    assert_eq!(fe(1 << 20).mul(fe(1 << 20)).as_u64(), 512);
    // 2^31 = 1 modulo 2^31 - 1.
    assert_eq!(fe(2).pow(31).as_u64(), 1);
    assert_eq!(fe(3).pow(4).as_u64(), 81);
    assert_eq!(fe(7).pow(0).as_u64(), 1);
    assert_eq!(fe(0).pow(0).as_u64(), 1);
    assert_eq!(fe(10).mul(FieldElement::zero()).as_u64(), 0);
}
