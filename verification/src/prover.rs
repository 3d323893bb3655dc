//! The stateful prover: owns a multivariate polynomial and walks through its
//! variables one round at a time, handing out the round's univariate
//! polynomial and folding in each verifier-chosen challenge.

use crate::field::{all_reduced, residues, FieldElement};
use crate::polynomial::{
    extract_entries, MultiVariatePolynomial, PolyError, UnivariatePolynomial,
};
use vstd::pervasive::unreached;
use vstd::prelude::*;

verus! {

/// A prover in state `Round(k)` holds the polynomial, the current round `k`,
/// and the `k` challenges received so far.
pub struct Prover {
    polynomial: MultiVariatePolynomial,
    current_round: usize,
    values_so_far: Vec<FieldElement>,
}

impl Prover {
    /// The terms of the owned polynomial.
    pub closed spec fn polynomial_terms(self) -> Seq<(Seq<nat>, nat)> {
        self.polynomial@
    }

    /// The variable count of the owned polynomial.
    pub closed spec fn spec_num_vars(self) -> nat {
        self.polynomial.spec_num_vars()
    }

    /// The current round.
    pub closed spec fn round(self) -> nat {
        self.current_round as nat
    }

    /// The residues of the challenges received so far, in order.
    pub closed spec fn challenges(self) -> Seq<nat> {
        residues(self.values_so_far@)
    }

    /// The owned polynomial is well formed, one challenge has been recorded
    /// per finished round, and no round past the variable count has begun.
    pub closed spec fn wf(self) -> bool {
        &&& self.polynomial.wf()
        &&& self.values_so_far@.len() == self.current_round
        &&& self.current_round <= self.polynomial.spec_num_vars()
        &&& all_reduced(self.values_so_far@)
    }

    /// Takes ownership of the polynomial and starts in round 0 with no
    /// challenges recorded.
    pub fn new(polynomial: MultiVariatePolynomial) -> (p: Prover)
        requires
            polynomial.wf(),
        ensures
            p.wf(),
            p.polynomial_terms() == polynomial@,
            p.spec_num_vars() == polynomial.spec_num_vars(),
            p.round() == 0,
            p.challenges() == Seq::<nat>::empty(),
    {
        let values_so_far: Vec<FieldElement> = Vec::new();
        proof {
            assert(residues(values_so_far@) =~= Seq::<nat>::empty());
        }
        Prover { polynomial, current_round: 0, values_so_far }
    }

    /// The univariate polynomial of the current round: the round extraction
    /// of the owned polynomial under the challenges received so far. Does not
    /// change the prover, so repeated calls return the same polynomial; once
    /// every variable has received a challenge it reports the rounds as
    /// exhausted.
    pub fn get_next_polynomial(&self) -> (result: Result<UnivariatePolynomial, PolyError>)
        requires
            self.wf(),
        ensures
            (match result {
                Ok(u) => {
                    &&& self.round() < self.spec_num_vars()
                    &&& u.wf()
                    &&& u@ == extract_entries(
                        self.polynomial_terms(),
                        self.round() as int,
                        self.challenges(),
                    )
                },
                Err(e) => {
                    &&& e == PolyError::RoundIndexExhausted
                    &&& self.round() >= self.spec_num_vars()
                },
            }),
    {
        self.polynomial.get_univariate_at_round(self.current_round, &self.values_so_far)
    }

    /// Records the challenge for the current round and moves to the next
    /// one; once every variable has received a challenge it reports the
    /// rounds as exhausted and leaves the prover unchanged.
    pub fn receive_challenge(&mut self, challenge: FieldElement) -> (result: Result<
        (),
        PolyError,
    >)
        requires
            old(self).wf(),
            challenge.wf(),
        ensures
            (match result {
                Ok(()) => {
                    &&& old(self).round() < old(self).spec_num_vars()
                    &&& final(self).wf()
                    &&& final(self).round() == old(self).round() + 1
                    &&& final(self).challenges() == old(self).challenges().push(challenge@)
                    &&& final(self).polynomial_terms() == old(self).polynomial_terms()
                    &&& final(self).spec_num_vars() == old(self).spec_num_vars()
                },
                Err(e) => {
                    &&& e == PolyError::RoundIndexExhausted
                    &&& old(self).round() >= old(self).spec_num_vars()
                    &&& *final(self) == *old(self)
                },
            }),
    {
        if self.current_round >= self.polynomial.num_vars() {
            return Err(PolyError::RoundIndexExhausted);
        }
        self.values_so_far.push(challenge);
        self.current_round = self.current_round + 1;
        proof {
            assert(residues(self.values_so_far@) =~= residues(old(self).values_so_far@).push(
                challenge@,
            ));
        }
        Ok(())
    }

    /// Idempotence of the read-only round query: `get_next_polynomial`
    /// borrows the prover immutably and pins its result to the prover's
    /// state alone, so any two results it hands out for the same state —
    /// in particular two calls with no challenge received in between — are
    /// the same polynomial.
    pub proof fn lemma_get_next_polynomial_deterministic(
        self,
        u1: UnivariatePolynomial,
        u2: UnivariatePolynomial,
    )
        requires
            u1@ == extract_entries(self.polynomial_terms(), self.round() as int, self.challenges()),
            u2@ == extract_entries(self.polynomial_terms(), self.round() as int, self.challenges()),
        ensures
            u1@ == u2@,
    {
    }

    /// Drives a full protocol run over `polynomial`, feeding back one
    /// challenge per variable: the polynomial handed out at round `k` is the
    /// round-`k` extraction of the original polynomial under exactly the
    /// first `k` challenges, as if `get_univariate_at_round` had been called
    /// on it directly.
    pub fn run_rounds(polynomial: MultiVariatePolynomial, challenges: &Vec<FieldElement>) -> (rounds:
        Vec<UnivariatePolynomial>)
        requires
            polynomial.wf(),
            all_reduced(challenges@),
            challenges@.len() == polynomial.spec_num_vars(),
        ensures
            rounds@.len() == polynomial.spec_num_vars(),
            forall|q: int|
                0 <= q < rounds@.len() ==> (#[trigger] rounds@[q])@ == extract_entries(
                    polynomial@,
                    q,
                    residues(challenges@).take(q),
                ) && rounds@[q].wf(),
    {
        let n = polynomial.num_vars();
        let mut prover = Prover::new(polynomial);
        let mut rounds: Vec<UnivariatePolynomial> = Vec::new();
        proof {
            assert(prover.challenges() =~= residues(challenges@).take(0));
        }
        let mut k: usize = 0;
        while k < n
            invariant
                k <= n,
                n == polynomial.spec_num_vars(),
                challenges@.len() == n,
                all_reduced(challenges@),
                prover.wf(),
                prover.polynomial_terms() == polynomial@,
                prover.spec_num_vars() == n,
                prover.round() == k,
                prover.challenges() == residues(challenges@).take(k as int),
                rounds@.len() == k,
                forall|q: int|
                    0 <= q < k ==> (#[trigger] rounds@[q])@ == extract_entries(
                        polynomial@,
                        q,
                        residues(challenges@).take(q),
                    ) && rounds@[q].wf(),
            decreases n - k,
        {
            let ghost ki = k as int;
            let u = match prover.get_next_polynomial() {
                Ok(u) => u,
                Err(_) => unreached(),
            };
            rounds.push(u);
            let c = challenges[k];
            proof {
                assert(c == challenges@[ki]);
                assert(residues(challenges@)[ki] == challenges@[ki]@);
            }
            match prover.receive_challenge(c) {
                Ok(()) => {},
                Err(_) => {
                    proof {
                        assert(false);
                    }
                },
            }
            proof {
                assert(residues(challenges@).take(ki).push(challenges@[ki]@) =~= residues(
                    challenges@,
                ).take(ki + 1));
            }
            k = k + 1;
        }
        rounds
    }
}

} // verus!
