//! Sparse polynomials over the field: a multivariate polynomial given as
//! exponent-vector/coefficient terms, and the univariate polynomial obtained
//! from it for one round of the protocol by folding fixed variables in.

use crate::field::{
    all_reduced, fadd, fmul, fpow, lemma_fadd_assoc, lemma_fadd_comm, lemma_fmul_assoc,
    lemma_fmul_comm, lemma_fmul_distrib, residues, FieldElement, MODULUS,
};
use vstd::pervasive::VecAdditionalExecFns;
use vstd::prelude::*;

verus! {

/// The ways an operation can be given ill-matched inputs.
#[derive(Clone, Copy, PartialEq, Eq, Structural, Debug)]
pub enum PolyError {
    /// An exponent vector or an evaluation point does not cover the declared
    /// variable count.
    VariableCountMismatch,
    /// A round index at or past the variable count was used.
    RoundIndexExhausted,
}

/// One term of a multivariate polynomial: a coefficient and one exponent per
/// variable.
#[derive(Clone, Debug)]
pub struct Term {
    pub exponents: Vec<u64>,
    pub coeff: FieldElement,
}

impl View for Term {
    type V = (Seq<nat>, nat);

    open spec fn view(&self) -> (Seq<nat>, nat) {
        (self.exponents@.map_values(|e: u64| e as nat), self.coeff@)
    }
}

/// The mathematical entries of a univariate coefficient vector.
pub open spec fn uni_entries_view(s: Seq<(u64, FieldElement)>) -> Seq<(nat, nat)> {
    s.map_values(|p: (u64, FieldElement)| (p.0 as nat, p.1@))
}

/// Every stored univariate coefficient is a reduced residue.
pub open spec fn entries_reduced(s: Seq<(u64, FieldElement)>) -> bool {
    forall|k: int| 0 <= k < s.len() ==> (#[trigger] s[k]).1.wf()
}

/// `acc` multiplied by `point[j] ^ exps[j]` for every position `j < k` other
/// than `skip`, one factor at a time, reduced into the field at each step.
pub open spec fn factor_fold(acc: nat, exps: Seq<nat>, point: Seq<nat>, k: nat, skip: int) -> nat
    decreases k,
{
    if k == 0 {
        acc
    } else {
        let prev = factor_fold(acc, exps, point, (k - 1) as nat, skip);
        if k - 1 == skip {
            prev
        } else {
            fmul(prev, fpow(point[k - 1], exps[k - 1]))
        }
    }
}

/// The value of one term at `point`: its coefficient times the product of
/// `point[j] ^ exps[j]` over every position of its exponent vector.
pub open spec fn term_value(t: (Seq<nat>, nat), point: Seq<nat>) -> nat {
    factor_fold(t.1, t.0, point, t.0.len(), -1)
}

/// The value of a multivariate polynomial at `point`: the field sum of the
/// values of its terms.
pub open spec fn eval_terms(terms: Seq<(Seq<nat>, nat)>, point: Seq<nat>) -> nat
    decreases terms.len(),
{
    if terms.len() == 0 {
        0
    } else {
        fadd(eval_terms(terms.drop_last(), point), term_value(terms.last(), point))
    }
}

/// The value of a univariate polynomial, given as (exponent, coefficient)
/// entries, at the point `x`.
pub open spec fn eval_entries(entries: Seq<(nat, nat)>, x: nat) -> nat
    decreases entries.len(),
{
    if entries.len() == 0 {
        0
    } else {
        fadd(
            eval_entries(entries.drop_last(), x),
            fmul(entries.last().1, fpow(x, entries.last().0)),
        )
    }
}

/// The coefficient a univariate polynomial carries for `degree`: the field
/// sum of every entry stored under that exponent.
pub open spec fn entries_coeff(entries: Seq<(nat, nat)>, degree: nat) -> nat
    decreases entries.len(),
{
    if entries.len() == 0 {
        0
    } else {
        let rest = entries_coeff(entries.drop_last(), degree);
        if entries.last().0 == degree {
            fadd(rest, entries.last().1)
        } else {
            rest
        }
    }
}

/// The partial coefficient of a term when variable `i` is kept free: its
/// coefficient times `prev[j] ^ exps[j]` for every fixed position
/// `j < prev.len()` other than `i`.
pub open spec fn partial_coeff(t: (Seq<nat>, nat), i: int, prev: Seq<nat>) -> nat {
    factor_fold(t.1, t.0, prev, prev.len(), i)
}

/// The first position holding an entry for `degree`, or -1 if there is none.
pub open spec fn first_index_of(entries: Seq<(nat, nat)>, degree: nat) -> int
    decreases entries.len(),
{
    if entries.len() == 0 {
        -1
    } else if entries[0].0 == degree {
        0
    } else {
        let rest = first_index_of(entries.skip(1), degree);
        if rest < 0 {
            -1
        } else {
            rest + 1
        }
    }
}

/// Folds `c` into the entry stored under `degree`, or appends a new entry.
pub open spec fn accumulate_entry(entries: Seq<(nat, nat)>, degree: nat, c: nat) -> Seq<
    (nat, nat),
> {
    let j = first_index_of(entries, degree);
    if j < 0 {
        entries.push((degree, c))
    } else {
        entries.update(j, (degree, fadd(entries[j].1, c)))
    }
}

/// The entries of the round-`i` univariate polynomial extracted from `terms`
/// under the fixed assignments `prev`: one entry per distinct exponent of
/// variable `i`, in order of first appearance, each carrying the field sum of
/// the partial coefficients of the terms that share it.
pub open spec fn extract_entries(terms: Seq<(Seq<nat>, nat)>, i: int, prev: Seq<nat>) -> Seq<
    (nat, nat),
>
    decreases terms.len(),
{
    if terms.len() == 0 {
        Seq::empty()
    } else {
        accumulate_entry(
            extract_entries(terms.drop_last(), i, prev),
            terms.last().0[i],
            partial_coeff(terms.last(), i, prev),
        )
    }
}

/// The field sum of the partial coefficients of every term whose exponent of
/// variable `i` is `degree`.
pub open spec fn aggregated_coeff(
    terms: Seq<(Seq<nat>, nat)>,
    i: int,
    prev: Seq<nat>,
    degree: nat,
) -> nat
    decreases terms.len(),
{
    if terms.len() == 0 {
        0
    } else {
        let rest = aggregated_coeff(terms.drop_last(), i, prev, degree);
        if terms.last().0[i] == degree {
            fadd(rest, partial_coeff(terms.last(), i, prev))
        } else {
            rest
        }
    }
}

/// The field sum over all terms of (partial coefficient) times
/// `x ^ (exponent of variable i)`.
pub open spec fn round_sum(terms: Seq<(Seq<nat>, nat)>, i: int, prev: Seq<nat>, x: nat) -> nat
    decreases terms.len(),
{
    if terms.len() == 0 {
        0
    } else {
        fadd(
            round_sum(terms.drop_last(), i, prev, x),
            fmul(partial_coeff(terms.last(), i, prev), fpow(x, terms.last().0[i])),
        )
    }
}

proof fn lemma_factor_fold_skip_out(
    acc: nat,
    exps: Seq<nat>,
    point: Seq<nat>,
    k: nat,
    s1: int,
    s2: int,
)
    requires
        s1 < 0 || s1 >= k,
        s2 < 0 || s2 >= k,
    ensures
        factor_fold(acc, exps, point, k, s1) == factor_fold(acc, exps, point, k, s2),
    decreases k,
{
    if k > 0 {
        lemma_factor_fold_skip_out(acc, exps, point, (k - 1) as nat, s1, s2);
    }
}

proof fn lemma_factor_fold_recombine(acc: nat, exps: Seq<nat>, point: Seq<nat>, k: nat, i: int)
    requires
        0 <= i < k,
    ensures
        fmul(factor_fold(acc, exps, point, k, i), fpow(point[i], exps[i])) == factor_fold(
            acc,
            exps,
            point,
            k,
            -1,
        ),
    decreases k,
{
    if k - 1 == i {
        lemma_factor_fold_skip_out(acc, exps, point, (k - 1) as nat, i, -1);
    } else {
        lemma_factor_fold_recombine(acc, exps, point, (k - 1) as nat, i);
        let a = factor_fold(acc, exps, point, (k - 1) as nat, i);
        let fl = fpow(point[k - 1], exps[k - 1]);
        let fi = fpow(point[i], exps[i]);
        lemma_fmul_assoc(a, fl, fi);
        lemma_fmul_comm(fl, fi);
        lemma_fmul_assoc(a, fi, fl);
    }
}

proof fn lemma_first_index_valid(entries: Seq<(nat, nat)>, degree: nat)
    ensures
        first_index_of(entries, degree) >= 0 ==> 0 <= first_index_of(entries, degree)
            < entries.len() && entries[first_index_of(entries, degree)].0 == degree,
        first_index_of(entries, degree) < 0 ==> first_index_of(entries, degree) == -1,
    decreases entries.len(),
{
    if entries.len() == 0 {
    } else if entries[0].0 == degree {
    } else {
        lemma_first_index_valid(entries.skip(1), degree);
        let rest = first_index_of(entries.skip(1), degree);
        if rest >= 0 {
            assert(entries.skip(1)[rest] == entries[rest + 1]);
        }
    }
}

proof fn lemma_first_index_found(entries: Seq<(nat, nat)>, degree: nat, m: int)
    requires
        0 <= m < entries.len(),
        entries[m].0 == degree,
        forall|q: int| 0 <= q < m ==> (#[trigger] entries[q]).0 != degree,
    ensures
        first_index_of(entries, degree) == m,
    decreases entries.len(),
{
    if m == 0 {
    } else {
        assert(entries[0].0 != degree);
        let rest = entries.skip(1);
        assert(rest[m - 1] == entries[m]);
        assert forall|q: int| 0 <= q < m - 1 implies (#[trigger] rest[q]).0 != degree by {
            assert(rest[q] == entries[q + 1]);
        }
        lemma_first_index_found(rest, degree, m - 1);
    }
}

proof fn lemma_first_index_none(entries: Seq<(nat, nat)>, degree: nat)
    requires
        forall|q: int| 0 <= q < entries.len() ==> (#[trigger] entries[q]).0 != degree,
    ensures
        first_index_of(entries, degree) == -1,
    decreases entries.len(),
{
    if entries.len() > 0 {
        let rest = entries.skip(1);
        assert forall|q: int| 0 <= q < rest.len() implies (#[trigger] rest[q]).0 != degree by {
            assert(rest[q] == entries[q + 1]);
        }
        lemma_first_index_none(rest, degree);
    }
}

proof fn lemma_eval_entries_update(entries: Seq<(nat, nat)>, j: int, c: nat, x: nat)
    requires
        0 <= j < entries.len(),
    ensures
        eval_entries(entries.update(j, (entries[j].0, fadd(entries[j].1, c))), x) == fadd(
            eval_entries(entries, x),
            fmul(c, fpow(x, entries[j].0)),
        ),
    decreases entries.len(),
{
    let d = entries[j].0;
    let o = entries[j].1;
    let s2 = entries.update(j, (d, fadd(o, c)));
    let pw = fpow(x, d);
    if j == entries.len() - 1 {
        assert(s2.drop_last() =~= entries.drop_last());
        let rest = eval_entries(entries.drop_last(), x);
        lemma_fmul_comm(fadd(o, c), pw);
        lemma_fmul_distrib(pw, o, c);
        lemma_fmul_comm(pw, o);
        lemma_fmul_comm(pw, c);
        lemma_fadd_assoc(rest, fmul(o, pw), fmul(c, pw));
    } else {
        assert(s2.drop_last() =~= entries.drop_last().update(j, (d, fadd(o, c))));
        lemma_eval_entries_update(entries.drop_last(), j, c, x);
        let a = eval_entries(entries.drop_last(), x);
        let lastv = fmul(entries.last().1, fpow(x, entries.last().0));
        let cx = fmul(c, pw);
        assert(s2.last() == entries.last());
        lemma_fadd_assoc(a, cx, lastv);
        lemma_fadd_comm(cx, lastv);
        lemma_fadd_assoc(a, lastv, cx);
    }
}

proof fn lemma_eval_accumulate(entries: Seq<(nat, nat)>, degree: nat, c: nat, x: nat)
    ensures
        eval_entries(accumulate_entry(entries, degree, c), x) == fadd(
            eval_entries(entries, x),
            fmul(c, fpow(x, degree)),
        ),
{
    lemma_first_index_valid(entries, degree);
    let j = first_index_of(entries, degree);
    if j < 0 {
        let s2 = entries.push((degree, c));
        assert(s2.drop_last() =~= entries);
        assert(s2.last() == (degree, c));
    } else {
        lemma_eval_entries_update(entries, j, c, x);
    }
}

proof fn lemma_entries_coeff_update(entries: Seq<(nat, nat)>, j: int, c: nat, degree: nat)
    requires
        0 <= j < entries.len(),
    ensures
        entries_coeff(entries.update(j, (entries[j].0, fadd(entries[j].1, c))), degree) == (
        if entries[j].0 == degree {
            fadd(entries_coeff(entries, degree), c)
        } else {
            entries_coeff(entries, degree)
        }),
    decreases entries.len(),
{
    let d = entries[j].0;
    let o = entries[j].1;
    let s2 = entries.update(j, (d, fadd(o, c)));
    if j == entries.len() - 1 {
        assert(s2.drop_last() =~= entries.drop_last());
        let rest = entries_coeff(entries.drop_last(), degree);
        if d == degree {
            lemma_fadd_assoc(rest, o, c);
            lemma_fadd_comm(o, c);
            lemma_fadd_assoc(rest, c, o);
            lemma_fadd_comm(c, o);
        }
    } else {
        assert(s2.drop_last() =~= entries.drop_last().update(j, (d, fadd(o, c))));
        lemma_entries_coeff_update(entries.drop_last(), j, c, degree);
        assert(s2.last() == entries.last());
        if entries.last().0 == degree && d == degree {
            let rest = entries_coeff(entries.drop_last(), degree);
            let lastv = entries.last().1;
            lemma_fadd_assoc(rest, c, lastv);
            lemma_fadd_comm(c, lastv);
            lemma_fadd_assoc(rest, lastv, c);
        }
    }
}

proof fn lemma_coeff_accumulate(entries: Seq<(nat, nat)>, degree: nat, c: nat, d2: nat)
    ensures
        entries_coeff(accumulate_entry(entries, degree, c), d2) == (
        if degree == d2 {
            fadd(entries_coeff(entries, d2), c)
        } else {
            entries_coeff(entries, d2)
        }),
{
    lemma_first_index_valid(entries, degree);
    let j = first_index_of(entries, degree);
    if j < 0 {
        let s2 = entries.push((degree, c));
        assert(s2.drop_last() =~= entries);
        assert(s2.last() == (degree, c));
    } else {
        lemma_entries_coeff_update(entries, j, c, d2);
    }
}

proof fn lemma_eval_extract(terms: Seq<(Seq<nat>, nat)>, i: int, prev: Seq<nat>, x: nat)
    ensures
        eval_entries(extract_entries(terms, i, prev), x) == round_sum(terms, i, prev, x),
    decreases terms.len(),
{
    if terms.len() > 0 {
        lemma_eval_extract(terms.drop_last(), i, prev, x);
        lemma_eval_accumulate(
            extract_entries(terms.drop_last(), i, prev),
            terms.last().0[i],
            partial_coeff(terms.last(), i, prev),
            x,
        );
    }
}

proof fn lemma_round_sum_full(terms: Seq<(Seq<nat>, nat)>, i: int, prev: Seq<nat>)
    requires
        0 <= i < prev.len(),
        forall|k: int| 0 <= k < terms.len() ==> (#[trigger] terms[k]).0.len() == prev.len(),
    ensures
        round_sum(terms, i, prev, prev[i]) == eval_terms(terms, prev),
    decreases terms.len(),
{
    if terms.len() > 0 {
        let t = terms.last();
        assert(t == terms[terms.len() - 1]);
        let front = terms.drop_last();
        assert forall|k: int| 0 <= k < front.len() implies (#[trigger] front[k]).0.len()
            == prev.len() by {
            assert(front[k] == terms[k]);
        }
        lemma_round_sum_full(terms.drop_last(), i, prev);
        lemma_factor_fold_recombine(t.1, t.0, prev, prev.len(), i);
    }
}

/// Round-extraction self-consistency: for any collection of terms whose
/// exponent vectors all cover the full assignment `prev`, evaluating the
/// round-`i` univariate extraction under `prev` at the point `prev[i]` gives
/// the same field value as evaluating the whole polynomial at `prev`.
pub proof fn lemma_round_extraction_consistent(
    terms: Seq<(Seq<nat>, nat)>,
    i: int,
    prev: Seq<nat>,
)
    requires
        0 <= i < prev.len(),
        forall|k: int| 0 <= k < terms.len() ==> (#[trigger] terms[k]).0.len() == prev.len(),
    ensures
        eval_entries(extract_entries(terms, i, prev), prev[i]) == eval_terms(terms, prev),
{
    lemma_eval_extract(terms, i, prev, prev[i]);
    lemma_round_sum_full(terms, i, prev);
}

/// Degree aggregation: the coefficient that the round extraction stores for
/// any degree is the field sum of the partial coefficients of every term
/// whose free-variable exponent equals that degree — terms that collide on a
/// degree are summed, never overwritten.
pub proof fn lemma_degree_aggregation(
    terms: Seq<(Seq<nat>, nat)>,
    i: int,
    prev: Seq<nat>,
    degree: nat,
)
    ensures
        entries_coeff(extract_entries(terms, i, prev), degree) == aggregated_coeff(
            terms,
            i,
            prev,
            degree,
        ),
    decreases terms.len(),
{
    if terms.len() > 0 {
        lemma_degree_aggregation(terms.drop_last(), i, prev, degree);
        lemma_coeff_accumulate(
            extract_entries(terms.drop_last(), i, prev),
            terms.last().0[i],
            partial_coeff(terms.last(), i, prev),
            degree,
        );
    }
}

/// Multiplies onto `acc` the factor `point[j] ^ exps[j]` for every position
/// `j < upto` other than `skip`.
fn fold_factors(
    acc: FieldElement,
    exps: &Vec<u64>,
    point: &Vec<FieldElement>,
    upto: usize,
    skip: usize,
) -> (r: FieldElement)
    requires
        acc.wf(),
        all_reduced(point@),
        upto <= exps@.len(),
        upto <= point@.len(),
    ensures
        r.wf(),
        r@ == factor_fold(
            acc@,
            exps@.map_values(|e: u64| e as nat),
            residues(point@),
            upto as nat,
            skip as int,
        ),
{
    let ghost espec = exps@.map_values(|e: u64| e as nat);
    let ghost pspec = residues(point@);
    let mut r = acc;
    let mut j: usize = 0;
    while j < upto
        invariant
            j <= upto,
            upto <= exps@.len(),
            upto <= point@.len(),
            all_reduced(point@),
            r.wf(),
            r@ == factor_fold(acc@, espec, pspec, j as nat, skip as int),
            espec == exps@.map_values(|e: u64| e as nat),
            pspec == residues(point@),
        decreases upto - j,
    {
        proof {
            assert(espec[j as int] == exps@[j as int] as nat);
            assert(pspec[j as int] == point@[j as int]@);
        }
        if j != skip {
            let f = point[j].pow(exps[j]);
            r = r.mul(f);
        }
        j = j + 1;
    }
    r
}

/// Folds the partial coefficient `pc` into the entry stored under `degree`,
/// appending a new entry when the degree has not been seen yet.
fn accumulate_into(entries: &mut Vec<(u64, FieldElement)>, degree: u64, pc: FieldElement)
    requires
        entries_reduced(old(entries)@),
        pc.wf(),
    ensures
        entries_reduced(final(entries)@),
        uni_entries_view(final(entries)@) == accumulate_entry(
            uni_entries_view(old(entries)@),
            degree as nat,
            pc@,
        ),
{
    let end = entries.len();
    let mut m: usize = 0;
    while m < end
        invariant
            m <= end,
            end == entries@.len(),
            entries@ == old(entries)@,
            entries_reduced(entries@),
            pc.wf(),
            forall|q: int| 0 <= q < m ==> (#[trigger] entries@[q]).0 != degree,
        decreases end - m,
    {
        let e = entries[m];
        if e.0 == degree {
            let updated = e.1.add(pc);
            proof {
                let sv = uni_entries_view(old(entries)@);
                assert forall|q: int| 0 <= q < m implies (#[trigger] sv[q]).0 != degree as nat by {
                    assert(sv[q] == (old(entries)@[q].0 as nat, old(entries)@[q].1@));
                }
                assert(sv[m as int].0 == degree as nat);
                lemma_first_index_found(sv, degree as nat, m as int);
            }
            entries.set(m, (degree, updated));
            proof {
                let sv = uni_entries_view(old(entries)@);
                assert(uni_entries_view(entries@) =~= sv.update(
                    m as int,
                    (degree as nat, fadd(sv[m as int].1, pc@)),
                ));
            }
            return ;
        }
        m = m + 1;
    }
    proof {
        let sv = uni_entries_view(old(entries)@);
        assert forall|q: int| 0 <= q < sv.len() implies (#[trigger] sv[q]).0 != degree as nat by {
            assert(sv[q] == (old(entries)@[q].0 as nat, old(entries)@[q].1@));
        }
        lemma_first_index_none(sv, degree as nat);
    }
    entries.push((degree, pc));
    proof {
        assert(uni_entries_view(entries@) =~= uni_entries_view(old(entries)@).push(
            (degree as nat, pc@),
        ));
    }
}

/// A sparse multivariate polynomial in `num_vars` variables over the field,
/// stored as a sequence of terms.
#[derive(Clone, Debug)]
pub struct MultiVariatePolynomial {
    num_vars: usize,
    terms: Vec<Term>,
}

impl View for MultiVariatePolynomial {
    type V = Seq<(Seq<nat>, nat)>;

    closed spec fn view(&self) -> Seq<(Seq<nat>, nat)> {
        self.terms@.map_values(|t: Term| t@)
    }
}

impl MultiVariatePolynomial {
    /// The number of variables the polynomial was declared over.
    pub closed spec fn spec_num_vars(self) -> nat {
        self.num_vars as nat
    }

    /// Every exponent vector covers exactly the declared variables and every
    /// coefficient is a reduced residue; `new` establishes this.
    pub open spec fn wf(self) -> bool {
        forall|k: int|
            0 <= k < self@.len() ==> (#[trigger] self@[k]).0.len() == self.spec_num_vars()
                && self@[k].1 < MODULUS
    }

    /// Builds the polynomial from its terms, rejecting any term whose
    /// exponent vector does not have exactly `num_vars` entries.
    pub fn new(num_vars: usize, terms: Vec<Term>) -> (result: Result<
        MultiVariatePolynomial,
        PolyError,
    >)
        requires
            forall|k: int| 0 <= k < terms@.len() ==> (#[trigger] terms@[k]).coeff.wf(),
        ensures
            (match result {
                Ok(p) => {
                    &&& forall|k: int|
                        0 <= k < terms@.len() ==> (#[trigger] terms@[k])@.0.len() == num_vars
                    &&& p@ == terms@.map_values(|t: Term| t@)
                    &&& p.spec_num_vars() == num_vars
                    &&& p.wf()
                },
                Err(e) => {
                    &&& e == PolyError::VariableCountMismatch
                    &&& exists|k: int|
                        0 <= k < terms@.len() && (#[trigger] terms@[k])@.0.len() != num_vars
                },
            }),
    {
        let mut k: usize = 0;
        while k < terms.len()
            invariant
                k <= terms@.len(),
                forall|q: int| 0 <= q < k ==> (#[trigger] terms@[q])@.0.len() == num_vars,
            decreases terms@.len() - k,
        {
            if terms[k].exponents.len() != num_vars {
                return Err(PolyError::VariableCountMismatch);
            }
            k = k + 1;
        }
        Ok(MultiVariatePolynomial { num_vars, terms })
    }

    /// The declared variable count.
    pub fn num_vars(&self) -> (n: usize)
        ensures
            n == self.spec_num_vars(),
    {
        self.num_vars
    }

    /// Evaluates the polynomial at `point`: for every stored term, the
    /// coefficient is multiplied by `point[j]` raised to the term's exponent
    /// at each position `j`, and the term values are summed in the field. A
    /// point with fewer entries than there are variables is rejected; extra
    /// entries are ignored.
    pub fn evaluate(&self, point: &Vec<FieldElement>) -> (result: Result<
        FieldElement,
        PolyError,
    >)
        requires
            self.wf(),
            all_reduced(point@),
        ensures
            (match result {
                Ok(v) => {
                    &&& point@.len() >= self.spec_num_vars()
                    &&& v.wf()
                    &&& v@ == eval_terms(self@, residues(point@))
                },
                Err(e) => {
                    &&& e == PolyError::VariableCountMismatch
                    &&& point@.len() < self.spec_num_vars()
                },
            }),
    {
        if point.len() < self.num_vars {
            return Err(PolyError::VariableCountMismatch);
        }
        let ghost pspec = residues(point@);
        let mut acc = FieldElement::zero();
        proof {
            assert(self@.take(0) =~= Seq::<(Seq<nat>, nat)>::empty());
        }
        let mut k: usize = 0;
        while k < self.terms.len()
            invariant
                k <= self.terms@.len(),
                self.wf(),
                all_reduced(point@),
                point@.len() >= self.spec_num_vars(),
                pspec == residues(point@),
                acc.wf(),
                acc@ == eval_terms(self@.take(k as int), pspec),
            decreases self.terms@.len() - k,
        {
            let ghost ki = k as int;
            let t = &self.terms[k];
            proof {
                assert(self@[ki] == self.terms@[ki]@);
                assert(self@[ki].0.len() == self.spec_num_vars());
            }
            let tv = fold_factors(t.coeff, &t.exponents, point, t.exponents.len(), usize::MAX);
            proof {
                lemma_factor_fold_skip_out(
                    t.coeff@,
                    t@.0,
                    pspec,
                    t@.0.len(),
                    usize::MAX as int,
                    -1,
                );
                assert(tv@ == term_value(self@[ki], pspec));
                assert(self@.take(ki + 1).drop_last() =~= self@.take(ki));
                assert(self@.take(ki + 1).last() == self@[ki]);
            }
            acc = acc.add(tv);
            k = k + 1;
        }
        proof {
            assert(self@.take(self.terms@.len() as int) =~= self@);
        }
        Ok(acc)
    }

    /// Extracts the univariate polynomial of round `i`: each term contributes
    /// its partial coefficient under the fixed assignments `previous_values`
    /// (position `i` excluded) to the entry for its exponent of variable `i`,
    /// and contributions to the same exponent are summed in the field.
    pub fn get_univariate_at_round(&self, i: usize, previous_values: &Vec<FieldElement>) -> (result:
        Result<UnivariatePolynomial, PolyError>)
        requires
            self.wf(),
            all_reduced(previous_values@),
        ensures
            (match result {
                Ok(u) => {
                    &&& i < self.spec_num_vars()
                    &&& previous_values@.len() <= self.spec_num_vars()
                    &&& u.wf()
                    &&& u@ == extract_entries(self@, i as int, residues(previous_values@))
                },
                Err(e) => (e == PolyError::RoundIndexExhausted && i >= self.spec_num_vars()) || (
                e == PolyError::VariableCountMismatch && i < self.spec_num_vars()
                    && previous_values@.len() > self.spec_num_vars()),
            }),
    {
        if i >= self.num_vars {
            return Err(PolyError::RoundIndexExhausted);
        }
        if previous_values.len() > self.num_vars {
            return Err(PolyError::VariableCountMismatch);
        }
        let ghost pspec = residues(previous_values@);
        let mut entries: Vec<(u64, FieldElement)> = Vec::new();
        proof {
            assert(self@.take(0) =~= Seq::<(Seq<nat>, nat)>::empty());
            assert(uni_entries_view(entries@) =~= Seq::<(nat, nat)>::empty());
        }
        let mut k: usize = 0;
        while k < self.terms.len()
            invariant
                k <= self.terms@.len(),
                self.wf(),
                all_reduced(previous_values@),
                i < self.spec_num_vars(),
                previous_values@.len() <= self.spec_num_vars(),
                pspec == residues(previous_values@),
                entries_reduced(entries@),
                uni_entries_view(entries@) == extract_entries(self@.take(k as int), i as int, pspec),
            decreases self.terms@.len() - k,
        {
            let ghost ki = k as int;
            let t = &self.terms[k];
            proof {
                assert(self@[ki] == self.terms@[ki]@);
                assert(self@[ki].0.len() == self.spec_num_vars());
            }
            let pc = fold_factors(t.coeff, &t.exponents, previous_values, previous_values.len(), i);
            let degree = t.exponents[i];
            proof {
                assert(pc@ == partial_coeff(self@[ki], i as int, pspec));
                assert(degree as nat == self@[ki].0[i as int]);
            }
            accumulate_into(&mut entries, degree, pc);
            proof {
                assert(self@.take(ki + 1).drop_last() =~= self@.take(ki));
                assert(self@.take(ki + 1).last() == self@[ki]);
            }
            k = k + 1;
        }
        proof {
            assert(self@.take(self.terms@.len() as int) =~= self@);
        }
        Ok(UnivariatePolynomial { coeffs: entries })
    }
}

/// A sparse univariate polynomial over the field, stored as
/// (exponent, coefficient) entries.
#[derive(Clone, Debug)]
pub struct UnivariatePolynomial {
    coeffs: Vec<(u64, FieldElement)>,
}

impl View for UnivariatePolynomial {
    type V = Seq<(nat, nat)>;

    closed spec fn view(&self) -> Seq<(nat, nat)> {
        uni_entries_view(self.coeffs@)
    }
}

impl UnivariatePolynomial {
    /// Every stored coefficient is a reduced residue; the round extraction
    /// establishes this.
    pub open spec fn wf(self) -> bool {
        forall|k: int| 0 <= k < self@.len() ==> (#[trigger] self@[k]).1 < MODULUS
    }

    /// Evaluates the polynomial at `point`: the field sum, over every stored
    /// entry, of the coefficient times `point` raised to the exponent.
    pub fn evaluate(&self, point: FieldElement) -> (r: FieldElement)
        requires
            self.wf(),
            point.wf(),
        ensures
            r.wf(),
            r@ == eval_entries(self@, point@),
    {
        let mut acc = FieldElement::zero();
        proof {
            assert(self@.take(0) =~= Seq::<(nat, nat)>::empty());
        }
        let mut k: usize = 0;
        while k < self.coeffs.len()
            invariant
                k <= self.coeffs@.len(),
                self.wf(),
                point.wf(),
                acc.wf(),
                acc@ == eval_entries(self@.take(k as int), point@),
            decreases self.coeffs@.len() - k,
        {
            let ghost ki = k as int;
            let e = self.coeffs[k];
            proof {
                assert(self@[ki] == (self.coeffs@[ki].0 as nat, self.coeffs@[ki].1@));
                assert(self@.take(ki + 1).drop_last() =~= self@.take(ki));
                assert(self@.take(ki + 1).last() == self@[ki]);
            }
            let term = e.1.mul(point.pow(e.0));
            acc = acc.add(term);
            k = k + 1;
        }
        proof {
            assert(self@.take(self.coeffs@.len() as int) =~= self@);
        }
        acc
    }

    /// The coefficient stored for `degree`: the field sum of every entry
    /// carrying that exponent, or zero if there is none.
    pub fn coeff_of(&self, degree: u64) -> (r: FieldElement)
        requires
            self.wf(),
        ensures
            r.wf(),
            r@ == entries_coeff(self@, degree as nat),
    {
        let mut acc = FieldElement::zero();
        proof {
            assert(self@.take(0) =~= Seq::<(nat, nat)>::empty());
        }
        let mut k: usize = 0;
        while k < self.coeffs.len()
            invariant
                k <= self.coeffs@.len(),
                self.wf(),
                acc.wf(),
                acc@ == entries_coeff(self@.take(k as int), degree as nat),
            decreases self.coeffs@.len() - k,
        {
            let ghost ki = k as int;
            let e = self.coeffs[k];
            proof {
                assert(self@[ki] == (self.coeffs@[ki].0 as nat, self.coeffs@[ki].1@));
                assert(self@.take(ki + 1).drop_last() =~= self@.take(ki));
                assert(self@.take(ki + 1).last() == self@[ki]);
            }
            if e.0 == degree {
                acc = acc.add(e.1);
            }
            k = k + 1;
        }
        proof {
            assert(self@.take(self.coeffs@.len() as int) =~= self@);
        }
        acc
    }

    /// The number of stored entries.
    pub fn num_entries(&self) -> (n: usize)
        ensures
            n == self@.len(),
    {
        self.coeffs.len()
    }

    /// Whether the two polynomials store the same entries in the same order.
    pub fn equals(&self, other: &UnivariatePolynomial) -> (r: bool)
        ensures
            r == (self@ == other@),
    {
        if self.coeffs.len() != other.coeffs.len() {
            proof {
                assert(self@.len() != other@.len());
            }
            return false;
        }
        let mut k: usize = 0;
        while k < self.coeffs.len()
            invariant
                k <= self.coeffs@.len(),
                self.coeffs@.len() == other.coeffs@.len(),
                forall|q: int| 0 <= q < k ==> self@[q] == other@[q],
            decreases self.coeffs@.len() - k,
        {
            let ghost ki = k as int;
            let e1 = self.coeffs[k];
            let e2 = other.coeffs[k];
            proof {
                assert(self@[ki] == (self.coeffs@[ki].0 as nat, self.coeffs@[ki].1@));
                assert(other@[ki] == (other.coeffs@[ki].0 as nat, other.coeffs@[ki].1@));
                crate::field::lemma_view_injective(e1.1, e2.1);
            }
            if e1.0 != e2.0 || e1.1 != e2.1 {
                proof {
                    assert(self@[ki] != other@[ki]);
                }
                return false;
            }
            k = k + 1;
        }
        proof {
            assert(self@ =~= other@);
        }
        true
    }
}

} // verus!
