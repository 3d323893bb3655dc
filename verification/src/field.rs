//! The finite field that coefficients, evaluation points and challenges live
//! in: integers modulo the Mersenne prime `2^31 - 1`, kept as reduced
//! residues in a `u64`.

use vstd::arithmetic::div_mod::{
    lemma_add_mod_noop, lemma_add_mod_noop_right, lemma_mul_mod_noop_general,
};
use vstd::arithmetic::mul::{lemma_mul_is_associative, lemma_mul_is_distributive_add};
use vstd::prelude::*;

verus! {

/// The field modulus, the Mersenne prime `2^31 - 1`.
pub const MODULUS: u64 = 2147483647;

/// Field addition on residues: the sum, reduced into the field.
pub open spec fn fadd(a: nat, b: nat) -> nat {
    (a + b) % (MODULUS as nat)
}

/// Field multiplication on residues: the product, reduced into the field.
pub open spec fn fmul(a: nat, b: nat) -> nat {
    (a * b) % (MODULUS as nat)
}

/// Field exponentiation: `base` multiplied into the field `e` times,
/// starting from one.
pub open spec fn fpow(base: nat, e: nat) -> nat
    decreases e,
{
    if e == 0 {
        1
    } else {
        fmul(fpow(base, (e - 1) as nat), base)
    }
}

pub proof fn lemma_fadd_comm(a: nat, b: nat)
    ensures
        fadd(a, b) == fadd(b, a),
{
}

pub proof fn lemma_fadd_assoc(a: nat, b: nat, c: nat)
    ensures
        fadd(fadd(a, b), c) == fadd(a, fadd(b, c)),
{
    let m = MODULUS as int;
    lemma_add_mod_noop_right(c as int, (a + b) as int, m);
    lemma_add_mod_noop_right(a as int, (b + c) as int, m);
}

pub proof fn lemma_fmul_comm(a: nat, b: nat)
    ensures
        fmul(a, b) == fmul(b, a),
{
}

pub proof fn lemma_fmul_assoc(a: nat, b: nat, c: nat)
    ensures
        fmul(fmul(a, b), c) == fmul(a, fmul(b, c)),
{
    let m = MODULUS as int;
    lemma_mul_mod_noop_general((a * b) as int, c as int, m);
    lemma_mul_mod_noop_general(a as int, (b * c) as int, m);
    lemma_mul_is_associative(a as int, b as int, c as int);
}

/// Multiplication distributes over addition in the field.
pub proof fn lemma_fmul_distrib(a: nat, b: nat, c: nat)
    ensures
        fmul(a, fadd(b, c)) == fadd(fmul(a, b), fmul(a, c)),
{
    let m = MODULUS as int;
    lemma_mul_mod_noop_general(a as int, (b + c) as int, m);
    lemma_mul_is_distributive_add(a as int, b as int, c as int);
    lemma_add_mod_noop((a * b) as int, (a * c) as int, m);
}

/// One element of the field, held as its reduced residue.
#[derive(Clone, Copy, PartialEq, Eq, Structural, Debug)]
pub struct FieldElement {
    value: u64,
}

impl View for FieldElement {
    type V = nat;

    closed spec fn view(&self) -> nat {
        self.value as nat
    }
}

impl FieldElement {
    /// A well-formed element carries a residue below the modulus; every
    /// constructor of this module establishes this.
    pub open spec fn wf(self) -> bool {
        self@ < MODULUS
    }

    /// The additive identity.
    pub fn zero() -> (r: FieldElement)
        ensures
            r@ == 0,
            r.wf(),
    {
        FieldElement { value: 0 }
    }

    /// The multiplicative identity.
    pub fn one() -> (r: FieldElement)
        ensures
            r@ == 1,
            r.wf(),
    {
        FieldElement { value: 1 }
    }

    /// The element congruent to `x`.
    pub fn from_u64(x: u64) -> (r: FieldElement)
        ensures
            r@ == x as nat % (MODULUS as nat),
            r.wf(),
    {
        FieldElement { value: x % MODULUS }
    }

    /// The reduced residue of this element.
    pub fn as_u64(&self) -> (r: u64)
        ensures
            r as nat == self@,
    {
        self.value
    }

    /// Field addition.
    pub fn add(self, other: FieldElement) -> (r: FieldElement)
        requires
            self.wf(),
            other.wf(),
        ensures
            r@ == fadd(self@, other@),
            r.wf(),
    {
        FieldElement { value: (self.value + other.value) % MODULUS }
    }

    /// Field multiplication.
    pub fn mul(self, other: FieldElement) -> (r: FieldElement)
        requires
            self.wf(),
            other.wf(),
        ensures
            r@ == fmul(self@, other@),
            r.wf(),
    {
        proof {
            assert(self.value * other.value < 0x4000000000000000) by (nonlinear_arith)
                requires
                    self.value < 0x80000000,
                    other.value < 0x80000000,
            ;
        }
        FieldElement { value: (self.value * other.value) % MODULUS }
    }

    /// Field exponentiation by a non-negative integer exponent.
    pub fn pow(self, e: u64) -> (r: FieldElement)
        requires
            self.wf(),
        ensures
            r@ == fpow(self@, e as nat),
            r.wf(),
    {
        let mut r = FieldElement::one();
        let mut k: u64 = 0;
        while k < e
            invariant
                k <= e,
                self.wf(),
                r.wf(),
                r@ == fpow(self@, k as nat),
            decreases e - k,
        {
            r = r.mul(self);
            k = k + 1;
        }
        r
    }
}

/// Two field elements are the same value exactly when they carry the same
/// residue.
pub proof fn lemma_view_injective(a: FieldElement, b: FieldElement)
    ensures
        (a == b) <==> (a@ == b@),
{
}

/// The residues of a sequence of field elements.
pub open spec fn residues(s: Seq<FieldElement>) -> Seq<nat> {
    s.map_values(|f: FieldElement| f@)
}

/// Every element of the sequence is a reduced residue.
pub open spec fn all_reduced(s: Seq<FieldElement>) -> bool {
    forall|k: int| 0 <= k < s.len() ==> (#[trigger] s[k]).wf()
}

} // verus!
