//! Elements of the prime field the execution trace is written over.
use vstd::prelude::*;

verus! {

/// Modulus of the prime field: `7 * 2^20 + 1`.
pub const MODULUS: u32 = 7340033;

/// A field element, held as its canonical representative in `[0, MODULUS)`.
///
/// Values made by `Felt::new` and by the arithmetic below are canonical;
/// `wf` names that property for contracts.
#[derive(Clone, Copy, Debug, PartialEq, Eq, Structural)]
pub struct Felt {
    pub value: u32,
}

impl Felt {
    /// The element is given by its canonical representative.
    pub open spec fn wf(self) -> bool {
        self.value < MODULUS
    }

    /// The residue class of the element, as an integer in `[0, MODULUS)`.
    pub open spec fn val(self) -> int {
        self.value as int % MODULUS as int
    }

    pub open spec fn spec_zero() -> Felt {
        Felt { value: 0 }
    }

    pub open spec fn spec_one() -> Felt {
        Felt { value: 1 }
    }

    /// The element of the class of `v`.
    pub fn new(v: u32) -> (r: Felt)
        ensures
            r.wf(),
            r.value == v % MODULUS,
    {
        Felt { value: v % MODULUS }
    }

    pub fn zero() -> (r: Felt)
        ensures
            r == Felt::spec_zero(),
    {
        Felt { value: 0 }
    }

    pub fn one() -> (r: Felt)
        ensures
            r == Felt::spec_one(),
    {
        Felt { value: 1 }
    }

    pub fn is_zero(&self) -> (r: bool)
        ensures
            r == (self.val() == 0),
    {
        self.value % MODULUS == 0
    }

    /// Field addition.
    pub fn add(&self, other: &Felt) -> (r: Felt)
        ensures
            r.wf(),
            r.val() == (self.val() + other.val()) % MODULUS as int,
    {
        let a: u64 = (self.value % MODULUS) as u64;
        let b: u64 = (other.value % MODULUS) as u64;
        Felt { value: ((a + b) % (MODULUS as u64)) as u32 }
    }

    /// Field subtraction.
    pub fn sub(&self, other: &Felt) -> (r: Felt)
        ensures
            r.wf(),
            r.val() == (self.val() - other.val()) % MODULUS as int,
            r.val() == 0 <==> self.val() == other.val(),
    {
        let a: u64 = (self.value % MODULUS) as u64;
        let b: u64 = (other.value % MODULUS) as u64;
        let r = Felt { value: ((a + MODULUS as u64 - b) % (MODULUS as u64)) as u32 };
        proof {
            let q = MODULUS as int;
            assert(r.val() == (a + q - b) % q);
            lemma_shift_mod(a as int - b as int, q);
        }
        r
    }

    /// Field multiplication.
    pub fn mul(&self, other: &Felt) -> (r: Felt)
        ensures
            r.wf(),
            r.val() == (self.val() * other.val()) % MODULUS as int,
    {
        let a: u64 = (self.value % MODULUS) as u64;
        let b: u64 = (other.value % MODULUS) as u64;
        proof {
            assert(a * b <= (MODULUS as u64 - 1) * (MODULUS as u64 - 1)) by (nonlinear_arith)
                requires
                    a < MODULUS as u64,
                    b < MODULUS as u64,
            ;
        }
        Felt { value: ((a * b) % (MODULUS as u64)) as u32 }
    }
}

/// Adding the modulus once does not change a class, and a difference of two
/// representatives is zero in the field exactly when they are equal.
proof fn lemma_shift_mod(d: int, q: int)
    requires
        q > 1,
        -q < d < q,
    ensures
        (d + q) % q == d % q,
        (d + q) % q == 0 <==> d == 0,
{
    if d >= 0 {
        assert((d + q) % q == d) by {
            vstd::arithmetic::div_mod::lemma_fundamental_div_mod_converse(d + q, q, 1, d);
        }
        assert(d % q == d) by {
            vstd::arithmetic::div_mod::lemma_fundamental_div_mod_converse(d, q, 0, d);
        }
    } else {
        assert((d + q) % q == d + q) by {
            vstd::arithmetic::div_mod::lemma_fundamental_div_mod_converse(d + q, q, 0, d + q);
        }
        assert(d % q == d + q) by {
            vstd::arithmetic::div_mod::lemma_fundamental_div_mod_converse(d, q, -1, d + q);
        }
    }
}

} // verus!
