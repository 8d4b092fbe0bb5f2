//! A prime-field numeric type used for the literals of the abstract
//! syntax.  The modulus is fixed; all elements are kept reduced.  It
//! stands in for the abstract field capability the pass consumes: the
//! flattening itself never depends on the modulus, which only has to
//! be prime and large enough for the digit widths in use.

use vstd::prelude::*;
use vstd::arithmetic::div_mod::lemma_mul_mod_noop_left;

verus! {

/// The field modulus, a prime.
pub const FIELD_MODULUS: u64 = 2147483647;

/// An element of the prime field, kept reduced modulo `FIELD_MODULUS`.
#[derive(Clone, Copy, PartialEq, Eq, Structural, Debug)]
pub struct Fp {
    pub v: u64,
}

/// Integer exponentiation, the reference for `Fp::pow`.
pub open spec fn pow_int(b: int, e: nat) -> int
    decreases e,
{
    if e == 0 {
        1
    } else {
        b * pow_int(b, (e - 1) as nat)
    }
}

impl Fp {
    /// A reduced element.
    pub open spec fn wf(self) -> bool {
        self.v < FIELD_MODULUS
    }

    /// The element's representative as a mathematical integer.
    pub open spec fn as_int(self) -> int {
        self.v as int
    }

    pub fn zero() -> (r: Fp)
        ensures
            r.wf(),
            r.as_int() == 0,
    {
        Fp { v: 0 }
    }

    pub fn one() -> (r: Fp)
        ensures
            r.wf(),
            r.as_int() == 1,
    {
        Fp { v: 1 }
    }

    /// The element standing for an arbitrary machine integer.
    pub fn from_u64(x: u64) -> (r: Fp)
        ensures
            r.wf(),
            r.as_int() == x as int % FIELD_MODULUS as int,
    {
        Fp { v: x % FIELD_MODULUS }
    }

    pub fn add(self, other: Fp) -> (r: Fp)
        requires
            self.wf(),
            other.wf(),
        ensures
            r.wf(),
            r.as_int() == (self.as_int() + other.as_int()) % FIELD_MODULUS as int,
    {
        Fp { v: (self.v + other.v) % FIELD_MODULUS }
    }

    pub fn sub(self, other: Fp) -> (r: Fp)
        requires
            self.wf(),
            other.wf(),
        ensures
            r.wf(),
            r.as_int() == (self.as_int() - other.as_int()) % FIELD_MODULUS as int,
    {
        let r = Fp { v: (self.v + FIELD_MODULUS - other.v) % FIELD_MODULUS };
        proof {
            let p = FIELD_MODULUS as int;
            assert((self.as_int() + p - other.as_int()) % p == (self.as_int() - other.as_int())
                % p) by {
                vstd::arithmetic::div_mod::lemma_mod_add_multiples_vanish(
                    self.as_int() - other.as_int(),
                    p,
                );
            }
        }
        r
    }

    pub fn mul(self, other: Fp) -> (r: Fp)
        requires
            self.wf(),
            other.wf(),
        ensures
            r.wf(),
            r.as_int() == (self.as_int() * other.as_int()) % FIELD_MODULUS as int,
    {
        proof {
            assert(self.v * other.v < 0x4000000000000000) by (nonlinear_arith)
                requires
                    self.v < 0x80000000,
                    other.v < 0x80000000,
            ;
        }
        Fp { v: (self.v * other.v) % FIELD_MODULUS }
    }

    /// Raises the element to a machine-integer exponent.
    pub fn pow(self, e: usize) -> (r: Fp)
        requires
            self.wf(),
        ensures
            r.wf(),
            r.as_int() == pow_int(self.as_int(), e as nat) % FIELD_MODULUS as int,
    {
        let mut acc = Fp { v: 1 };
        let mut i: usize = 0;
        proof {
            assert(1int % (FIELD_MODULUS as int) == 1);
        }
        while i < e
            invariant
                self.wf(),
                acc.wf(),
                i <= e,
                acc.as_int() == pow_int(self.as_int(), i as nat) % FIELD_MODULUS as int,
            decreases e - i,
        {
            acc = acc.mul(self);
            proof {
                let b = self.as_int();
                lemma_mul_mod_noop_left(pow_int(b, i as nat), b, FIELD_MODULUS as int);
                assert(pow_int(b, (i + 1) as nat) == b * pow_int(b, i as nat));
                assert(b * pow_int(b, i as nat) == pow_int(b, i as nat) * b) by (nonlinear_arith);
            }
            i = i + 1;
        }
        acc
    }

}

} // verus!
