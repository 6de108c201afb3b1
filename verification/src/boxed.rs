//! The owned, heap-backed unsigned integer: a runtime-sized limb sequence at
//! a precision fixed when the value is constructed.

use vstd::prelude::*;
use vstd::arithmetic::power2::*;
use vstd::pervasive::VecAdditionalExecFns;

use crate::Limb;
use crate::model::{
    lemma_limbs_value_bound, lemma_limbs_value_take_succ, lemma_limbs_value_zero_suffix,
    lemma_min_bits_add_high, limbs_value, min_bits,
};

verus! {

/// The number of limbs needed for a precision of `bits_precision` bits:
/// the precision rounded up to a whole limb.
pub open spec fn nlimbs_of(bits_precision: u32) -> nat {
    ((bits_precision + 63) / 64) as nat
}

/// An unsigned integer at a fixed, runtime-chosen precision, stored as an
/// owned sequence of limbs, least-significant limb first.
///
/// The precision is not a separate field: it is always
/// `limbs.len() * Limb::BITS`, fixed when the value is constructed.
#[derive(Debug, Clone)]
pub struct BoxedUint {
    /// The limbs, least significant first.
    pub limbs: Vec<Limb>,
}

impl View for BoxedUint {
    type V = Seq<Limb>;

    open spec fn view(&self) -> Seq<Limb> {
        self.limbs@
    }
}

impl BoxedUint {
    /// Well-formed: the precision `limbs.len() * Limb::BITS` fits in a `u32`.
    pub open spec fn wf(&self) -> bool {
        self@.len() * 64 <= 0xFFFF_FFFF
    }

    /// The numeric value this integer represents.
    pub open spec fn value(&self) -> nat {
        limbs_value(self@)
    }

    /// The zero value of precision zero: the unique valid zero-size integer.
    pub fn zero() -> (r: Self)
        ensures
            r@.len() == 0,
            r.value() == 0,
            r.wf(),
    {
        BoxedUint { limbs: Vec::new() }
    }

    /// The zero value of the given precision, rounded up to a whole limb.
    pub fn zero_with_precision(bits_precision: u32) -> (r: Self)
        requires
            bits_precision <= 0xFFFF_FFC0,
        ensures
            r@.len() == nlimbs_of(bits_precision),
            forall|j: int| 0 <= j < r@.len() ==> r@[j].0 == 0,
            r.value() == 0,
            r.wf(),
    {
        let n: usize = ((bits_precision + 63) / 64) as usize;
        let mut limbs: Vec<Limb> = Vec::new();
        let mut i: usize = 0;
        while i < n
            invariant
                i <= n,
                limbs@.len() == i,
                forall|j: int| 0 <= j < i ==> limbs@[j].0 == 0,
            decreases n - i,
        {
            limbs.push(Limb(0));
            i = i + 1;
        }
        proof {
            lemma_limbs_value_zero_suffix(limbs@, 0);
            assert(limbs@.take(0) =~= Seq::<Limb>::empty());
        }
        BoxedUint { limbs }
    }

    /// The precision of this integer in bits.
    pub fn bits_precision(&self) -> (r: u32)
        requires
            self.wf(),
        ensures
            r == 64 * self@.len(),
    {
        (self.limbs.len() as u32) * 64
    }

    /// Borrow the limbs, least significant first.
    pub fn as_limbs(&self) -> (r: &[Limb])
        ensures
            r@ == self@,
    {
        self.limbs.as_slice()
    }

    /// The largest value of the given precision: `pow2(bits_precision) - 1`.
    pub fn max(bits_precision: u32) -> (r: Self)
        requires
            bits_precision <= 0xFFFF_FFC0,
        ensures
            r@.len() == nlimbs_of(bits_precision),
            r.value() == pow2(bits_precision as nat) - 1,
            r.wf(),
    {
        let full: usize = (bits_precision / 64) as usize;
        let rem: u32 = bits_precision % 64;
        let mut limbs: Vec<Limb> = Vec::new();
        proof {
            lemma2_to64();
        }
        let mut i: usize = 0;
        while i < full
            invariant
                i <= full,
                limbs@.len() == i,
                limbs_value(limbs@) == pow2(64 * i as nat) - 1,
            decreases full - i,
        {
            proof {
                crate::model::lemma_limbs_value_push(limbs@, Limb(0xFFFF_FFFF_FFFF_FFFF));
                lemma_pow2_adds(64, 64 * i as nat);
                crate::model::lemma_limb_base();
                lemma_pow2_pos(64 * i as nat);
                assert((pow2(64 * i as nat) - 1) + 0xFFFF_FFFF_FFFF_FFFF * pow2(64 * i as nat)
                    == pow2(64) * pow2(64 * i as nat) - 1) by (nonlinear_arith)
                    requires
                        pow2(64) == 0x1_0000_0000_0000_0000,
                        pow2(64 * i as nat) >= 1,
                ;
                assert(64 * (i + 1) as nat == 64 + 64 * i as nat);
            }
            limbs.push(Limb(0xFFFF_FFFF_FFFF_FFFF));
            i = i + 1;
        }
        if rem != 0 {
            let top: u64 = 0xFFFF_FFFF_FFFF_FFFFu64 >> ((64 - rem) as u64);
            proof {
                crate::model::lemma_u64_max_shr((64 - rem) as u64);
                crate::model::lemma_limbs_value_push(limbs@, Limb(top));
                lemma_pow2_adds(rem as nat, 64 * full as nat);
                lemma_pow2_pos(64 * full as nat);
                lemma_pow2_pos(rem as nat);
                assert((pow2(64 * full as nat) - 1) + (pow2(rem as nat) - 1) * pow2(
                    64 * full as nat,
                ) == pow2(rem as nat) * pow2(64 * full as nat) - 1) by (nonlinear_arith)
                    requires
                        pow2(64 * full as nat) >= 1,
                        pow2(rem as nat) >= 1,
                ;
                assert(bits_precision as nat == 64 * full as nat + rem as nat);
            }
            limbs.push(Limb(top));
        } else {
            proof {
                assert(bits_precision as nat == 64 * full as nat);
            }
        }
        BoxedUint { limbs }
    }

    /// The minimal number of bits needed to represent this integer's value:
    /// `0` for zero, else one more than the position of the highest set bit.
    ///
    /// Every limb is inspected unconditionally, with the running result
    /// chosen by arithmetic selection: no branch depends on limb values.
    pub fn bits(&self) -> (r: u32)
        requires
            self.wf(),
        ensures
            r == min_bits(self.value()),
            r <= 64 * self@.len(),
    {
        let n: usize = self.limbs.len();
        let mut result: u32 = 0;
        let mut i: usize = 0;
        proof {
            assert(self@.take(0) =~= Seq::<Limb>::empty());
        }
        while i < n
            invariant
                i <= n,
                n == self@.len(),
                self.wf(),
                result == min_bits(limbs_value(self@.take(i as int))),
                result <= 64 * i,
            decreases n - i,
        {
            let x: u64 = self.limbs[i].0;
            let lz: u32 = x.leading_zeros();
            proof {
                vstd::std_specs::bits::axiom_u64_leading_zeros(x);
                lemma_min_bits_u64(x);
                assert((i + 1) * 64 <= n * 64) by (nonlinear_arith)
                    requires
                        i < n,
                ;
            }
            let bits_i: u32 = (i as u32) * 64 + (64 - lz);
            let nz: u32 = (x != 0) as u32;
            proof {
                lemma_limbs_value_take_succ(self@, i as int);
                lemma_limbs_value_bound(self@.take(i as int));
                if x != 0 {
                    lemma_min_bits_add_high(
                        limbs_value(self@.take(i as int)),
                        x as nat,
                        (64 * i) as nat,
                    );
                    assert(nz * bits_i + (1 - nz) * result == bits_i) by (nonlinear_arith)
                        requires
                            nz == 1,
                    ;
                } else {
                    assert(nz * bits_i + (1 - nz) * result == result) by (nonlinear_arith)
                        requires
                            nz == 0,
                    ;
                    assert(x as nat * pow2((64 * i) as nat) == 0) by (nonlinear_arith)
                        requires
                            x == 0,
                    ;
                }
            }
            result = nz * bits_i + (1 - nz) * result;
            i = i + 1;
        }
        proof {
            assert(self@.take(n as int) =~= self@);
        }
        result
    }

    /// The number of leading zero bits within this integer's precision.
    pub fn leading_zeros(&self) -> (r: u32)
        requires
            self.wf(),
        ensures
            r == 64 * self@.len() - min_bits(self.value()),
    {
        let r = self.bits_precision() - self.bits();
        r
    }
}

/// One word needs `64 - leading_zeros` bits.
proof fn lemma_min_bits_u64(x: u64)
    ensures
        min_bits(x as nat) == 64 - vstd::std_specs::bits::u64_leading_zeros(x),
    decreases x,
{
    reveal(vstd::std_specs::bits::u64_leading_zeros);
    vstd::std_specs::bits::axiom_u64_leading_zeros(x);
    if x != 0 {
        vstd::std_specs::bits::axiom_u64_leading_zeros(x / 2);
        lemma_min_bits_u64(x / 2);
    }
}

impl PartialEq for BoxedUint {
    /// Equal when the limb sequences are equal: same precision, same value.
    fn eq(&self, other: &BoxedUint) -> (r: bool) {
        if self.limbs.len() != other.limbs.len() {
            return false;
        }
        let n: usize = self.limbs.len();
        let mut i: usize = 0;
        while i < n
            invariant
                i <= n,
                n == self@.len(),
                n == other@.len(),
                forall|j: int| 0 <= j < i ==> self@[j] == other@[j],
            decreases n - i,
        {
            if self.limbs[i].0 != other.limbs[i].0 {
                return false;
            }
            i = i + 1;
        }
        proof {
            assert(self@ =~= other@);
        }
        true
    }
}

impl vstd::std_specs::cmp::PartialEqSpecImpl for BoxedUint {
    open spec fn obeys_eq_spec() -> bool {
        true
    }

    open spec fn eq_spec(&self, other: &BoxedUint) -> bool {
        self@ == other@
    }
}

impl Eq for BoxedUint {

}

} // verus!
