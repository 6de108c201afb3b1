//! Hexadecimal decoding: constant-time in the characters' values. Every
//! byte pair is decoded and a single aggregate error flag is accumulated by
//! bitwise-or, with no early exit, so the running time is the same wherever
//! an invalid character sits; the result is valid when the flag stayed zero.

use vstd::prelude::*;
use vstd::arithmetic::power2::*;
use vstd::pervasive::VecAdditionalExecFns;
use vstd::string::StringSliceAdditionalSpecFns;

use subtle::CtOption;

use crate::boxed::BoxedUint;
use crate::model::{lemma_limb_base, limb_base, limbs_value};
use crate::Limb;

verus! {

/// Whether a byte is an ASCII hex digit, upper or lower case.
pub open spec fn is_hex_digit(b: u8) -> bool {
    (0x30 <= b <= 0x39) || (0x41 <= b <= 0x46) || (0x61 <= b <= 0x66)
}

/// The numeric value of an ASCII hex digit.
pub open spec fn hex_digit_value(b: u8) -> nat {
    if 0x30 <= b <= 0x39 {
        (b - 0x30) as nat
    } else if 0x41 <= b <= 0x46 {
        (b - 0x37) as nat
    } else if 0x61 <= b <= 0x66 {
        (b - 0x57) as nat
    } else {
        0
    }
}

/// The numeric value of a big-endian hex digit string: the last digit is the
/// least significant.
pub open spec fn hex_value(s: Seq<u8>) -> nat
    decreases s.len(),
{
    if s.len() == 0 {
        0
    } else {
        16 * hex_value(s.drop_last()) + hex_digit_value(s.last())
    }
}

/// Every byte of `s` is a valid hex digit.
pub open spec fn all_hex_digits(s: Seq<u8>) -> bool {
    forall|i: int| 0 <= i < s.len() ==> is_hex_digit(s[i])
}

/// Validity of a concatenation splits into validity of the parts.
proof fn lemma_all_hex_split(s: Seq<u8>, a: int)
    requires
        0 <= a <= s.len(),
    ensures
        all_hex_digits(s) <==> (all_hex_digits(s.take(a)) && all_hex_digits(s.skip(a))),
{
    if all_hex_digits(s) {
        assert forall|i: int| 0 <= i < s.take(a).len() implies is_hex_digit(s.take(a)[i]) by {
            assert(s.take(a)[i] == s[i]);
        }
        assert forall|i: int| 0 <= i < s.skip(a).len() implies is_hex_digit(s.skip(a)[i]) by {
            assert(s.skip(a)[i] == s[i + a]);
        }
    }
    if all_hex_digits(s.take(a)) && all_hex_digits(s.skip(a)) {
        assert forall|i: int| 0 <= i < s.len() implies is_hex_digit(s[i]) by {
            if i < a {
                assert(s[i] == s.take(a)[i]);
            } else {
                assert(s[i] == s.skip(a)[i - a]);
            }
        }
    }
}

/// A hex digit string of length `n` holds a value below `pow2(4 * n)`.
proof fn lemma_hex_value_bound(s: Seq<u8>)
    ensures
        hex_value(s) < pow2(4 * s.len()),
    decreases s.len(),
{
    lemma2_to64();
    if s.len() == 0 {
    } else {
        lemma_hex_value_bound(s.drop_last());
        lemma_pow2_adds(4, 4 * (s.len() - 1) as nat);
        assert(4 * s.len() == 4 + 4 * (s.len() - 1) as nat);
        assert(16 * hex_value(s.drop_last()) + hex_digit_value(s.last()) < pow2(4) * pow2(
            4 * (s.len() - 1) as nat,
        )) by (nonlinear_arith)
            requires
                pow2(4) == 16,
                hex_digit_value(s.last()) < 16,
                hex_value(s.drop_last()) < pow2(4 * (s.len() - 1) as nat),
        ;
    }
}

/// Appending hex digits at the least-significant end scales the old value by
/// the weight of the appended part.
proof fn lemma_hex_value_append(a: Seq<u8>, b: Seq<u8>)
    ensures
        hex_value(a + b) == hex_value(a) * pow2(4 * b.len()) + hex_value(b),
    decreases b.len(),
{
    if b.len() == 0 {
        assert(a + b =~= a);
        lemma2_to64();
        assert(pow2(0) == 1);
        assert(hex_value(b) == 0);
        assert(hex_value(a + b) == hex_value(a));
        assert(hex_value(a) * pow2(4 * b.len()) == hex_value(a) * 1);
    } else {
        let bl = b.drop_last();
        let w = pow2(4 * (b.len() - 1) as nat);
        assert((a + b).drop_last() =~= a + bl);
        assert((a + b).last() == b.last());
        assert(hex_value(a + b) == 16 * hex_value(a + bl) + hex_digit_value(b.last()));
        lemma_hex_value_append(a, bl);
        lemma_pow2_adds(4, 4 * (b.len() - 1) as nat);
        lemma2_to64();
        assert(4 * b.len() == 4 + 4 * (b.len() - 1) as nat);
        assert(pow2(4 * b.len()) == 16 * w);
        assert(16 * (hex_value(a) * w + hex_value(bl)) == hex_value(a) * (16 * w) + 16 * hex_value(
            bl,
        )) by (nonlinear_arith);
        assert(hex_value(b) == 16 * hex_value(bl) + hex_digit_value(b.last()));
        assert(hex_value(a + b) == hex_value(a) * pow2(4 * b.len()) + hex_value(b));
    }
}

/// Decode one ASCII byte as a hex digit, without branching on its value:
/// the digit and an error flag, both computed arithmetically. The flag is
/// zero exactly when the byte is a valid hex digit.
fn decode_hex_nibble(b: u8) -> (r: (u8, u32))
    ensures
        r.1 == 0 <==> is_hex_digit(b),
        r.0 == hex_digit_value(b),
        r.0 < 16,
{
    let c: u32 = b as u32;
    let is_d: u32 = ((c >= 0x30) && (c <= 0x39)) as u32;
    let is_u: u32 = ((c >= 0x41) && (c <= 0x46)) as u32;
    let is_l: u32 = ((c >= 0x61) && (c <= 0x66)) as u32;
    proof {
        if 0x30 <= c && c <= 0x39 {
            assert(is_d * c + is_u * c + is_l * c == c) by (nonlinear_arith)
                requires
                    is_d == 1 && is_u == 0 && is_l == 0,
            ;
            assert(is_d * 0x30 + is_u * 0x37 + is_l * 0x57 == 0x30) by (nonlinear_arith)
                requires
                    is_d == 1 && is_u == 0 && is_l == 0,
            ;
        } else if 0x41 <= c && c <= 0x46 {
            assert(is_d * c + is_u * c + is_l * c == c) by (nonlinear_arith)
                requires
                    is_d == 0 && is_u == 1 && is_l == 0,
            ;
            assert(is_d * 0x30 + is_u * 0x37 + is_l * 0x57 == 0x37) by (nonlinear_arith)
                requires
                    is_d == 0 && is_u == 1 && is_l == 0,
            ;
        } else if 0x61 <= c && c <= 0x66 {
            assert(is_d * c + is_u * c + is_l * c == c) by (nonlinear_arith)
                requires
                    is_d == 0 && is_u == 0 && is_l == 1,
            ;
            assert(is_d * 0x30 + is_u * 0x37 + is_l * 0x57 == 0x57) by (nonlinear_arith)
                requires
                    is_d == 0 && is_u == 0 && is_l == 1,
            ;
        } else {
            assert(is_d * c + is_u * c + is_l * c == 0) by (nonlinear_arith)
                requires
                    is_d == 0 && is_u == 0 && is_l == 0,
            ;
            assert(is_d * 0x30 + is_u * 0x37 + is_l * 0x57 == 0) by (nonlinear_arith)
                requires
                    is_d == 0 && is_u == 0 && is_l == 0,
            ;
        }
    }
    let v: u32 = (is_d * c + is_u * c + is_l * c) - (is_d * 0x30 + is_u * 0x37 + is_l * 0x57);
    (v as u8, 1 - (is_d + is_u + is_l))
}

/// Decode one pair of ASCII bytes as one output byte, with an error flag
/// computed without branching on the characters' values. The flag is zero
/// exactly when both bytes are valid hex digits.
fn decode_hex_byte(hi: u8, lo: u8) -> (r: (u8, u32))
    ensures
        r.1 == 0 <==> is_hex_digit(hi) && is_hex_digit(lo),
        r.0 == 16 * hex_digit_value(hi) + hex_digit_value(lo),
{
    let (vh, eh) = decode_hex_nibble(hi);
    let (vl, el) = decode_hex_nibble(lo);
    proof {
        assert(eh | el == 0 <==> eh == 0 && el == 0) by (bit_vector);
    }
    (vh * 16 + vl, eh | el)
}

impl BoxedUint {
    /// Decode a big-endian hex string at the given precision, paired with a
    /// validity flag: true exactly when every character is a valid hex
    /// digit, in which case the value is the string's.
    ///
    /// The string must hold exactly two characters per byte of the implied
    /// limb count. The flag is accumulated across all characters with no
    /// early exit, so decoding is constant-time in the characters' values;
    /// the caller decides validity from the flag.
    pub fn from_be_hex_checked(hex: &str, bits_precision: u32) -> (r: (Self, bool))
        requires
            hex.spec_bytes().len() == 16 * (bits_precision / 64),
        ensures
            r.1 <==> all_hex_digits(hex.spec_bytes()),
            r.0@.len() == bits_precision / 64,
            r.0.wf(),
            r.1 ==> r.0.value() == hex_value(hex.spec_bytes()),
    {
        let bytes: &[u8] = hex.as_bytes();
        let nlimbs: usize = (bits_precision / 64) as usize;
        let mut limbs: Vec<Limb> = Vec::new();
        let mut k: usize = 0;
        while k < nlimbs
            invariant
                k <= nlimbs,
                limbs@.len() == k,
                forall|j: int| 0 <= j < k ==> limbs@[j].0 == 0,
            decreases nlimbs - k,
        {
            limbs.push(Limb(0));
            k = k + 1;
        }
        let blen: usize = bytes.len();
        let mut err: u32 = 0;
        let mut i: usize = 0;
        proof {
            assert(bytes@.take(0) =~= Seq::<u8>::empty());
            assert(limbs@.skip(nlimbs as int) =~= Seq::<Limb>::empty());
        }
        while i < nlimbs
            invariant
                i <= nlimbs,
                limbs@.len() == nlimbs,
                blen == 16 * nlimbs,
                bytes@.len() == 16 * nlimbs,
                bytes@ == hex.spec_bytes(),
                forall|j: int| 0 <= j < nlimbs - i ==> limbs@[j].0 == 0,
                err == 0 <==> all_hex_digits(bytes@.take(16 * i)),
                err == 0 ==> limbs_value(limbs@.skip(nlimbs - i)) == hex_value(
                    bytes@.take(16 * i),
                ),
            decreases nlimbs - i,
        {
            proof {
                assert(16 * (i + 1) <= 16 * nlimbs) by (nonlinear_arith)
                    requires
                        i < nlimbs,
                ;
                assert(16 * i <= blen);
            }
            let off: usize = 16 * i;
            let mut limb: u64 = 0;
            let mut chunk_err: u32 = 0;
            let mut j: usize = 0;
            proof {
                assert(bytes@.subrange(off as int, off as int) =~= Seq::<u8>::empty());
            }
            while j < 8
                invariant
                    j <= 8,
                    off == 16 * i,
                    off + 16 <= bytes@.len(),
                    limb as nat == hex_value(bytes@.subrange(off as int, off + 2 * j)),
                    chunk_err == 0 <==> all_hex_digits(bytes@.subrange(off as int, off + 2 * j)),
                decreases 8 - j,
            {
                let c0: u8 = bytes[off + 2 * j];
                let c1: u8 = bytes[off + 2 * j + 1];
                let (byte, byte_err) = decode_hex_byte(c0, c1);
                proof {
                    lemma2_to64();
                    lemma2_to64_rest();
                    let part = bytes@.subrange(off as int, off + 2 * j);
                    lemma_hex_value_bound(part);
                    if 4 * part.len() < 56 {
                        lemma_pow2_strictly_increases(4 * part.len(), 56);
                    }
                    assert(limb < 0x100_0000_0000_0000);
                    let part2 = bytes@.subrange(off as int, off + 2 * j + 2);
                    assert(part2.drop_last() =~= bytes@.subrange(off as int, off + 2 * j + 1));
                    assert(part2.drop_last().drop_last() =~= part);
                    assert(part2.last() == c1);
                    assert(part2.drop_last().last() == c0);
                    assert(hex_value(bytes@.subrange(off as int, off + 2 * j + 1)) == 16
                        * hex_value(part) + hex_digit_value(c0));
                    assert(hex_value(part2) == 16 * hex_value(
                        bytes@.subrange(off as int, off + 2 * j + 1),
                    ) + hex_digit_value(c1));
                    lemma_all_hex_split(part2, 2 * j);
                    assert(part2.take(2 * j) =~= part);
                    assert(part2.skip(2 * j) =~= seq![c0, c1]);
                    assert(all_hex_digits(seq![c0, c1]) <==> is_hex_digit(c0) && is_hex_digit(
                        c1,
                    )) by {
                        assert(seq![c0, c1][0] == c0 && seq![c0, c1][1] == c1);
                    }
                }
                proof {
                    assert(chunk_err | byte_err == 0 <==> chunk_err == 0 && byte_err == 0)
                        by (bit_vector);
                }
                limb = limb * 256 + (byte as u64);
                chunk_err = chunk_err | byte_err;
                j = j + 1;
            }
            let ghost old_limbs = limbs@;
            let ghost old_err = err;
            limbs.set(nlimbs - 1 - i, Limb(limb));
            proof {
                assert(old_err | chunk_err == 0 <==> old_err == 0 && chunk_err == 0)
                    by (bit_vector);
            }
            err = err | chunk_err;
            proof {
                lemma_limb_base();
                let pos = nlimbs - 1 - i;
                assert(limbs@.skip(pos as int).drop_first() =~= old_limbs.skip(nlimbs - i));
                assert(limbs@.skip(pos as int).first() == Limb(limb));
                let chunk = bytes@.subrange(off as int, off + 16);
                assert(bytes@.take(16 * (i + 1)) =~= bytes@.take(16 * i) + chunk);
                lemma_hex_value_append(bytes@.take(16 * i), chunk);
                if err == 0 {
                    assert(limbs_value(limbs@.skip(pos as int)) == limb + limb_base()
                        * limbs_value(old_limbs.skip(nlimbs - i)));
                    assert(hex_value(bytes@.take(16 * i)) * pow2(4 * chunk.len()) == limb_base()
                        * limbs_value(old_limbs.skip(nlimbs - i))) by (nonlinear_arith)
                        requires
                            hex_value(bytes@.take(16 * i)) == limbs_value(
                                old_limbs.skip(nlimbs - i),
                            ),
                            pow2(4 * chunk.len()) == limb_base(),
                    ;
                }
                lemma_all_hex_split(bytes@.take(16 * (i + 1)), 16 * i);
                assert(bytes@.take(16 * (i + 1)).take(16 * i) =~= bytes@.take(16 * i));
                assert(bytes@.take(16 * (i + 1)).skip(16 * i) =~= chunk);
            }
            i = i + 1;
        }
        proof {
            assert(bytes@.take(16 * nlimbs as int) =~= bytes@);
            assert(limbs@.skip(0) =~= limbs@);
        }
        (BoxedUint { limbs }, err == 0)
    }

    /// Create a new [`BoxedUint`] from the provided big-endian hex string,
    /// as a conditionally-valid value: the decoded integer together with a
    /// constant-time flag that reports whether every character was valid.
    /// The option's flag and contents are spoken of through
    /// [`ct_option_is_some`] and [`ct_option_limbs`].
    ///
    /// The string must hold exactly two characters per byte of the limb
    /// count implied by `bits_precision`. Unlike the byte decoders, a length
    /// mismatch here is a precondition on the caller, not a typed error.
    pub fn from_be_hex(hex: &str, bits_precision: u32) -> (r: CtOption<Self>)
        requires
            hex.spec_bytes().len() == 16 * (bits_precision / 64),
        ensures
            ct_option_is_some(r) <==> all_hex_digits(hex.spec_bytes()),
            ct_option_limbs(r).len() == bits_precision / 64,
            ct_option_is_some(r) ==> limbs_value(ct_option_limbs(r)) == hex_value(
                hex.spec_bytes(),
            ),
    {
        let (value, ok) = Self::from_be_hex_checked(hex, bits_precision);
        ct_option_new(value, ok)
    }
}

#[verifier::external_type_specification]
#[verifier::external_body]
#[verifier::reject_recursive_types(T)]
pub struct ExCtOption<T>(CtOption<T>);

/// The flag a [`CtOption`] built by this module carries: whether it reports
/// its value as present.
pub uninterp spec fn ct_option_is_some(o: CtOption<BoxedUint>) -> bool;

/// The limbs of the value a [`CtOption`] built by this module stores.
pub uninterp spec fn ct_option_limbs(o: CtOption<BoxedUint>) -> Seq<Limb>;

/// Relies on `subtle::CtOption::new` and `subtle::Choice::from`: the option
/// stores exactly this value and this flag, named by [`ct_option_limbs`]
/// and [`ct_option_is_some`]; `Choice::from` is handed 0 or 1 only.
#[verifier::external_body]
fn ct_option_new(value: BoxedUint, is_some: bool) -> (r: CtOption<BoxedUint>)
    ensures
        ct_option_is_some(r) == is_some,
        ct_option_limbs(r) == value@,
{
    CtOption::new(value, subtle::Choice::from(is_some as u8))
}

} // verus!
