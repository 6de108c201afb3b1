//! Radix string decoding and encoding for bases 2 to 36, big-endian digit
//! order, with an optional leading `+` and underscores as no-op separators.
//!
//! The multiply-accumulate digit parser is written once, over a limb-sink
//! capability with two implementations: a growable sink for the entry point
//! that derives its precision from the input, and a fixed-capacity sink for
//! the precision-checked entry point, where a push past capacity surfaces as
//! an overflow instead of growing.

use vstd::prelude::*;
use vstd::arithmetic::div_mod::{
    lemma_div_decreases, lemma_fundamental_div_mod, lemma_fundamental_div_mod_converse,
};
use vstd::arithmetic::power2::{lemma2_to64, lemma2_to64_rest, lemma_pow2_adds, lemma_pow2_pos, pow2};
use vstd::pervasive::VecAdditionalExecFns;
use vstd::string::StringSliceAdditionalSpecFns;

use crate::boxed::{nlimbs_of, BoxedUint};
use crate::model::{
    lemma_limb_base, lemma_limbs_value_bound, lemma_limbs_value_push,
    lemma_limbs_value_take_succ, lemma_limbs_value_top_nonzero, lemma_limbs_value_zero_suffix,
    limb_base, limbs_value, min_bits,
};
use crate::{DecodeError, Limb};

verus! {

/// The digit value of an ASCII byte: `0-9`, then `a-z` and `A-Z` from 10.
/// Bytes outside those ranges map to 36, which no radix in range accepts.
pub open spec fn radix_digit_value(b: u8) -> nat {
    if 0x30 <= b <= 0x39 {
        (b - 0x30) as nat
    } else if 0x41 <= b <= 0x5A {
        (b - 0x37) as nat
    } else if 0x61 <= b <= 0x7A {
        (b - 0x57) as nat
    } else {
        36
    }
}

/// Whether a byte is a valid digit for the given radix.
pub open spec fn is_radix_digit(b: u8, radix: u32) -> bool {
    radix_digit_value(b) < radix
}

/// The left-to-right scan of a digit string: accumulate `acc * radix +
/// digit`, skip underscores, stop at the first invalid digit, and, when a
/// capacity is given, stop as soon as the accumulated value reaches it.
pub open spec fn radix_scan(s: Seq<u8>, radix: u32, acc: nat, cap: Option<nat>) -> Result<
    nat,
    DecodeError,
>
    decreases s.len(),
{
    if s.len() == 0 {
        Ok(acc)
    } else if s.first() == 0x5F {
        radix_scan(s.drop_first(), radix, acc, cap)
    } else if !is_radix_digit(s.first(), radix) {
        Err(DecodeError::InvalidDigit)
    } else {
        let v: nat = acc * (radix as nat) + radix_digit_value(s.first());
        if cap is Some && v >= cap->Some_0 {
            Err(DecodeError::InputSize)
        } else {
            radix_scan(s.drop_first(), radix, v, cap)
        }
    }
}

/// The digit string with one leading `+` removed, if present.
pub open spec fn strip_plus(s: Seq<u8>) -> Seq<u8> {
    if s.len() > 0 && s.first() == 0x2B {
        s.drop_first()
    } else {
        s
    }
}

/// What decoding a whole radix string yields: the scan of the string after
/// the optional sign, starting from zero.
pub open spec fn radix_parse(s: Seq<u8>, radix: u32, cap: Option<nat>) -> Result<
    nat,
    DecodeError,
> {
    radix_scan(strip_plus(s), radix, 0, cap)
}

/// Decode one ASCII byte as a digit of the given radix: the value and an
/// invalidity flag. Variable-time; radix strings are public inputs.
fn decode_radix_digit(b: u8, radix: u32) -> (r: (u32, bool))
    requires
        2 <= radix <= 36,
    ensures
        r.1 == !is_radix_digit(b, radix),
        !r.1 ==> r.0 == radix_digit_value(b) && r.0 < radix,
{
    let v: u32 = if b >= 0x30 && b <= 0x39 {
        (b - 0x30) as u32
    } else if b >= 0x41 && b <= 0x5A {
        (b - 0x37) as u32
    } else if b >= 0x61 && b <= 0x7A {
        (b - 0x57) as u32
    } else {
        36
    };
    if v < radix {
        (v, false)
    } else {
        (0, true)
    }
}

/// A destination for decoded limbs: read and write the limbs accumulated so
/// far, and try to append one more at the most-significant end. The growable
/// sink always accepts a push; the fixed sink never does, so that overflow
/// surfaces instead of growing past the declared capacity.
pub trait DecodeByLimb: Sized {
    /// The limbs accumulated so far, least significant first.
    spec fn limbs(&self) -> Seq<Limb>;

    /// Whether a push succeeds: a fixed-capacity sink refuses all pushes.
    spec fn can_push(&self) -> bool;

    /// The number of limbs currently held.
    fn num_limbs(&self) -> (n: usize)
        ensures
            n == self.limbs().len(),
    ;

    /// The limb at position `i`.
    fn limb_at(&self, i: usize) -> (r: Limb)
        requires
            i < self.limbs().len(),
        ensures
            r == self.limbs()[i as int],
    ;

    /// Overwrite the limb at position `i`.
    fn set_limb(&mut self, i: usize, l: Limb)
        requires
            i < old(self).limbs().len(),
        ensures
            final(self).limbs() == old(self).limbs().update(i as int, l),
            final(self).can_push() == old(self).can_push(),
    ;

    /// Try to append a most-significant limb, reporting success.
    fn push_limb(&mut self, l: Limb) -> (ok: bool)
        ensures
            ok == old(self).can_push(),
            ok ==> final(self).limbs() == old(self).limbs().push(l),
            !ok ==> final(self).limbs() == old(self).limbs(),
            final(self).can_push() == old(self).can_push(),
    ;
}

/// The growable limb sink: appends without bound, for the entry point whose
/// precision is derived from however many limbs the value needs.
pub struct VecDecodeByLimb {
    /// The limbs accumulated so far.
    pub limbs: Vec<Limb>,
}

impl DecodeByLimb for VecDecodeByLimb {
    open spec fn limbs(&self) -> Seq<Limb> {
        self.limbs@
    }

    open spec fn can_push(&self) -> bool {
        true
    }

    fn num_limbs(&self) -> usize {
        self.limbs.len()
    }

    fn limb_at(&self, i: usize) -> Limb {
        self.limbs[i]
    }

    fn set_limb(&mut self, i: usize, l: Limb) {
        self.limbs.set(i, l);
    }

    fn push_limb(&mut self, l: Limb) -> bool {
        self.limbs.push(l);
        true
    }
}

/// The fixed-capacity limb sink: wraps a caller-sized, pre-zeroed limb
/// buffer; a push that would exceed the capacity fails instead of growing.
pub struct SliceDecodeByLimb {
    /// The fixed limb buffer.
    pub limbs: Vec<Limb>,
}

impl DecodeByLimb for SliceDecodeByLimb {
    open spec fn limbs(&self) -> Seq<Limb> {
        self.limbs@
    }

    open spec fn can_push(&self) -> bool {
        false
    }

    fn num_limbs(&self) -> usize {
        self.limbs.len()
    }

    fn limb_at(&self, i: usize) -> Limb {
        self.limbs[i]
    }

    fn set_limb(&mut self, i: usize, l: Limb) {
        self.limbs.set(i, l);
    }

    fn push_limb(&mut self, _l: Limb) -> bool {
        false
    }
}

/// Multiply the accumulated limbs by the radix and add one digit in place,
/// returning the carry out of the most-significant limb.
fn mul_add_limbs<D: DecodeByLimb>(dec: &mut D, radix: u32, d: u32) -> (carry: u64)
    requires
        2 <= radix <= 36,
        d < radix,
    ensures
        final(dec).limbs().len() == old(dec).limbs().len(),
        final(dec).can_push() == old(dec).can_push(),
        limbs_value(final(dec).limbs()) + carry * pow2(64 * old(dec).limbs().len())
            == limbs_value(old(dec).limbs()) * radix + d,
        carry < radix,
{
    let ghost limbs0 = dec.limbs();
    let n: usize = dec.num_limbs();
    let mut carry: u64 = d as u64;
    let mut i: usize = 0;
    proof {
        lemma2_to64();
        assert(dec.limbs().take(0) =~= Seq::<Limb>::empty());
        assert(limbs0.take(0) =~= Seq::<Limb>::empty());
        assert(limbs_value(Seq::<Limb>::empty()) == 0);
        assert(limbs_value(dec.limbs().take(0)) + carry * pow2(64 * 0) == limbs_value(
            limbs0.take(0),
        ) * radix + d) by (nonlinear_arith)
            requires
                limbs_value(dec.limbs().take(0)) == 0,
                limbs_value(limbs0.take(0)) == 0,
                pow2(64 * 0) == 1,
                carry == d,
        ;
    }
    while i < n
        invariant
            i <= n,
            2 <= radix <= 36,
            n == limbs0.len(),
            dec.limbs().len() == n,
            dec.can_push() == old(dec).can_push(),
            limbs0 == old(dec).limbs(),
            carry < radix,
            forall|j: int| i <= j < n ==> dec.limbs()[j] == limbs0[j],
            limbs_value(dec.limbs().take(i as int)) + carry * pow2(64 * i as nat) == limbs_value(
                limbs0.take(i as int),
            ) * radix + d,
        decreases n - i,
    {
        let limb: u64 = dec.limb_at(i).0;
        proof {
            assert(limb * radix + carry < 0x1_0000_0000_0000_0000 * 37) by (nonlinear_arith)
                requires
                    limb < 0x1_0000_0000_0000_0000,
                    radix <= 36,
                    carry < radix,
            ;
        }
        let cur: u128 = (limb as u128) * (radix as u128) + (carry as u128);
        proof {
            lemma_limb_base();
            lemma2_to64();
            lemma2_to64_rest();
            assert(cur < radix * 0x1_0000_0000_0000_0000) by (nonlinear_arith)
                requires
                    cur == limb * radix + carry,
                    limb < 0x1_0000_0000_0000_0000,
                    carry < radix,
                    2 <= radix <= 36,
            ;
        }
        let lo: u64 = (cur % 0x1_0000_0000_0000_0000u128) as u64;
        let hi: u64 = (cur / 0x1_0000_0000_0000_0000u128) as u64;
        proof {
            lemma_fundamental_div_mod(cur as int, 0x1_0000_0000_0000_0000);
            assert(hi < radix) by (nonlinear_arith)
                requires
                    cur < radix * 0x1_0000_0000_0000_0000,
                    hi == cur as int / 0x1_0000_0000_0000_0000,
                    cur >= 0,
            ;
        }
        let ghost pre = dec.limbs();
        dec.set_limb(i, Limb(lo));
        proof {
            assert(dec.limbs().take(i as int) =~= pre.take(i as int));
            assert(limbs0.take(i + 1) =~= limbs0.take(i as int).push(limbs0[i as int]));
            lemma_limbs_value_take_succ(dec.limbs(), i as int);
            lemma_limbs_value_take_succ(limbs0, i as int);
            lemma_pow2_adds(64, 64 * i as nat);
            assert(64 * (i + 1) as nat == 64 + 64 * i as nat);
            let w = pow2(64 * i as nat);
            assert(limbs_value(dec.limbs().take(i + 1)) + hi * pow2(64 * (i + 1) as nat)
                == limbs_value(limbs0.take(i + 1)) * radix + d) by (nonlinear_arith)
                requires
                    limbs_value(dec.limbs().take(i + 1)) == limbs_value(pre.take(i as int)) + lo
                        * w,
                    limbs_value(limbs0.take(i + 1)) == limbs_value(limbs0.take(i as int))
                        + limb * w,
                    limbs_value(pre.take(i as int)) + carry * w == limbs_value(
                        limbs0.take(i as int),
                    ) * radix + d,
                    pow2(64 * (i + 1) as nat) == 0x1_0000_0000_0000_0000 * w,
                    cur == limb * radix + carry,
                    cur == 0x1_0000_0000_0000_0000 * (hi as int) + lo,
                    limbs0[i as int].0 == limb,
            ;
        }
        carry = hi;
        i = i + 1;
    }
    proof {
        assert(dec.limbs().take(n as int) =~= dec.limbs());
        assert(limbs0.take(n as int) =~= limbs0);
    }
    carry
}

/// The capacity against which a scan is checked: none for a growable sink,
/// the weight of one limb past the buffer for a fixed sink.
pub open spec fn decode_cap(can_push: bool, nlimbs: nat) -> Option<nat> {
    if can_push {
        None
    } else {
        Some(pow2(64 * nlimbs))
    }
}

/// A limb sequence whose value reaches the weight of its top position has a
/// nonzero most-significant limb.
proof fn lemma_top_nonzero_from_value(s: Seq<Limb>)
    requires
        s.len() > 0,
        limbs_value(s) >= pow2(64 * (s.len() - 1) as nat),
    ensures
        s.last().0 != 0,
{
    if s.last().0 == 0 {
        lemma_limbs_value_zero_suffix(s, s.len() - 1);
        lemma_limbs_value_bound(s.take(s.len() - 1));
    }
}

/// Decode a big-endian digit string in the given radix into a limb sink:
/// the shared multiply-accumulate parser behind both string entry points.
///
/// The sink starts zeroed. On success its limbs hold the parsed value; the
/// errors mirror the scan: the first invalid digit, or the first digit whose
/// accumulation would not fit a fixed sink.
fn radix_decode_str<D: DecodeByLimb>(src: &str, radix: u32, dec: &mut D) -> (r: Result<
    (),
    DecodeError,
>)
    requires
        2 <= radix <= 36,
        forall|j: int| 0 <= j < old(dec).limbs().len() ==> old(dec).limbs()[j].0 == 0,
    ensures
        final(dec).can_push() == old(dec).can_push(),
        !old(dec).can_push() ==> final(dec).limbs().len() == old(dec).limbs().len(),
        final(dec).limbs().len() <= old(dec).limbs().len() + src.spec_bytes().len(),
        ({
            let p = radix_parse(
                src.spec_bytes(),
                radix,
                decode_cap(old(dec).can_push(), old(dec).limbs().len()),
            );
            match r {
                Ok(_) => {
                    &&& p == Ok::<nat, DecodeError>(limbs_value(final(dec).limbs()))
                    &&& (old(dec).can_push() && old(dec).limbs().len() == 0
                        ==> (final(dec).limbs().len() == 0 || final(dec).limbs().last().0 != 0))
                },
                Err(e) => p == Err::<nat, DecodeError>(e) && (e == DecodeError::InvalidDigit
                    || e == DecodeError::InputSize),
            }
        }),
{
    let ghost len0 = old(dec).limbs().len();
    let ghost can_push0 = old(dec).can_push();
    let ghost cap = decode_cap(can_push0, len0);
    let bytes: &[u8] = src.as_bytes();
    let blen: usize = bytes.len();
    let mut pos: usize = 0;
    if blen > 0 && bytes[0] == 0x2B {
        pos = 1;
    }
    proof {
        assert(bytes@.skip(pos as int) =~= strip_plus(bytes@));
        lemma_limbs_value_zero_suffix(dec.limbs(), 0);
        assert(dec.limbs().take(0) =~= Seq::<Limb>::empty());
    }
    while pos < blen
        invariant
            pos <= blen,
            2 <= radix <= 36,
            blen == bytes@.len(),
            bytes@ == src.spec_bytes(),
            can_push0 == old(dec).can_push(),
            len0 == old(dec).limbs().len(),
            dec.can_push() == can_push0,
            cap == decode_cap(can_push0, len0),
            !can_push0 ==> dec.limbs().len() == len0,
            dec.limbs().len() <= len0 + pos,
            can_push0 && len0 == 0 ==> (dec.limbs().len() == 0 || dec.limbs().last().0 != 0),
            radix_scan(bytes@.skip(pos as int), radix, limbs_value(dec.limbs()), cap)
                == radix_scan(strip_plus(bytes@), radix, 0, cap),
        decreases blen - pos,
    {
        let b: u8 = bytes[pos];
        proof {
            assert(bytes@.skip(pos as int).first() == b);
            assert(bytes@.skip(pos as int).drop_first() =~= bytes@.skip(pos + 1));
        }
        if b != 0x5F {
            let (d, bad) = decode_radix_digit(b, radix);
            if bad {
                return Err(DecodeError::InvalidDigit);
            }
            let ghost pre = dec.limbs();
            let ghost acc = limbs_value(pre);
            let ghost v = acc * (radix as nat) + radix_digit_value(b);
            let carry: u64 = mul_add_limbs(dec, radix, d);
            proof {
                lemma_pow2_pos(64 * pre.len());
            }
            let ghost mid0 = dec.limbs();
            if carry != 0 {
                proof {
                    assert(limbs_value(mid0) + carry * pow2(64 * pre.len()) >= pow2(
                        64 * pre.len(),
                    )) by (nonlinear_arith)
                        requires
                            carry >= 1,
                            pow2(64 * pre.len()) > 0,
                            limbs_value(mid0) >= 0,
                    ;
                }
                if !dec.push_limb(Limb(carry)) {
                    proof {
                        assert(!can_push0);
                        assert(v >= pow2(64 * len0));
                    }
                    return Err(DecodeError::InputSize);
                }
                proof {
                    lemma_limbs_value_push(mid0, Limb(carry));
                    assert(dec.limbs() == mid0.push(Limb(carry)));
                    assert(limbs_value(dec.limbs()) == limbs_value(mid0) + carry * pow2(
                        64 * mid0.len(),
                    ));
                    assert(limbs_value(dec.limbs()) == v);
                }
            } else {
                proof {
                    assert(carry * pow2(64 * pre.len()) == 0) by (nonlinear_arith)
                        requires
                            carry == 0,
                    ;
                    assert(limbs_value(dec.limbs()) == v);
                    if can_push0 && len0 == 0 && dec.limbs().len() > 0 {
                        if pre.len() > 0 && pre.last().0 != 0 {
                            lemma_limbs_value_top_nonzero(pre);
                            assert(v >= acc) by (nonlinear_arith)
                                requires
                                    v == acc * (radix as nat) + radix_digit_value(b),
                                    radix >= 1,
                                    acc >= 0,
                            ;
                            lemma_top_nonzero_from_value(dec.limbs());
                        }
                    }
                    if cap is Some {
                        lemma_limbs_value_bound(dec.limbs());
                    }
                }
            }
            proof {
                assert(limbs_value(dec.limbs()) == v);
                assert(radix_scan(bytes@.skip(pos as int), radix, acc, cap) == radix_scan(
                    bytes@.skip(pos + 1),
                    radix,
                    v,
                    cap,
                ));
            }
        }
        pos = pos + 1;
    }
    proof {
        assert(bytes@.skip(blen as int) =~= Seq::<u8>::empty());
    }
    Ok(())
}

impl BoxedUint {
    /// Create a new [`BoxedUint`] from a big-endian string in the given
    /// base, deriving the precision from however many limbs the value
    /// needs. The string may begin with `+` and may use underscores as
    /// digit separators; any other character outside the radix's alphabet
    /// yields [`DecodeError::InvalidDigit`].
    ///
    /// Variable-time: the work and the resulting precision depend on the
    /// input, so this is suitable for public values only.
    ///
    /// The bound on the input length keeps the derived precision within
    /// `u32`, by the crude estimate of one limb per input byte: the
    /// accumulator pushes at most one limb per digit, so at most
    /// `0x3FF_FFFF` limbs, whose precision is below `u32::MAX` bits. The
    /// true need is nearer six bits per digit; the estimate is merely the
    /// one the proof uses.
    pub fn from_str_radix_vartime(src: &str, radix: u32) -> (r: Result<Self, DecodeError>)
        requires
            2 <= radix <= 36,
            src.spec_bytes().len() <= 0x3FF_FFFF,
        ensures
            match r {
                Ok(v) => {
                    &&& v.wf()
                    &&& radix_parse(src.spec_bytes(), radix, None) == Ok::<nat, DecodeError>(
                        v.value(),
                    )
                    &&& (v@.len() == 0 || v@.last().0 != 0)
                },
                Err(e) => radix_parse(src.spec_bytes(), radix, None) == Err::<nat, DecodeError>(
                    e,
                ),
            },
    {
        let mut dec = VecDecodeByLimb { limbs: Vec::new() };
        match radix_decode_str(src, radix, &mut dec) {
            Ok(_) => Ok(BoxedUint { limbs: dec.limbs }),
            Err(e) => Err(e),
        }
    }

    /// Create a new [`BoxedUint`] from a big-endian string in the given
    /// base, at the given precision, rounded up to a whole limb. The string
    /// may begin with `+` and may use underscores as digit separators.
    ///
    /// A character outside the radix's alphabet yields
    /// [`DecodeError::InvalidDigit`]; a string whose accumulation needs more
    /// limbs than the precision allows yields [`DecodeError::InputSize`];
    /// and a parsed magnitude that fits the limbs but needs more bits than
    /// the precision yields [`DecodeError::Precision`].
    ///
    /// Variable-time: suitable for public values only.
    pub fn from_str_radix_with_precision_vartime(src: &str, radix: u32, bits_precision: u32) -> (r:
        Result<Self, DecodeError>)
        requires
            2 <= radix <= 36,
            bits_precision <= 0xFFFF_FFC0,
        ensures
            ({
                let p = radix_parse(
                    src.spec_bytes(),
                    radix,
                    Some(pow2(64 * nlimbs_of(bits_precision))),
                );
                match r {
                    Ok(v) => {
                        &&& v.wf()
                        &&& v@.len() == nlimbs_of(bits_precision)
                        &&& p == Ok::<nat, DecodeError>(v.value())
                        &&& min_bits(v.value()) <= bits_precision
                    },
                    Err(e) => {
                        if e == DecodeError::Precision {
                            p is Ok && min_bits(p->Ok_0) > bits_precision
                        } else {
                            p == Err::<nat, DecodeError>(e)
                        }
                    },
                }
            }),
    {
        let zero = Self::zero_with_precision(bits_precision);
        let mut dec = SliceDecodeByLimb { limbs: zero.limbs };
        match radix_decode_str(src, radix, &mut dec) {
            Ok(_) => {}
            Err(e) => {
                return Err(e);
            }
        }
        let ret = BoxedUint { limbs: dec.limbs };
        proof {
            vstd::arithmetic::div_mod::lemma_fundamental_div_mod(bits_precision as int + 63, 64);
        }
        let b = ret.bits();
        if bits_precision < b {
            return Err(DecodeError::Precision);
        }
        Ok(ret)
    }
}

/// The base-`radix` digits of `n`, least significant first: empty for zero,
/// otherwise the remainder followed by the digits of the quotient.
pub open spec fn radix_digits(n: nat, radix: nat) -> Seq<nat>
    recommends
        2 <= radix,
    decreases n,
    when radix >= 2
    via radix_digits_decreases
{
    if n == 0 {
        Seq::empty()
    } else {
        seq![n % radix] + radix_digits(n / radix, radix)
    }
}

#[via_fn]
proof fn radix_digits_decreases(n: nat, radix: nat) {
    if n > 0 {
        lemma_div_decreases(n as int, radix as int);
    }
}

/// The lowercase ASCII byte for one digit value below 36.
pub open spec fn digit_ascii(d: nat) -> u8 {
    if d < 10 {
        (0x30 + d) as u8
    } else {
        (0x57 + d) as u8
    }
}

/// The ASCII encoding of `n` in the given radix, most significant digit
/// first, with the single digit `0` for zero.
pub open spec fn radix_encode_bytes(n: nat, radix: nat) -> Seq<u8> {
    if n == 0 {
        seq![0x30u8]
    } else {
        radix_digits(n, radix).reverse().map_values(|d: nat| digit_ascii(d))
    }
}

/// The characters of the ASCII encoding of `n` in the given radix.
pub open spec fn radix_encode_chars(n: nat, radix: nat) -> Seq<char> {
    radix_encode_bytes(n, radix).map_values(|b: u8| b as char)
}

/// The lowercase ASCII byte for one digit value below 36.
fn digit_to_ascii(d: u32) -> (r: u8)
    requires
        d < 36,
    ensures
        r == digit_ascii(d as nat),
        r < 0x80,
{
    if d < 10 {
        (0x30 + d) as u8
    } else {
        (0x57 + d) as u8
    }
}

/// Whether any limb is nonzero, which is exactly whether the value is.
fn limbs_nonzero(limbs: &Vec<Limb>) -> (r: bool)
    ensures
        r == (limbs_value(limbs@) != 0),
{
    let n: usize = limbs.len();
    let mut i: usize = 0;
    while i < n
        invariant
            i <= n,
            n == limbs@.len(),
            forall|j: int| 0 <= j < i ==> limbs@[j].0 == 0,
        decreases n - i,
    {
        if limbs[i].0 != 0 {
            proof {
                if limbs_value(limbs@) == 0 {
                    let zs = Seq::new(limbs@.len(), |k: int| Limb(0));
                    lemma_limbs_value_zero_suffix(zs, 0);
                    assert(zs.take(0) =~= Seq::<Limb>::empty());
                    assert(limbs_value(zs) == 0);
                    crate::model::lemma_limbs_value_injective(limbs@, zs);
                    assert(limbs@[i as int] == zs[i as int]);
                }
            }
            return true;
        }
        i = i + 1;
    }
    proof {
        lemma_limbs_value_zero_suffix(limbs@, 0);
        assert(limbs@.take(0) =~= Seq::<Limb>::empty());
    }
    false
}

/// Divide the limbs in place by the radix, returning the remainder.
fn div_rem_radix(limbs: &mut Vec<Limb>, radix: u32) -> (rem: u32)
    requires
        2 <= radix <= 36,
    ensures
        final(limbs)@.len() == old(limbs)@.len(),
        limbs_value(old(limbs)@) == limbs_value(final(limbs)@) * radix + rem,
        rem < radix,
{
    let ghost limbs0 = limbs@;
    let n: usize = limbs.len();
    let mut rem: u32 = 0;
    let mut i: usize = n;
    proof {
        assert(limbs0.skip(n as int) =~= Seq::<Limb>::empty());
        assert(limbs@.skip(n as int) =~= Seq::<Limb>::empty());
        assert(limbs_value(Seq::<Limb>::empty()) * radix == 0) by (nonlinear_arith)
            requires
                limbs_value(Seq::<Limb>::empty()) == 0,
        ;
    }
    while i > 0
        invariant
            i <= n,
            2 <= radix <= 36,
            n == limbs@.len(),
            limbs0 == old(limbs)@,
            limbs0.len() == n,
            rem < radix,
            forall|j: int| 0 <= j < i ==> limbs@[j] == limbs0[j],
            limbs_value(limbs0.skip(i as int)) == limbs_value(limbs@.skip(i as int)) * radix
                + rem,
        decreases i,
    {
        let limb: u64 = limbs[i - 1].0;
        let cur: u128 = (rem as u128) * 0x1_0000_0000_0000_0000u128 + (limb as u128);
        proof {
            assert(cur < radix * 0x1_0000_0000_0000_0000) by (nonlinear_arith)
                requires
                    cur == rem * 0x1_0000_0000_0000_0000 + limb,
                    rem < radix,
                    limb < 0x1_0000_0000_0000_0000,
                    radix <= 36,
            ;
        }
        let q128: u128 = cur / (radix as u128);
        let r128: u128 = cur % (radix as u128);
        proof {
            lemma_fundamental_div_mod(cur as int, radix as int);
            assert(q128 < 0x1_0000_0000_0000_0000) by (nonlinear_arith)
                requires
                    cur < radix * 0x1_0000_0000_0000_0000,
                    q128 == cur as int / radix as int,
                    cur >= 0,
                    radix >= 2,
            ;
        }
        let q: u64 = q128 as u64;
        let r2: u32 = r128 as u32;
        let ghost pre = limbs@;
        limbs.set(i - 1, Limb(q));
        proof {
            lemma_limb_base();
            assert(limbs@.skip(i - 1).drop_first() =~= pre.skip(i as int));
            assert(limbs@.skip(i - 1).first() == Limb(q));
            assert(limbs0.skip(i - 1).drop_first() =~= limbs0.skip(i as int));
            assert(limbs0.skip(i - 1).first() == limbs0[i - 1]);
            assert(limbs0[i - 1].0 == limb);
            assert(limbs_value(limbs@.skip(i - 1)) == q + limb_base() * limbs_value(
                pre.skip(i as int),
            ));
            assert(limbs_value(limbs0.skip(i - 1)) == limbs_value(limbs@.skip(i - 1)) * radix
                + r2) by (nonlinear_arith)
                requires
                    limbs_value(limbs0.skip(i - 1)) == limb + 0x1_0000_0000_0000_0000
                        * limbs_value(limbs0.skip(i as int)),
                    limbs_value(limbs@.skip(i - 1)) == q + 0x1_0000_0000_0000_0000 * limbs_value(
                        pre.skip(i as int),
                    ),
                    limbs_value(limbs0.skip(i as int)) == limbs_value(pre.skip(i as int)) * radix
                        + rem,
                    cur == rem * 0x1_0000_0000_0000_0000 + limb,
                    cur == (radix as int) * (q128 as int) + r128,
                    q == q128,
                    r2 == r128,
                    limb_base() == 0x1_0000_0000_0000_0000,
            ;
        }
        rem = r2;
        i = i - 1;
    }
    proof {
        assert(limbs0.skip(0) =~= limbs0);
        assert(limbs@.skip(0) =~= limbs@);
    }
    rem
}

impl BoxedUint {
    /// Format this [`BoxedUint`] as a string in the given base, using the
    /// digits `0-9` then `a-z`: the minimal digit sequence, with no leading
    /// zero digit except for the single `0` that encodes zero.
    ///
    /// Variable-time: the output length and the work depend on the value's
    /// magnitude.
    pub fn to_string_radix_vartime(&self, radix: u32) -> (r: String)
        requires
            self.wf(),
            2 <= radix <= 36,
        ensures
            r@ == radix_encode_chars(self.value(), radix as nat),
    {
        let n: usize = self.limbs.len();
        let mut work: Vec<Limb> = Vec::new();
        let mut i: usize = 0;
        while i < n
            invariant
                i <= n,
                n == self@.len(),
                work@ == self@.take(i as int),
            decreases n - i,
        {
            let l: Limb = self.limbs[i];
            work.push(l);
            proof {
                assert(self@.take(i + 1) =~= self@.take(i as int).push(self@[i as int]));
            }
            i = i + 1;
        }
        proof {
            assert(self@.take(n as int) =~= self@);
        }
        let ghost value0 = self.value();
        let mut digits: Vec<u8> = Vec::new();
        let ghost mut ds: Seq<nat> = Seq::empty();
        proof {
            assert(ds + radix_digits(limbs_value(work@), radix as nat) =~= radix_digits(
                value0,
                radix as nat,
            ));
        }
        while limbs_nonzero(&work)
            invariant
                self.wf(),
                2 <= radix <= 36,
                digits@ == ds.map_values(|d0: nat| digit_ascii(d0)),
                ds + radix_digits(limbs_value(work@), radix as nat) == radix_digits(
                    value0,
                    radix as nat,
                ),
            decreases limbs_value(work@),
        {
            let ghost before = limbs_value(work@);
            let rem: u32 = div_rem_radix(&mut work, radix);
            proof {
                let after = limbs_value(work@);
                lemma_fundamental_div_mod_converse(
                    before as int,
                    radix as int,
                    after as int,
                    rem as int,
                );
                assert(radix_digits(before, radix as nat) == seq![before % (radix as nat)]
                    + radix_digits(before / (radix as nat), radix as nat));
                assert(before % (radix as nat) == rem);
                assert(before / (radix as nat) == after);
                assert((ds + seq![rem as nat]) + radix_digits(after, radix as nat) =~= ds + (
                seq![rem as nat] + radix_digits(after, radix as nat)));
                assert(digits@.push(digit_ascii(rem as nat)) =~= digits@ + seq![
                    digit_ascii(rem as nat),
                ]);
                assert(after < before) by (nonlinear_arith)
                    requires
                        before == after * radix + rem,
                        radix >= 2,
                        before != 0,
                        rem < radix,
                        after >= 0,
                ;
            }
            let d: u8 = digit_to_ascii(rem);
            let ghost old_digits = digits@;
            digits.push(d);
            proof {
                let old_ds = ds;
                ds = ds + seq![rem as nat];
                assert(digits@ =~= ds.map_values(|d0: nat| digit_ascii(d0)));
                assert((old_ds + seq![rem as nat]) + radix_digits(
                    limbs_value(work@),
                    radix as nat,
                ) =~= old_ds + (seq![rem as nat] + radix_digits(limbs_value(work@), radix as nat)));
            }
        }
        proof {
            assert(radix_digits(limbs_value(work@), radix as nat) =~= Seq::<nat>::empty());
            assert(ds + Seq::<nat>::empty() =~= ds);
            assert(ds == radix_digits(value0, radix as nat));
        }
        let mut out: Vec<u8> = Vec::new();
        if digits.len() == 0 {
            out.push(0x30);
            proof {
                assert(radix_digits(value0, radix as nat).len() == 0);
                if value0 != 0 {
                    assert(radix_digits(value0, radix as nat) == seq![value0 % (radix as nat)]
                        + radix_digits(value0 / (radix as nat), radix as nat));
                }
                assert(value0 == 0);
                assert(out@ =~= radix_encode_bytes(value0, radix as nat));
            }
        } else {
            let dn: usize = digits.len();
            let mut k: usize = 0;
            while k < dn
                invariant
                    k <= dn,
                    dn == digits@.len(),
                    out@.len() == k,
                    forall|p: int| 0 <= p < k ==> out@[p] == digits@[dn - 1 - p],
                decreases dn - k,
            {
                let b: u8 = digits[dn - 1 - k];
                out.push(b);
                k = k + 1;
            }
            proof {
                if value0 == 0 {
                    assert(radix_digits(value0, radix as nat).len() == 0);
                }
                assert(value0 != 0);
                let rd = radix_digits(value0, radix as nat);
                assert(out@ =~= rd.reverse().map_values(|d0: nat| digit_ascii(d0))) by {
                    assert(rd.len() == dn);
                    assert(forall|p: int|
                        0 <= p < dn ==> rd.reverse()[p] == #[trigger] rd[dn - 1 - p]);
                    assert(forall|p: int|
                        0 <= p < dn ==> rd.reverse().map_values(|d0: nat| digit_ascii(d0))[p]
                            == digit_ascii(rd.reverse()[p]));
                    assert(forall|p: int| 0 <= p < dn ==> out@[p] == digits@[dn - 1 - p]);
                    assert(forall|p: int|
                        0 <= p < dn ==> #[trigger] digits@[dn - 1 - p] == digit_ascii(
                            ds[dn - 1 - p],
                        ));
                }
                assert(out@ == radix_encode_bytes(value0, radix as nat));
            }
        }
        proof {
            assert(forall|p: int| 0 <= p < out@.len() ==> out@[p] < 0x80) by {
                assert(forall|p: int|
                    0 <= p < out@.len() ==> out@[p] == radix_encode_bytes(
                        value0,
                        radix as nat,
                    )[p]);
                if value0 != 0 {
                    let rd = radix_digits(value0, radix as nat);
                    lemma_radix_digits_below_radix(value0, radix as nat);
                    assert(forall|p: int|
                        0 <= p < rd.len() ==> radix_encode_bytes(value0, radix as nat)[p]
                            == digit_ascii(rd.reverse()[p]) && rd.reverse()[p] == #[trigger] rd[
                        rd.len() - 1 - p] && rd[rd.len() - 1 - p] < 36);
                }
            }
        }
        let s = ascii_to_string(out);
        s
    }
}

/// Every digit produced by `radix_digits` is below the radix.
pub proof fn lemma_radix_digits_below_radix(n: nat, radix: nat)
    requires
        2 <= radix,
    ensures
        forall|k: int|
            0 <= k < radix_digits(n, radix).len() ==> #[trigger] radix_digits(n, radix)[k]
                < radix,
    decreases n,
{
    if n != 0 {
        lemma_div_decreases(n as int, radix as int);
        lemma_radix_digits_below_radix(n / radix, radix);
        assert(n % radix < radix) by (nonlinear_arith)
            requires
                radix >= 2,
        ;
        assert forall|k: int| 0 <= k < radix_digits(n, radix).len() implies #[trigger] radix_digits(
            n,
            radix,
        )[k] < radix by {
            if k == 0 {
                assert(radix_digits(n, radix)[0] == n % radix);
            } else {
                assert(radix_digits(n, radix)[k] == radix_digits(n / radix, radix)[k - 1]);
            }
        }
    }
}

/// Relies on `alloc::string::String::from_utf8`: bytes below 0x80 are valid
/// UTF-8 and decode to the characters with the same code points.
#[verifier::external_body]
fn ascii_to_string(bytes: Vec<u8>) -> (r: String)
    requires
        forall|i: int| 0 <= i < bytes@.len() ==> bytes@[i] < 0x80,
    ensures
        r@ == bytes@.map_values(|b: u8| b as char),
{
    String::from_utf8(bytes).expect("ascii bytes are valid utf-8")
}

} // verus!