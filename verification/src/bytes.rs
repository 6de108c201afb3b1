//! Byte-buffer decoding and encoding: fixed-precision decode from big- and
//! little-endian buffers, total encode back to buffers, and the trimmed
//! variable-time encodings.

use vstd::prelude::*;
use vstd::arithmetic::div_mod::*;
use vstd::arithmetic::power2::*;
use vstd::pervasive::VecAdditionalExecFns;

use crate::boxed::{nlimbs_of, BoxedUint};
use crate::model::{
    be_bytes_value, le_bytes_value, lemma_be_bytes_small_value_zero_prefix,
    lemma_be_bytes_value_append, lemma_be_bytes_value_bound, lemma_be_bytes_value_zero_prefix,
    lemma_le_bytes_small_value_zero_suffix, lemma_le_bytes_value_append, lemma_le_bytes_value_bound,
    lemma_le_bytes_value_zero_suffix, lemma_limb_base, lemma_limbs_value_take_succ,
    lemma_limbs_value_zero_suffix, lemma_min_bits_le, limb_base, limbs_value, min_bits,
};
use crate::{DecodeError, Limb};

verus! {

/// The number of whole bytes needed for a precision of `bits_precision` bits.
pub open spec fn nbytes_of(bits_precision: u32) -> nat {
    ((bits_precision + 7) / 8) as nat
}

/// For a big-endian buffer of `len` bytes, the start of the still-undecoded
/// prefix once `i` limbs have been filled from the tail.
spec fn be_cut(len: int, i: int) -> int {
    if 8 * i <= len {
        len - 8 * i
    } else {
        0
    }
}

/// For a little-endian buffer of `len` bytes, the end of the decoded prefix
/// once `i` limbs have been filled from the front.
spec fn le_cut(len: int, i: int) -> int {
    if 8 * i <= len {
        8 * i
    } else {
        len
    }
}

/// A buffer that fits the byte count of a precision also fits its limb count.
proof fn lemma_nbytes_le_limb_bytes(bits_precision: u32)
    ensures
        nbytes_of(bits_precision) <= 8 * nlimbs_of(bits_precision),
        8 * nbytes_of(bits_precision) >= bits_precision,
        64 * nlimbs_of(bits_precision) >= bits_precision,
        64 * nlimbs_of(bits_precision) <= bits_precision + 63,
{
    let p = bits_precision as int;
    lemma_fundamental_div_mod(p + 7, 8);
    lemma_fundamental_div_mod(p + 63, 64);
}

/// The value of a big-endian chunk of at most eight bytes, as one limb.
fn be_chunk_limb(bytes: &[u8], lo: usize, hi: usize) -> (r: u64)
    requires
        lo <= hi <= bytes@.len(),
        hi - lo <= 8,
    ensures
        r as nat == be_bytes_value(bytes@.subrange(lo as int, hi as int)),
{
    proof {
        lemma2_to64();
        lemma2_to64_rest();
    }
    let mut limb: u64 = 0;
    let mut j: usize = lo;
    proof {
        assert(bytes@.subrange(lo as int, lo as int) =~= Seq::<u8>::empty());
    }
    while j < hi
        invariant
            lo <= j <= hi <= bytes@.len(),
            hi - lo <= 8,
            limb as nat == be_bytes_value(bytes@.subrange(lo as int, j as int)),
        decreases hi - j,
    {
        proof {
            lemma2_to64();
            lemma2_to64_rest();
            let part = bytes@.subrange(lo as int, j as int);
            lemma_be_bytes_value_bound(part);
            if 8 * part.len() < 56 {
                lemma_pow2_strictly_increases(8 * part.len(), 56);
            }
            assert(pow2(56) == 0x100_0000_0000_0000);
            assert(limb < 0x100_0000_0000_0000);
            assert(bytes@.subrange(lo as int, j + 1 as int).drop_last() =~= part);
            assert(bytes@.subrange(lo as int, j + 1 as int).last() == bytes@[j as int]);
        }
        limb = limb * 256 + (bytes[j] as u64);
        j = j + 1;
    }
    limb
}

/// The value of a little-endian chunk of at most eight bytes, as one limb.
fn le_chunk_limb(bytes: &[u8], lo: usize, hi: usize) -> (r: u64)
    requires
        lo <= hi <= bytes@.len(),
        hi - lo <= 8,
    ensures
        r as nat == le_bytes_value(bytes@.subrange(lo as int, hi as int)),
{
    proof {
        lemma2_to64();
        lemma2_to64_rest();
    }
    let mut limb: u64 = 0;
    let mut j: usize = hi;
    proof {
        assert(bytes@.subrange(hi as int, hi as int) =~= Seq::<u8>::empty());
    }
    while j > lo
        invariant
            lo <= j <= hi <= bytes@.len(),
            hi - lo <= 8,
            limb as nat == le_bytes_value(bytes@.subrange(j as int, hi as int)),
        decreases j,
    {
        proof {
            lemma2_to64();
            lemma2_to64_rest();
            let part = bytes@.subrange(j as int, hi as int);
            lemma_le_bytes_value_bound(part);
            if 8 * part.len() < 56 {
                lemma_pow2_strictly_increases(8 * part.len(), 56);
            }
            assert(pow2(56) == 0x100_0000_0000_0000);
            assert(limb < 0x100_0000_0000_0000);
            assert(bytes@.subrange(j - 1 as int, hi as int).drop_first() =~= part);
            assert(bytes@.subrange(j - 1 as int, hi as int).first() == bytes@[j - 1 as int]);
        }
        limb = limb * 256 + (bytes[j - 1] as u64);
        j = j - 1;
    }
    limb
}

impl BoxedUint {
    /// Create a new [`BoxedUint`] from the provided big-endian bytes.
    ///
    /// The `bits_precision` argument is the precision of the resulting
    /// integer, rounded up to a whole limb; it is fixed for the value's
    /// lifetime. Fails with [`DecodeError::InputSize`] when the buffer is
    /// longer than the precision allows in whole bytes, and with
    /// [`DecodeError::Precision`] when the decoded magnitude needs more bits
    /// than the precision.
    ///
    /// The branches taken depend only on the byte count, never on the byte
    /// values, so the path is safe for secret buffer contents.
    pub fn from_be_slice(bytes: &[u8], bits_precision: u32) -> (r: Result<Self, DecodeError>)
        requires
            bits_precision <= 0xFFFF_FFC0,
        ensures
            match r {
                Ok(v) => {
                    &&& v.wf()
                    &&& v@.len() == nlimbs_of(bits_precision)
                    &&& v.value() == be_bytes_value(bytes@)
                    &&& bytes@.len() <= nbytes_of(bits_precision)
                    &&& min_bits(be_bytes_value(bytes@)) <= bits_precision
                },
                Err(e) => {
                    &&& (e == DecodeError::InputSize <==> bytes@.len() > nbytes_of(
                        bits_precision,
                    ))
                    &&& (e == DecodeError::Precision <==> bytes@.len() <= nbytes_of(
                        bits_precision,
                    ) && min_bits(be_bytes_value(bytes@)) > bits_precision)
                },
            },
            r is Ok <==> bytes@.len() <= nbytes_of(bits_precision) && min_bits(
                be_bytes_value(bytes@),
            ) <= bits_precision,
    {
        if bytes.len() == 0 && bits_precision == 0 {
            let r = Self::zero();
            return Ok(r);
        }
        if bytes.len() > ((bits_precision as usize) + 7) / 8 {
            return Err(DecodeError::InputSize);
        }

        let mut ret = Self::zero_with_precision(bits_precision);
        let len: usize = bytes.len();
        let nl: usize = ret.limbs.len();
        proof {
            lemma_nbytes_le_limb_bytes(bits_precision);
            assert(bytes@.skip(be_cut(len as int, 0)) =~= Seq::<u8>::empty());
            assert(ret@.take(0) =~= Seq::<Limb>::empty());
        }
        let mut i: usize = 0;
        while 8 * i < len
            invariant
                i <= nl,
                nl == nlimbs_of(bits_precision),
                len == bytes@.len(),
                len <= nbytes_of(bits_precision),
                nbytes_of(bits_precision) <= 8 * nlimbs_of(bits_precision),
                ret@.len() == nl,
                forall|j: int| i <= j < nl ==> ret@[j].0 == 0,
                limbs_value(ret@.take(i as int)) == be_bytes_value(
                    bytes@.skip(be_cut(len as int, i as int)),
                ),
            decreases nl - i,
        {
            proof {
                assert(8 * (i + 1) <= 8 * nl) by (nonlinear_arith)
                    requires
                        8 * i < len,
                        len <= 8 * nl,
                ;
            }
            let hi: usize = len - 8 * i;
            let lo: usize = if hi > 8 {
                hi - 8
            } else {
                0
            };
            let limb: u64 = be_chunk_limb(bytes, lo, hi);
            let ghost old_limbs = ret@;
            ret.limbs.set(i, Limb(limb));
            proof {
                assert(ret@.take(i as int) =~= old_limbs.take(i as int));
                lemma_limbs_value_take_succ(ret@, i as int);
                assert(bytes@.skip(lo as int) =~= bytes@.subrange(lo as int, hi as int)
                    + bytes@.skip(hi as int));
                lemma_be_bytes_value_append(
                    bytes@.subrange(lo as int, hi as int),
                    bytes@.skip(hi as int),
                );
                assert(8 * bytes@.skip(hi as int).len() == 64 * i);
                assert(lo as int == be_cut(len as int, i + 1 as int));
            }
            i = i + 1;
        }
        proof {
            lemma_limbs_value_zero_suffix(ret@, i as int);
            assert(bytes@.skip(be_cut(len as int, i as int)) =~= bytes@);
        }

        let b = ret.bits();
        if bits_precision < b {
            return Err(DecodeError::Precision);
        }
        Ok(ret)
    }

    /// Create a new [`BoxedUint`] from the provided little-endian bytes.
    ///
    /// The `bits_precision` argument is the precision of the resulting
    /// integer, rounded up to a whole limb; it is fixed for the value's
    /// lifetime. Fails with [`DecodeError::InputSize`] when the buffer is
    /// longer than the precision allows in whole bytes, and with
    /// [`DecodeError::Precision`] when the decoded magnitude needs more bits
    /// than the precision.
    ///
    /// The branches taken depend only on the byte count, never on the byte
    /// values, so the path is safe for secret buffer contents.
    pub fn from_le_slice(bytes: &[u8], bits_precision: u32) -> (r: Result<Self, DecodeError>)
        requires
            bits_precision <= 0xFFFF_FFC0,
        ensures
            match r {
                Ok(v) => {
                    &&& v.wf()
                    &&& v@.len() == nlimbs_of(bits_precision)
                    &&& v.value() == le_bytes_value(bytes@)
                    &&& bytes@.len() <= nbytes_of(bits_precision)
                    &&& min_bits(le_bytes_value(bytes@)) <= bits_precision
                },
                Err(e) => {
                    &&& (e == DecodeError::InputSize <==> bytes@.len() > nbytes_of(
                        bits_precision,
                    ))
                    &&& (e == DecodeError::Precision <==> bytes@.len() <= nbytes_of(
                        bits_precision,
                    ) && min_bits(le_bytes_value(bytes@)) > bits_precision)
                },
            },
            r is Ok <==> bytes@.len() <= nbytes_of(bits_precision) && min_bits(
                le_bytes_value(bytes@),
            ) <= bits_precision,
    {
        if bytes.len() == 0 && bits_precision == 0 {
            let r = Self::zero();
            return Ok(r);
        }
        if bytes.len() > ((bits_precision as usize) + 7) / 8 {
            return Err(DecodeError::InputSize);
        }

        let mut ret = Self::zero_with_precision(bits_precision);
        let len: usize = bytes.len();
        let nl: usize = ret.limbs.len();
        proof {
            lemma_nbytes_le_limb_bytes(bits_precision);
            assert(bytes@.take(le_cut(len as int, 0)) =~= Seq::<u8>::empty());
            assert(ret@.take(0) =~= Seq::<Limb>::empty());
        }
        let mut i: usize = 0;
        while 8 * i < len
            invariant
                i <= nl,
                nl == nlimbs_of(bits_precision),
                len == bytes@.len(),
                len <= nbytes_of(bits_precision),
                nbytes_of(bits_precision) <= 8 * nlimbs_of(bits_precision),
                ret@.len() == nl,
                forall|j: int| i <= j < nl ==> ret@[j].0 == 0,
                limbs_value(ret@.take(i as int)) == le_bytes_value(
                    bytes@.take(le_cut(len as int, i as int)),
                ),
            decreases nl - i,
        {
            proof {
                assert(8 * (i + 1) <= 8 * nl) by (nonlinear_arith)
                    requires
                        8 * i < len,
                        len <= 8 * nl,
                ;
            }
            let lo: usize = 8 * i;
            let hi: usize = if len - lo > 8 {
                lo + 8
            } else {
                len
            };
            let limb: u64 = le_chunk_limb(bytes, lo, hi);
            let ghost old_limbs = ret@;
            ret.limbs.set(i, Limb(limb));
            proof {
                assert(ret@.take(i as int) =~= old_limbs.take(i as int));
                lemma_limbs_value_take_succ(ret@, i as int);
                assert(limbs_value(ret@.take(i + 1)) == limbs_value(ret@.take(i as int))
                    + limb * pow2(64 * i as nat));
                assert(limbs_value(ret@.take(i as int)) == le_bytes_value(
                    bytes@.take(lo as int),
                ));
                assert(bytes@.take(hi as int) =~= bytes@.take(lo as int) + bytes@.subrange(
                    lo as int,
                    hi as int,
                ));
                lemma_le_bytes_value_append(
                    bytes@.take(lo as int),
                    bytes@.subrange(lo as int, hi as int),
                );
                assert(8 * bytes@.take(lo as int).len() == 64 * i);
                assert(le_bytes_value(bytes@.take(hi as int)) == le_bytes_value(
                    bytes@.take(lo as int),
                ) + pow2(64 * i as nat) * limb);
                assert(limb * pow2(64 * i as nat) == pow2(64 * i as nat) * limb) by (nonlinear_arith);
                assert(limbs_value(ret@.take(i + 1)) == le_bytes_value(bytes@.take(hi as int)));
                assert(hi as int == le_cut(len as int, i + 1 as int));
            }
            i = i + 1;
        }
        proof {
            lemma_limbs_value_zero_suffix(ret@, i as int);
            assert(bytes@.take(le_cut(len as int, i as int)) =~= bytes@);
        }

        let b = ret.bits();
        if bits_precision < b {
            return Err(DecodeError::Precision);
        }
        Ok(ret)
    }

    /// Create a new [`BoxedUint`] from big-endian bytes, with the precision
    /// inferred as `8 * bytes.len()`.
    ///
    /// The chosen limb count, and so the cost of every later operation, leaks
    /// the byte length: this is variable-time and suitable for public inputs
    /// only. For secret values use [`BoxedUint::from_be_slice`].
    pub fn from_be_slice_vartime(bytes: &[u8]) -> (r: Self)
        requires
            8 * bytes@.len() <= 0xFFFF_FFC0,
        ensures
            r.wf(),
            r@.len() == nlimbs_of((8 * bytes@.len()) as u32),
            r.value() == be_bytes_value(bytes@),
    {
        let bits_precision: u32 = (bytes.len() as u32) * 8;
        proof {
            lemma_be_bytes_value_bound(bytes@);
            lemma_min_bits_le(be_bytes_value(bytes@), (8 * bytes@.len()) as nat);
            lemma_fundamental_div_mod(bits_precision as int + 7, 8);
        }
        Self::from_be_slice(bytes, bits_precision).expect("precision should be large enough")
    }

    /// Create a new [`BoxedUint`] from little-endian bytes, with the
    /// precision inferred as `8 * bytes.len()`.
    ///
    /// The chosen limb count, and so the cost of every later operation, leaks
    /// the byte length: this is variable-time and suitable for public inputs
    /// only. For secret values use [`BoxedUint::from_le_slice`].
    pub fn from_le_slice_vartime(bytes: &[u8]) -> (r: Self)
        requires
            8 * bytes@.len() <= 0xFFFF_FFC0,
        ensures
            r.wf(),
            r@.len() == nlimbs_of((8 * bytes@.len()) as u32),
            r.value() == le_bytes_value(bytes@),
    {
        let bits_precision: u32 = (bytes.len() as u32) * 8;
        proof {
            lemma_le_bytes_value_bound(bytes@);
            lemma_min_bits_le(le_bytes_value(bytes@), (8 * bytes@.len()) as nat);
            lemma_fundamental_div_mod(bits_precision as int + 7, 8);
        }
        Self::from_le_slice(bytes, bits_precision).expect("precision should be large enough")
    }
}

/// The eight big-endian bytes of one limb.
fn limb_to_be_bytes(x: u64) -> (r: Vec<u8>)
    ensures
        r@.len() == 8,
        be_bytes_value(r@) == x as nat,
{
    let mut r: Vec<u8> = Vec::new();
    proof {
        lemma2_to64();
        lemma2_to64_rest();
        lemma_basic_div(x as int, pow2(64) as int);
        assert(r@ =~= Seq::<u8>::empty());
    }
    let mut j: usize = 0;
    while j < 8
        invariant
            j <= 8,
            r@.len() == j,
            be_bytes_value(r@) == x as nat / pow2((8 * (8 - j)) as nat),
        decreases 8 - j,
    {
        let s: u64 = (56 - 8 * (j as u64));
        let byte: u8 = ((x >> s) & 0xFF) as u8;
        proof {
            lemma2_to64();
            lemma2_to64_rest();
            vstd::bits::lemma_u64_shr_is_div(x, s);
            assert((x >> s) & 0xFF == (x >> s) % 256 && (x >> s) & 0xFF < 256) by (bit_vector);
            let q = x as int / pow2(s as nat) as int;
            lemma_pow2_adds(s as nat, 8);
            lemma_pow2_pos(s as nat);
            lemma_div_denominator(x as int, pow2(s as nat) as int, 256);
            assert(pow2(s as nat) as int * 256 == pow2((s + 8) as nat) as int);
            lemma_fundamental_div_mod(q, 256);
            assert(r@.push(byte).drop_last() =~= r@);
            assert((8 * (8 - j)) as nat == (s + 8) as nat);
            assert(be_bytes_value(r@.push(byte)) == 256 * be_bytes_value(r@) + byte);
        }
        r.push(byte);
        j = j + 1;
    }
    proof {
        lemma2_to64();
        lemma_div_basics(x as int);
    }
    r
}

/// The eight little-endian bytes of one limb.
fn limb_to_le_bytes(x: u64) -> (r: Vec<u8>)
    ensures
        r@.len() == 8,
        le_bytes_value(r@) == x as nat,
{
    let mut r: Vec<u8> = Vec::new();
    proof {
        lemma2_to64();
        lemma_fundamental_div_mod(x as int, 1);
        lemma_div_basics(x as int);
        assert(r@ =~= Seq::<u8>::empty());
    }
    let mut j: usize = 0;
    while j < 8
        invariant
            j <= 8,
            r@.len() == j,
            le_bytes_value(r@) == x as nat % pow2((8 * j) as nat),
        decreases 8 - j,
    {
        let s: u64 = 8 * (j as u64);
        let byte: u8 = ((x >> s) & 0xFF) as u8;
        proof {
            lemma2_to64();
            lemma2_to64_rest();
            vstd::bits::lemma_u64_shr_is_div(x, s);
            assert((x >> s) & 0xFF == (x >> s) % 256 && (x >> s) & 0xFF < 256) by (bit_vector);
            lemma_pow2_pos(s as nat);
            lemma_pow2_adds(s as nat, 8);
            lemma_mod_breakdown(x as int, pow2(s as nat) as int, 256);
            assert(x as int % (pow2(s as nat) as int * 256) == x as int % pow2(
                (s + 8) as nat,
            ) as int);
            assert(r@.push(byte) =~= r@ + seq![byte]);
            lemma_le_bytes_value_append(r@, seq![byte]);
            assert(seq![byte].drop_first() =~= Seq::<u8>::empty());
            assert(le_bytes_value(Seq::<u8>::empty()) == 0);
            assert(seq![byte].first() == byte);
            assert(le_bytes_value(seq![byte]) == byte);
            assert(pow2((8 * j) as nat) * (byte as nat) == pow2((8 * j) as nat) * byte)
                by (nonlinear_arith);
            assert((8 * (j + 1)) as nat == (s + 8) as nat);
        }
        r.push(byte);
        j = j + 1;
    }
    proof {
        lemma2_to64();
        lemma2_to64_rest();
        lemma_small_mod(x as nat, pow2(64));
    }
    r
}

impl BoxedUint {
    /// Serialize this [`BoxedUint`] as big-endian bytes, one chunk of
    /// `Limb::BYTES` per limb: a total function, since a value always fits
    /// its own precision.
    pub fn to_be_bytes(&self) -> (r: Vec<u8>)
        requires
            self.wf(),
        ensures
            r@.len() == 8 * self@.len(),
            be_bytes_value(r@) == self.value(),
    {
        let nl: usize = self.limbs.len();
        let mut out: Vec<u8> = Vec::new();
        proof {
            assert(self@.skip(nl as int) =~= Seq::<Limb>::empty());
        }
        let mut i: usize = nl;
        while i > 0
            invariant
                i <= nl,
                nl == self@.len(),
                out@.len() == 8 * (nl - i),
                be_bytes_value(out@) == limbs_value(self@.skip(i as int)),
            decreases i,
        {
            let mut chunk = limb_to_be_bytes(self.limbs[i - 1].0);
            proof {
                lemma_limb_base();
                lemma_be_bytes_value_append(out@, chunk@);
                assert(self@.skip(i - 1).drop_first() =~= self@.skip(i as int));
                assert(self@.skip(i - 1).first() == self@[i - 1]);
                assert(be_bytes_value(out@) * pow2(8 * chunk@.len()) == limb_base() * limbs_value(
                    self@.skip(i as int),
                )) by (nonlinear_arith)
                    requires
                        be_bytes_value(out@) == limbs_value(self@.skip(i as int)),
                        pow2(8 * chunk@.len()) == limb_base(),
                ;
            }
            out.append(&mut chunk);
            i = i - 1;
        }
        proof {
            assert(self@.skip(0) =~= self@);
        }
        out
    }

    /// Serialize this [`BoxedUint`] as little-endian bytes, one chunk of
    /// `Limb::BYTES` per limb: a total function, since a value always fits
    /// its own precision.
    pub fn to_le_bytes(&self) -> (r: Vec<u8>)
        requires
            self.wf(),
        ensures
            r@.len() == 8 * self@.len(),
            le_bytes_value(r@) == self.value(),
    {
        let nl: usize = self.limbs.len();
        let mut out: Vec<u8> = Vec::new();
        proof {
            assert(self@.take(0) =~= Seq::<Limb>::empty());
            assert(out@ =~= Seq::<u8>::empty());
        }
        let mut i: usize = 0;
        while i < nl
            invariant
                i <= nl,
                nl == self@.len(),
                out@.len() == 8 * i,
                le_bytes_value(out@) == limbs_value(self@.take(i as int)),
            decreases nl - i,
        {
            let mut chunk = limb_to_le_bytes(self.limbs[i].0);
            proof {
                lemma_limbs_value_take_succ(self@, i as int);
                lemma_le_bytes_value_append(out@, chunk@);
                assert(pow2(8 * out@.len()) * le_bytes_value(chunk@) == self@[i as int].0 * pow2(
                    64 * i as nat,
                )) by (nonlinear_arith)
                    requires
                        le_bytes_value(chunk@) == self@[i as int].0,
                        pow2(8 * out@.len()) == pow2(64 * i as nat),
                ;
                assert(8 * out@.len() == 64 * i as nat);
            }
            out.append(&mut chunk);
            i = i + 1;
        }
        proof {
            assert(self@.take(nl as int) =~= self@);
        }
        out
    }

    /// Serialize this [`BoxedUint`] as big-endian bytes with the leading
    /// all-zero bytes removed: exactly `leading_zeros() / 8` bytes are
    /// dropped, and the value is preserved. The result length depends on the
    /// value's magnitude, so this is variable-time.
    pub fn to_be_bytes_trimmed_vartime(&self) -> (r: Vec<u8>)
        requires
            self.wf(),
        ensures
            r@.len() == 8 * self@.len() - (64 * self@.len() - min_bits(self.value())) / 8,
            be_bytes_value(r@) == self.value(),
    {
        let zeroes: usize = (self.leading_zeros() / 8) as usize;
        let full = self.to_be_bytes();
        proof {
            lemma_trim_keeps_bits(self@.len() as int, min_bits(self.value()) as int);
        }
        let mut out: Vec<u8> = Vec::new();
        let mut j: usize = zeroes;
        proof {
            assert(out@ =~= full@.subrange(zeroes as int, zeroes as int));
        }
        while j < full.len()
            invariant
                zeroes <= j <= full@.len(),
                out@ == full@.subrange(zeroes as int, j as int),
            decreases full@.len() - j,
        {
            let b: u8 = full[j];
            out.push(b);
            proof {
                assert(out@ =~= full@.subrange(zeroes as int, j + 1));
            }
            j = j + 1;
        }
        proof {
            let mb = min_bits(self.value());
            lemma_min_bits_le(self.value(), mb);
            if mb < 8 * (full@.len() - zeroes) {
                lemma_pow2_strictly_increases(mb, (8 * (full@.len() - zeroes)) as nat);
            }
            lemma_be_bytes_small_value_zero_prefix(full@, zeroes as int);
            lemma_be_bytes_value_zero_prefix(full@, zeroes as int);
            assert(out@ =~= full@.skip(zeroes as int));
        }
        out
    }

    /// Serialize this [`BoxedUint`] as little-endian bytes with the trailing
    /// all-zero bytes removed: exactly `leading_zeros() / 8` bytes are
    /// dropped, and the value is preserved. The result length depends on the
    /// value's magnitude, so this is variable-time.
    pub fn to_le_bytes_trimmed_vartime(&self) -> (r: Vec<u8>)
        requires
            self.wf(),
        ensures
            r@.len() == 8 * self@.len() - (64 * self@.len() - min_bits(self.value())) / 8,
            le_bytes_value(r@) == self.value(),
    {
        let zeroes: usize = (self.leading_zeros() / 8) as usize;
        let mut bytes = self.to_le_bytes();
        proof {
            lemma_trim_keeps_bits(self@.len() as int, min_bits(self.value()) as int);
        }
        let keep: usize = bytes.len() - zeroes;
        proof {
            let mb = min_bits(self.value());
            lemma_min_bits_le(self.value(), mb);
            if mb < 8 * keep {
                lemma_pow2_strictly_increases(mb, (8 * keep) as nat);
            }
            lemma_le_bytes_small_value_zero_suffix(bytes@, keep as int);
            lemma_le_bytes_value_zero_suffix(bytes@, keep as int);
        }
        bytes.truncate(keep);
        bytes
    }
}

/// Dropping `(64n - b) / 8` bytes from an `n`-limb encoding keeps at least
/// `b` bits: the byte count dropped is bounded by the zero bits.
proof fn lemma_trim_keeps_bits(n: int, b: int)
    requires
        0 <= b <= 64 * n,
    ensures
        (64 * n - b) / 8 <= 8 * n,
        8 * (8 * n - (64 * n - b) / 8) >= b,
{
    lemma_fundamental_div_mod(64 * n - b, 8);
}

} // verus!