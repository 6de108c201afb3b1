//! The mathematical model of the representation: the numeric value of a limb
//! sequence, the numeric value of big- and little-endian byte buffers, and the
//! minimal bit-length of a value, together with the lemmas the codecs need.

use vstd::prelude::*;
use vstd::arithmetic::div_mod::*;
use vstd::arithmetic::power::*;
use vstd::arithmetic::power2::*;

use crate::Limb;

verus! {

/// The base of the positional representation: one limb holds 64 bits.
pub open spec fn limb_base() -> nat {
    0x1_0000_0000_0000_0000
}

/// The numeric value of a limb sequence, least-significant limb first.
pub open spec fn limbs_value(s: Seq<Limb>) -> nat
    decreases s.len(),
{
    if s.len() == 0 {
        0
    } else {
        s.first().0 as nat + limb_base() * limbs_value(s.drop_first())
    }
}

/// The numeric value of a big-endian byte buffer: the last byte is the least
/// significant.
pub open spec fn be_bytes_value(s: Seq<u8>) -> nat
    decreases s.len(),
{
    if s.len() == 0 {
        0
    } else {
        256 * be_bytes_value(s.drop_last()) + s.last() as nat
    }
}

/// The numeric value of a little-endian byte buffer: the first byte is the
/// least significant.
pub open spec fn le_bytes_value(s: Seq<u8>) -> nat
    decreases s.len(),
{
    if s.len() == 0 {
        0
    } else {
        s.first() as nat + 256 * le_bytes_value(s.drop_first())
    }
}

/// The minimal number of bits needed to represent `n`: the least `k` with
/// `n < pow2(k)`.
pub open spec fn min_bits(n: nat) -> nat
    decreases n,
{
    if n == 0 {
        0
    } else {
        (1 + min_bits(n / 2)) as nat
    }
}

/// `limb_base()` is `pow2(64)`.
pub proof fn lemma_limb_base()
    ensures
        limb_base() == pow2(64),
{
    lemma2_to64();
    lemma2_to64_rest();
}

/// Appending a limb at the most-significant end adds its value scaled by the
/// weight of that position.
pub proof fn lemma_limbs_value_push(s: Seq<Limb>, l: Limb)
    ensures
        limbs_value(s.push(l)) == limbs_value(s) + l.0 * pow2(64 * s.len()),
    decreases s.len(),
{
    lemma_limb_base();
    if s.len() == 0 {
        assert(s.push(l).drop_first() =~= Seq::<Limb>::empty());
        assert(s.push(l).first() == l);
        assert(limbs_value(Seq::<Limb>::empty()) == 0);
        assert(limbs_value(s.push(l)) == l.0 as nat);
        lemma2_to64();
        assert(pow2(0) == 1);
    } else {
        assert(s.push(l).drop_first() =~= s.drop_first().push(l));
        assert(s.push(l).first() == s.first());
        lemma_limbs_value_push(s.drop_first(), l);
        assert(limbs_value(s.push(l)) == s.first().0 as nat + limb_base() * (limbs_value(
            s.drop_first(),
        ) + l.0 * pow2(64 * (s.len() - 1) as nat)));
        lemma_pow2_adds(64, 64 * (s.len() - 1) as nat);
        assert(64 * s.len() == 64 + 64 * (s.len() - 1) as nat);
        assert(limb_base() * (limbs_value(s.drop_first()) + l.0 * pow2(64 * (s.len() - 1) as nat))
            == limb_base() * limbs_value(s.drop_first()) + l.0 * (pow2(64) * pow2(
            64 * (s.len() - 1) as nat,
        ))) by (nonlinear_arith)
            requires
                limb_base() == pow2(64),
        ;
    }
}

/// The value of the first `i + 1` limbs extends the value of the first `i`
/// limbs by the `i`th limb at its weight.
pub proof fn lemma_limbs_value_take_succ(s: Seq<Limb>, i: int)
    requires
        0 <= i < s.len(),
    ensures
        limbs_value(s.take(i + 1)) == limbs_value(s.take(i)) + s[i].0 * pow2(64 * i as nat),
{
    assert(s.take(i + 1) =~= s.take(i).push(s[i]));
    lemma_limbs_value_push(s.take(i), s[i]);
}

/// A limb sequence of length `n` holds a value below `pow2(64 * n)`.
pub proof fn lemma_limbs_value_bound(s: Seq<Limb>)
    ensures
        limbs_value(s) < pow2(64 * s.len()),
    decreases s.len(),
{
    lemma_limb_base();
    lemma2_to64();
    if s.len() == 0 {
    } else {
        lemma_limbs_value_bound(s.drop_first());
        lemma_pow2_adds(64, 64 * (s.len() - 1) as nat);
        assert(64 * s.len() == 64 + 64 * (s.len() - 1) as nat);
        assert(s.first().0 as nat + limb_base() * limbs_value(s.drop_first()) < pow2(64) * pow2(
            64 * (s.len() - 1) as nat,
        )) by (nonlinear_arith)
            requires
                s.first().0 < limb_base(),
                limb_base() == pow2(64),
                limbs_value(s.drop_first()) < pow2(64 * (s.len() - 1) as nat),
                pow2(64 * (s.len() - 1) as nat) > 0,
        {
        }
        lemma_pow2_pos(64 * (s.len() - 1) as nat);
    }
}

/// When every limb from position `i` on is zero, those limbs do not
/// contribute to the value.
pub proof fn lemma_limbs_value_zero_suffix(s: Seq<Limb>, i: int)
    requires
        0 <= i <= s.len(),
        forall|j: int| i <= j < s.len() ==> s[j].0 == 0,
    ensures
        limbs_value(s) == limbs_value(s.take(i)),
    decreases s.len() - i,
{
    if i == s.len() {
        assert(s.take(i) =~= s);
    } else {
        lemma_limbs_value_zero_suffix(s, i + 1);
        lemma_limbs_value_take_succ(s, i);
    }
}

/// Two limb sequences of the same length with the same value are equal.
pub proof fn lemma_limbs_value_injective(s: Seq<Limb>, t: Seq<Limb>)
    requires
        s.len() == t.len(),
        limbs_value(s) == limbs_value(t),
    ensures
        s == t,
    decreases s.len(),
{
    if s.len() > 0 {
        let v = limbs_value(s);
        lemma_fundamental_div_mod_converse(
            v as int,
            limb_base() as int,
            limbs_value(s.drop_first()) as int,
            s.first().0 as int,
        );
        lemma_fundamental_div_mod_converse(
            v as int,
            limb_base() as int,
            limbs_value(t.drop_first()) as int,
            t.first().0 as int,
        );
        lemma_limbs_value_injective(s.drop_first(), t.drop_first());
        assert(s =~= seq![s.first()] + s.drop_first());
        assert(t =~= seq![t.first()] + t.drop_first());
    } else {
        assert(s =~= t);
    }
}

/// A limb sequence whose most-significant limb is nonzero holds a value of at
/// least the weight of that limb.
pub proof fn lemma_limbs_value_top_nonzero(s: Seq<Limb>)
    requires
        s.len() > 0,
        s.last().0 != 0,
    ensures
        limbs_value(s) >= pow2(64 * (s.len() - 1) as nat),
{
    assert(s =~= s.drop_last().push(s.last()));
    lemma_limbs_value_push(s.drop_last(), s.last());
    lemma_pow2_pos(64 * (s.len() - 1) as nat);
    assert(s.last().0 * pow2(64 * (s.len() - 1) as nat) >= pow2(64 * (s.len() - 1) as nat))
        by (nonlinear_arith)
        requires
            s.last().0 >= 1,
            pow2(64 * (s.len() - 1) as nat) > 0,
    {
    }
    lemma_pow2_pos(64 * (s.len() - 1) as nat);
}


/// Appending bytes at the least-significant end of a big-endian buffer scales
/// the old value by the weight of the appended part.
pub proof fn lemma_be_bytes_value_append(a: Seq<u8>, b: Seq<u8>)
    ensures
        be_bytes_value(a + b) == be_bytes_value(a) * pow2(8 * b.len()) + be_bytes_value(b),
    decreases b.len(),
{
    if b.len() == 0 {
        assert(a + b =~= a);
        lemma2_to64();
        assert(pow2(0) == 1);
        assert(be_bytes_value(b) == 0);
        assert(be_bytes_value(a + b) == be_bytes_value(a));
        assert(be_bytes_value(a) * pow2(8 * b.len()) == be_bytes_value(a) * 1);
        assert(be_bytes_value(a + b) == be_bytes_value(a) * pow2(8 * b.len()) + be_bytes_value(b));
    } else {
        let bl = b.drop_last();
        let w = pow2(8 * (b.len() - 1) as nat);
        assert((a + b).drop_last() =~= a + bl);
        assert((a + b).last() == b.last());
        assert(be_bytes_value(a + b) == 256 * be_bytes_value(a + bl) + b.last());
        lemma_be_bytes_value_append(a, bl);
        lemma_pow2_adds(8, 8 * (b.len() - 1) as nat);
        lemma2_to64();
        assert(8 * b.len() == 8 + 8 * (b.len() - 1) as nat);
        assert(pow2(8 * b.len()) == 256 * w);
        assert(256 * (be_bytes_value(a) * w + be_bytes_value(bl)) == be_bytes_value(a) * (256 * w)
            + 256 * be_bytes_value(bl)) by (nonlinear_arith);
        assert(be_bytes_value(b) == 256 * be_bytes_value(bl) + b.last());
        assert(be_bytes_value(a + b) == be_bytes_value(a) * pow2(8 * b.len()) + be_bytes_value(b));
    }
}

/// A big-endian buffer of length `n` holds a value below `pow2(8 * n)`.
pub proof fn lemma_be_bytes_value_bound(s: Seq<u8>)
    ensures
        be_bytes_value(s) < pow2(8 * s.len()),
    decreases s.len(),
{
    lemma2_to64();
    if s.len() == 0 {
    } else {
        lemma_be_bytes_value_bound(s.drop_last());
        lemma_pow2_adds(8, 8 * (s.len() - 1) as nat);
        assert(8 * s.len() == 8 + 8 * (s.len() - 1) as nat);
        assert(256 * be_bytes_value(s.drop_last()) + s.last() < pow2(8) * pow2(
            8 * (s.len() - 1) as nat,
        )) by (nonlinear_arith)
            requires
                pow2(8) == 256,
                s.last() < 256,
                be_bytes_value(s.drop_last()) < pow2(8 * (s.len() - 1) as nat),
        ;
    }
}

/// Two big-endian buffers of the same length with the same value are equal.
pub proof fn lemma_be_bytes_value_injective(s: Seq<u8>, t: Seq<u8>)
    requires
        s.len() == t.len(),
        be_bytes_value(s) == be_bytes_value(t),
    ensures
        s == t,
    decreases s.len(),
{
    if s.len() > 0 {
        let v = be_bytes_value(s);
        lemma_fundamental_div_mod_converse(
            v as int,
            256,
            be_bytes_value(s.drop_last()) as int,
            s.last() as int,
        );
        lemma_fundamental_div_mod_converse(
            v as int,
            256,
            be_bytes_value(t.drop_last()) as int,
            t.last() as int,
        );
        lemma_be_bytes_value_injective(s.drop_last(), t.drop_last());
        assert(s =~= s.drop_last().push(s.last()));
        assert(t =~= t.drop_last().push(t.last()));
    } else {
        assert(s =~= t);
    }
}

/// A big-endian buffer has value zero exactly when every byte is zero.
pub proof fn lemma_be_bytes_value_zero_iff(s: Seq<u8>)
    ensures
        be_bytes_value(s) == 0 <==> (forall|j: int| 0 <= j < s.len() ==> s[j] == 0),
    decreases s.len(),
{
    if s.len() > 0 {
        lemma_be_bytes_value_zero_iff(s.drop_last());
        assert(forall|j: int| 0 <= j < s.len() - 1 ==> s[j] == s.drop_last()[j]);
    }
}

/// Bytes before position `i` of a big-endian buffer do not contribute to the
/// value when they are zero.
pub proof fn lemma_be_bytes_value_zero_prefix(s: Seq<u8>, i: int)
    requires
        0 <= i <= s.len(),
        forall|j: int| 0 <= j < i ==> s[j] == 0,
    ensures
        be_bytes_value(s) == be_bytes_value(s.skip(i)),
{
    let t0 = s.take(i);
    let sk = s.skip(i);
    assert(s =~= t0 + sk);
    lemma_be_bytes_value_append(t0, sk);
    lemma_be_bytes_value_zero_iff(t0);
    assert(forall|j: int| 0 <= j < i ==> t0[j] == 0);
    assert(be_bytes_value(t0) == 0);
    assert(be_bytes_value(t0) * pow2(8 * sk.len()) == 0) by (nonlinear_arith)
        requires
            be_bytes_value(t0) == 0,
    ;
    assert(be_bytes_value(s) == be_bytes_value(t0 + sk));
}

/// When the value of a big-endian buffer fits in its last `len - i` bytes,
/// every byte before position `i` is zero.
pub proof fn lemma_be_bytes_small_value_zero_prefix(s: Seq<u8>, i: int)
    requires
        0 <= i <= s.len(),
        be_bytes_value(s) < pow2(8 * (s.len() - i) as nat),
    ensures
        forall|j: int| 0 <= j < i ==> s[j] == 0,
{
    assert(s =~= s.take(i) + s.skip(i));
    lemma_be_bytes_value_append(s.take(i), s.skip(i));
    lemma_be_bytes_value_zero_iff(s.take(i));
    if be_bytes_value(s.take(i)) != 0 {
        assert(be_bytes_value(s) >= pow2(8 * (s.len() - i) as nat)) by (nonlinear_arith)
            requires
                be_bytes_value(s) == be_bytes_value(s.take(i)) * pow2(8 * (s.len() - i) as nat)
                    + be_bytes_value(s.skip(i)),
                be_bytes_value(s.take(i)) >= 1,
        ;
    }
    assert(forall|j: int| 0 <= j < i ==> s[j] == s.take(i)[j]);
}

/// Appending bytes at the most-significant end of a little-endian buffer adds
/// their value scaled by the weight of that position.
pub proof fn lemma_le_bytes_value_append(a: Seq<u8>, b: Seq<u8>)
    ensures
        le_bytes_value(a + b) == le_bytes_value(a) + pow2(8 * a.len()) * le_bytes_value(b),
    decreases a.len(),
{
    if a.len() == 0 {
        assert(a + b =~= b);
        lemma2_to64();
        assert(8 * a.len() == 0);
        assert(pow2(8 * a.len()) == 1);
        assert(le_bytes_value(a) == 0);
        assert(le_bytes_value(a + b) == le_bytes_value(b));
        assert(pow2(8 * a.len()) * le_bytes_value(b) == le_bytes_value(b)) by (nonlinear_arith)
            requires
                pow2(8 * a.len()) == 1,
        ;
    } else {
        let af = a.drop_first();
        let w = pow2(8 * (a.len() - 1) as nat);
        assert((a + b).drop_first() =~= af + b);
        assert((a + b).first() == a.first());
        assert(le_bytes_value(a + b) == a.first() as nat + 256 * le_bytes_value(af + b));
        lemma_le_bytes_value_append(af, b);
        lemma_pow2_adds(8, 8 * (a.len() - 1) as nat);
        lemma2_to64();
        assert(8 * a.len() == 8 + 8 * (a.len() - 1) as nat);
        assert(pow2(8 * a.len()) == 256 * w);
        assert(256 * (le_bytes_value(af) + w * le_bytes_value(b)) == 256 * le_bytes_value(af) + (
        256 * w) * le_bytes_value(b)) by (nonlinear_arith);
        assert(le_bytes_value(a) == a.first() as nat + 256 * le_bytes_value(af));
        assert(le_bytes_value(a + b) == le_bytes_value(a) + pow2(8 * a.len()) * le_bytes_value(b));
    }
}

/// A little-endian buffer of length `n` holds a value below `pow2(8 * n)`.
pub proof fn lemma_le_bytes_value_bound(s: Seq<u8>)
    ensures
        le_bytes_value(s) < pow2(8 * s.len()),
    decreases s.len(),
{
    lemma2_to64();
    if s.len() == 0 {
    } else {
        lemma_le_bytes_value_bound(s.drop_first());
        lemma_pow2_adds(8, 8 * (s.len() - 1) as nat);
        assert(8 * s.len() == 8 + 8 * (s.len() - 1) as nat);
        assert(s.first() + 256 * le_bytes_value(s.drop_first()) < pow2(8) * pow2(
            8 * (s.len() - 1) as nat,
        )) by (nonlinear_arith)
            requires
                pow2(8) == 256,
                s.first() < 256,
                le_bytes_value(s.drop_first()) < pow2(8 * (s.len() - 1) as nat),
                pow2(8 * (s.len() - 1) as nat) > 0,
        ;
        lemma_pow2_pos(8 * (s.len() - 1) as nat);
    }
}

/// Two little-endian buffers of the same length with the same value are equal.
pub proof fn lemma_le_bytes_value_injective(s: Seq<u8>, t: Seq<u8>)
    requires
        s.len() == t.len(),
        le_bytes_value(s) == le_bytes_value(t),
    ensures
        s == t,
    decreases s.len(),
{
    if s.len() > 0 {
        let v = le_bytes_value(s);
        lemma_fundamental_div_mod_converse(
            v as int,
            256,
            le_bytes_value(s.drop_first()) as int,
            s.first() as int,
        );
        lemma_fundamental_div_mod_converse(
            v as int,
            256,
            le_bytes_value(t.drop_first()) as int,
            t.first() as int,
        );
        lemma_le_bytes_value_injective(s.drop_first(), t.drop_first());
        assert(s =~= seq![s.first()] + s.drop_first());
        assert(t =~= seq![t.first()] + t.drop_first());
    } else {
        assert(s =~= t);
    }
}

/// A little-endian buffer has value zero exactly when every byte is zero.
pub proof fn lemma_le_bytes_value_zero_iff(s: Seq<u8>)
    ensures
        le_bytes_value(s) == 0 <==> (forall|j: int| 0 <= j < s.len() ==> s[j] == 0),
    decreases s.len(),
{
    if s.len() > 0 {
        let r = s.drop_first();
        lemma_le_bytes_value_zero_iff(r);
        assert(le_bytes_value(s) == s[0] as nat + 256 * le_bytes_value(r));
        if le_bytes_value(s) == 0 {
            assert forall|j: int| 0 <= j < s.len() implies s[j] == 0 by {
                if j > 0 {
                    assert(s[j] == r[j - 1]);
                }
            }
        } else {
            if s[0] == 0 && le_bytes_value(r) == 0 {
                assert(le_bytes_value(s) == 0);
            }
            assert(exists|j: int| 0 <= j < s.len() && s[j] != 0) by {
                if s[0] != 0 {
                    assert(0 <= 0 < s.len() && s[0] != 0);
                } else {
                    let j = choose|j: int| 0 <= j < r.len() && r[j] != 0;
                    assert(s[j + 1] == r[j]);
                }
            }
        }
    }
}

/// Bytes from position `i` on of a little-endian buffer do not contribute to
/// the value when they are zero.
pub proof fn lemma_le_bytes_value_zero_suffix(s: Seq<u8>, i: int)
    requires
        0 <= i <= s.len(),
        forall|j: int| i <= j < s.len() ==> s[j] == 0,
    ensures
        le_bytes_value(s) == le_bytes_value(s.take(i)),
{
    let t0 = s.take(i);
    let sk = s.skip(i);
    assert(s =~= t0 + sk);
    lemma_le_bytes_value_append(t0, sk);
    lemma_le_bytes_value_zero_iff(sk);
    assert(forall|j: int| 0 <= j < sk.len() ==> sk[j] == s[i + j] && s[i + j] == 0);
    assert(le_bytes_value(sk) == 0);
    assert(pow2(8 * t0.len()) * le_bytes_value(sk) == 0) by (nonlinear_arith)
        requires
            le_bytes_value(sk) == 0,
    ;
    assert(le_bytes_value(s) == le_bytes_value(t0 + sk));
}

/// When the value of a little-endian buffer fits in its first `i` bytes,
/// every byte from position `i` on is zero.
pub proof fn lemma_le_bytes_small_value_zero_suffix(s: Seq<u8>, i: int)
    requires
        0 <= i <= s.len(),
        le_bytes_value(s) < pow2(8 * i as nat),
    ensures
        forall|j: int| i <= j < s.len() ==> s[j] == 0,
{
    assert(s =~= s.take(i) + s.skip(i));
    lemma_le_bytes_value_append(s.take(i), s.skip(i));
    lemma_le_bytes_value_zero_iff(s.skip(i));
    if le_bytes_value(s.skip(i)) != 0 {
        assert(le_bytes_value(s) >= pow2(8 * i as nat)) by (nonlinear_arith)
            requires
                le_bytes_value(s) == le_bytes_value(s.take(i)) + pow2(8 * i as nat)
                    * le_bytes_value(s.skip(i)),
                le_bytes_value(s.skip(i)) >= 1,
        ;
    }
    assert(forall|j: int| i <= j < s.len() ==> s[j] == s.skip(i)[j - i]);
}

/// `min_bits(n)` is at most `k` exactly when `n` fits in `k` bits.
pub proof fn lemma_min_bits_le(n: nat, k: nat)
    ensures
        min_bits(n) <= k <==> n < pow2(k),
    decreases k,
{
    lemma_pow2_pos(k);
    lemma2_to64();
    if n == 0 {
    } else if k == 0 {
        assert(pow2(0) == 1);
    } else {
        lemma_min_bits_le(n / 2, (k - 1) as nat);
        lemma_pow2_unfold(k);
        assert(n < 2 * pow2((k - 1) as nat) <==> n / 2 < pow2((k - 1) as nat))
            by (nonlinear_arith)
            requires
                pow2((k - 1) as nat) > 0,
        ;
        lemma_pow2_pos((k - 1) as nat);
    }
}

/// Adding a nonzero part above the `k` low bits of a value determines the
/// minimal bit-length: it is `k` plus the bit-length of the high part.
pub proof fn lemma_min_bits_add_high(a: nat, b: nat, k: nat)
    requires
        a < pow2(k),
        b > 0,
    ensures
        min_bits(a + b * pow2(k)) == k + min_bits(b),
    decreases k,
{
    lemma_pow2_pos(k);
    if k == 0 {
        assert(pow2(0) == 1) by {
            lemma2_to64();
        }
        assert(a == 0);
        assert(b * pow2(k) == b) by (nonlinear_arith)
            requires
                pow2(k) == 1,
        ;
        assert(a + b * pow2(k) == b);
    } else {
        let n = a + b * pow2(k);
        lemma_pow2_unfold(k);
        lemma_pow2_pos((k - 1) as nat);
        assert(n > 0) by (nonlinear_arith)
            requires
                b > 0,
                pow2(k) > 0,
                n == a + b * pow2(k),
        ;
        assert(n == (a / 2 + b * pow2((k - 1) as nat)) * 2 + a % 2) by (nonlinear_arith)
            requires
                n == a + b * pow2(k),
                pow2(k) == 2 * pow2((k - 1) as nat),
                a == 2 * (a / 2) + a % 2,
        ;
        lemma_fundamental_div_mod_converse(
            n as int,
            2,
            (a / 2 + b * pow2((k - 1) as nat)) as int,
            (a % 2) as int,
        );
        assert(n / 2 == a / 2 + b * pow2((k - 1) as nat));
        assert(min_bits(n) == 1 + min_bits(n / 2));
        assert(a / 2 < pow2((k - 1) as nat)) by (nonlinear_arith)
            requires
                a < 2 * pow2((k - 1) as nat),
                pow2((k - 1) as nat) > 0,
        ;
        lemma_min_bits_add_high(a / 2, b, (k - 1) as nat);
        assert(min_bits(n / 2) == (k - 1) as nat + min_bits(b));
        assert(min_bits(a + b * pow2(k)) == k + min_bits(b));
    }
}

/// Shifting the all-ones word right by `s` leaves the low `64 - s` bits set.
pub proof fn lemma_u64_max_shr(s: u64)
    requires
        0 < s < 64,
    ensures
        (0xFFFF_FFFF_FFFF_FFFFu64 >> s) == pow2((64 - s) as nat) - 1,
{
    let m: u64 = 0xFFFF_FFFF_FFFF_FFFF;
    vstd::bits::lemma_u64_shr_is_div(m, s);
    lemma_pow2_adds((64 - s) as nat, s as nat);
    lemma_pow2_pos(s as nat);
    lemma_pow2_pos((64 - s) as nat);
    lemma2_to64();
    lemma2_to64_rest();
    assert(m as nat == pow2((64 - s) as nat) * pow2(s as nat) - 1);
    assert(m as int == (pow2((64 - s) as nat) - 1) * pow2(s as nat) + (pow2(s as nat) - 1))
        by (nonlinear_arith)
        requires
            m as nat == pow2((64 - s) as nat) * pow2(s as nat) - 1,
            pow2(s as nat) >= 1,
            pow2((64 - s) as nat) >= 1,
    ;
    lemma_fundamental_div_mod_converse(
        m as int,
        pow2(s as nat) as int,
        (pow2((64 - s) as nat) - 1) as int,
        (pow2(s as nat) - 1) as int,
    );
}

} // verus!
