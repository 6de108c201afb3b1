//! The library's laws: round trips between values and their encodings, the
//! rounding of precision to whole limbs, and the exact error behaviour of
//! the radix scan, each stated over the spec functions that the public
//! contracts use.

use vstd::prelude::*;
use vstd::arithmetic::div_mod::{
    lemma_div_decreases, lemma_fundamental_div_mod, lemma_fundamental_div_mod_converse,
};
use vstd::arithmetic::power::{lemma_pow_adds, lemma_pow_positive, lemma_pow1, lemma_pow0, pow};
use vstd::arithmetic::power2::{lemma_pow2_strictly_increases, pow2};
use vstd::utf8::{encode_utf8, is_ascii_chars, is_ascii_chars_encode_utf8};

use crate::boxed::nlimbs_of;
use crate::bytes::nbytes_of;
use crate::model::{
    be_bytes_value, le_bytes_value, lemma_be_bytes_value_bound, lemma_be_bytes_value_injective,
    lemma_le_bytes_value_bound, lemma_le_bytes_value_injective, lemma_limbs_value_bound,
    lemma_limbs_value_injective, lemma_limbs_value_top_nonzero, lemma_min_bits_le, limbs_value,
    min_bits,
};
use crate::radix::{
    digit_ascii, is_radix_digit, radix_digit_value, radix_digits, radix_encode_bytes,
    radix_encode_chars, radix_parse, radix_scan, strip_plus,
};
use crate::{DecodeError, Limb};

verus! {

/// Round trip for big-endian buffers: decoding a buffer of whole limbs at
/// precision `8 * len` and re-encoding returns the original buffer. The
/// hypotheses are exactly what `from_be_slice` and `to_be_bytes` ensure.
pub proof fn lemma_be_bytes_round_trip(b: Seq<u8>, v: Seq<Limb>, out: Seq<u8>)
    requires
        b.len() % 8 == 0,
        8 * b.len() <= 0xFFFF_FFC0,
        v.len() == nlimbs_of((8 * b.len()) as u32),
        limbs_value(v) == be_bytes_value(b),
        out.len() == 8 * v.len(),
        be_bytes_value(out) == limbs_value(v),
    ensures
        out == b,
{
    lemma_fundamental_div_mod(8 * b.len() as int + 63, 64);
    lemma_fundamental_div_mod(b.len() as int, 8);
    assert(v.len() == b.len() / 8);
    assert(out.len() == b.len());
    lemma_be_bytes_value_injective(out, b);
}

/// Round trip for little-endian buffers: decoding a buffer of whole limbs at
/// precision `8 * len` and re-encoding returns the original buffer. The
/// hypotheses are exactly what `from_le_slice` and `to_le_bytes` ensure.
pub proof fn lemma_le_bytes_round_trip(b: Seq<u8>, v: Seq<Limb>, out: Seq<u8>)
    requires
        b.len() % 8 == 0,
        8 * b.len() <= 0xFFFF_FFC0,
        v.len() == nlimbs_of((8 * b.len()) as u32),
        limbs_value(v) == le_bytes_value(b),
        out.len() == 8 * v.len(),
        le_bytes_value(out) == limbs_value(v),
    ensures
        out == b,
{
    lemma_fundamental_div_mod(8 * b.len() as int + 63, 64);
    lemma_fundamental_div_mod(b.len() as int, 8);
    assert(v.len() == b.len() / 8);
    assert(out.len() == b.len());
    lemma_le_bytes_value_injective(out, b);
}

/// Decoding a big-endian buffer at its own bit length cannot fail: the
/// buffer fits the byte budget and its value fits the bits.
pub proof fn lemma_be_slice_full_precision_ok(b: Seq<u8>)
    requires
        8 * b.len() <= 0xFFFF_FFC0,
    ensures
        b.len() <= nbytes_of((8 * b.len()) as u32),
        min_bits(be_bytes_value(b)) <= 8 * b.len(),
{
    lemma_fundamental_div_mod(8 * b.len() as int + 7, 8);
    lemma_be_bytes_value_bound(b);
    lemma_min_bits_le(be_bytes_value(b), (8 * b.len()) as nat);
}

/// Decoding a little-endian buffer at its own bit length cannot fail.
pub proof fn lemma_le_slice_full_precision_ok(b: Seq<u8>)
    requires
        8 * b.len() <= 0xFFFF_FFC0,
    ensures
        b.len() <= nbytes_of((8 * b.len()) as u32),
        min_bits(le_bytes_value(b)) <= 8 * b.len(),
{
    lemma_fundamental_div_mod(8 * b.len() as int + 7, 8);
    lemma_le_bytes_value_bound(b);
    lemma_min_bits_le(le_bytes_value(b), (8 * b.len()) as nat);
}

/// Precision rounding: the reported precision `64 * nlimbs_of(p)` is the
/// least multiple of the limb width at or above the requested precision.
pub proof fn lemma_precision_rounds_up(bits_precision: u32)
    ensures
        bits_precision <= 64 * nlimbs_of(bits_precision),
        64 * nlimbs_of(bits_precision) < bits_precision + 64,
        64 * nlimbs_of(bits_precision) % 64 == 0,
{
    lemma_fundamental_div_mod(bits_precision as int + 63, 64);
    lemma_fundamental_div_mod_converse(
        64 * nlimbs_of(bits_precision) as int,
        64,
        nlimbs_of(bits_precision) as int,
        0,
    );
}

/// Two limb sequences in minimal form with the same value are the same
/// sequence: a value has one minimal representation.
pub proof fn lemma_minimal_limbs_unique(s: Seq<Limb>, t: Seq<Limb>)
    requires
        limbs_value(s) == limbs_value(t),
        s.len() == 0 || s.last().0 != 0,
        t.len() == 0 || t.last().0 != 0,
    ensures
        s == t,
{
    if s.len() < t.len() {
        lemma_minimal_len_shorter(s, t);
    } else if t.len() < s.len() {
        lemma_minimal_len_shorter(t, s);
    } else {
        lemma_limbs_value_injective(s, t);
    }
}

/// Helper: a shorter sequence holds a smaller value than a longer sequence
/// whose top limb is nonzero.
proof fn lemma_minimal_len_shorter(s: Seq<Limb>, t: Seq<Limb>)
    requires
        s.len() < t.len(),
        t.last().0 != 0,
    ensures
        limbs_value(s) < limbs_value(t),
{
    lemma_limbs_value_bound(s);
    lemma_limbs_value_top_nonzero(t);
    if 64 * s.len() < 64 * (t.len() - 1) as nat {
        lemma_pow2_strictly_increases(64 * s.len(), 64 * (t.len() - 1) as nat);
    }
}

/// A digit below the radix survives the trip through its ASCII byte: the
/// byte is a digit of that radix, is neither `_` nor `+`, and maps back to
/// the same value.
proof fn lemma_digit_ascii_round_trip(d: nat, radix: u32)
    requires
        2 <= radix <= 36,
        d < radix,
    ensures
        is_radix_digit(digit_ascii(d), radix),
        radix_digit_value(digit_ascii(d)) == d,
        digit_ascii(d) != 0x5F,
        digit_ascii(d) != 0x2B,
        digit_ascii(d) < 0x80,
{
}

/// Appending one valid digit byte to a cleanly scanning string extends the
/// scan by one accumulation step.
proof fn lemma_scan_push(s: Seq<u8>, b: u8, radix: u32, acc: nat, m: nat)
    requires
        2 <= radix <= 36,
        radix_scan(s, radix, acc, None) == Ok::<nat, DecodeError>(m),
        is_radix_digit(b, radix),
        b != 0x5F,
    ensures
        radix_scan(s.push(b), radix, acc, None) == Ok::<nat, DecodeError>(
            m * (radix as nat) + radix_digit_value(b),
        ),
    decreases s.len(),
{
    if s.len() == 0 {
        assert(s.push(b).first() == b);
        assert(s.push(b).drop_first() =~= Seq::<u8>::empty());
        assert(m == acc);
        let v: nat = acc * (radix as nat) + radix_digit_value(b);
        assert(radix_scan(Seq::<u8>::empty(), radix, v, None) == Ok::<nat, DecodeError>(v));
        assert(radix_scan(s.push(b), radix, acc, None) == Ok::<nat, DecodeError>(v));
    } else {
        assert(s.push(b).first() == s.first());
        assert(s.push(b).drop_first() =~= s.drop_first().push(b));
        if s.first() == 0x5F {
            lemma_scan_push(s.drop_first(), b, radix, acc, m);
            assert(radix_scan(s, radix, acc, None) == radix_scan(s.drop_first(), radix, acc, None));
            assert(radix_scan(s.push(b), radix, acc, None) == radix_scan(
                s.drop_first().push(b),
                radix,
                acc,
                None,
            ));
        } else {
            assert(is_radix_digit(s.first(), radix));
            let v: nat = acc * (radix as nat) + radix_digit_value(s.first());
            assert(radix_scan(s, radix, acc, None) == radix_scan(s.drop_first(), radix, v, None));
            lemma_scan_push(s.drop_first(), b, radix, v, m);
            assert(radix_scan(s.push(b), radix, acc, None) == radix_scan(
                s.drop_first().push(b),
                radix,
                v,
                None,
            ));
        }
    }
}

/// Scanning the reversed digits of `m` from an accumulator folds them back
/// into `acc` scaled by the radix power, plus `m`.
proof fn lemma_scan_digits(m: nat, radix: u32, acc: nat)
    requires
        2 <= radix <= 36,
    ensures
        radix_scan(
            radix_digits(m, radix as nat).reverse().map_values(|d: nat| digit_ascii(d)),
            radix,
            acc,
            None,
        ) == Ok::<nat, DecodeError>(
            (acc * pow(radix as int, radix_digits(m, radix as nat).len()) + m) as nat,
        ),
    decreases m,
{
    let r = radix as nat;
    let rd = radix_digits(m, r);
    if m == 0 {
        assert(rd.len() == 0);
        assert(rd.reverse().map_values(|d: nat| digit_ascii(d)) =~= Seq::<u8>::empty());
        lemma_pow0(radix as int);
        assert(acc * pow(radix as int, 0) == acc) by (nonlinear_arith)
            requires
                pow(radix as int, 0) == 1,
        ;
    } else {
        lemma_div_decreases(m as int, radix as int);
        lemma_fundamental_div_mod(m as int, radix as int);
        assert(m % r < r) by (nonlinear_arith)
            requires
                r >= 2,
        ;
        let low = m % r;
        let rest = radix_digits(m / r, r);
        assert(rd == seq![low] + rest);
        assert(rd.reverse() =~= rest.reverse().push(low));
        assert(rd.reverse().map_values(|d: nat| digit_ascii(d)) =~= rest.reverse().map_values(
            |d: nat| digit_ascii(d),
        ).push(digit_ascii(low)));
        lemma_scan_digits(m / r, radix, acc);
        lemma_digit_ascii_round_trip(low, radix);
        lemma_pow_positive(radix as int, rest.len());
        lemma_pow_positive(radix as int, rd.len());
        let prev: nat = (acc * pow(radix as int, rest.len()) + m / r) as nat;
        lemma_scan_push(
            rest.reverse().map_values(|d: nat| digit_ascii(d)),
            digit_ascii(low),
            radix,
            acc,
            prev,
        );
        lemma_pow1(radix as int);
        lemma_pow_adds(radix as int, rest.len(), 1);
        assert(prev * (radix as nat) + low == acc * (pow(radix as int, rest.len()) * r) + ((m
            / r) * r + low)) by (nonlinear_arith)
            requires
                prev == acc * pow(radix as int, rest.len()) + m / r,
                r == radix,
        ;
        assert(rd.len() == rest.len() + 1);
        assert((m / r) * r + low == m);
    }
}

/// Radix round trip: for every value and radix, scanning the string the
/// encoder produces yields the value back. The string is stated as the
/// UTF-8 bytes of the encoder's characters: exactly what
/// `from_str_radix_vartime` reads of what `to_string_radix_vartime` wrote.
pub proof fn lemma_radix_round_trip(n: nat, radix: u32)
    requires
        2 <= radix <= 36,
    ensures
        radix_parse(encode_utf8(radix_encode_chars(n, radix as nat)), radix, None) == Ok::<
            nat,
            DecodeError,
        >(n),
{
    lemma_radix_encode_utf8(n, radix);
    lemma_radix_parse_encoded(n, radix);
}

/// The encoder's characters are ASCII, so their UTF-8 bytes are exactly the
/// encoder's bytes.
proof fn lemma_radix_encode_utf8(n: nat, radix: u32)
    requires
        2 <= radix <= 36,
    ensures
        encode_utf8(radix_encode_chars(n, radix as nat)) == radix_encode_bytes(n, radix as nat),
{
    let bs = radix_encode_bytes(n, radix as nat);
    let cs = radix_encode_chars(n, radix as nat);
    lemma_radix_encode_bytes_ascii(n, radix);
    assert(is_ascii_chars(cs)) by {
        assert forall|i: int| 0 <= i < cs.len() implies '\0' <= #[trigger] cs[i] <= '\u{7f}' by {
            assert(cs[i] == (bs[i] as char));
            assert(bs[i] < 0x80);
        }
    }
    is_ascii_chars_encode_utf8(cs);
    assert(encode_utf8(cs) =~= bs) by {
        assert(forall|i: int|
            0 <= i < cs.len() ==> #[trigger] encode_utf8(cs)[i] == cs[i] as u8);
        assert(forall|i: int| 0 <= i < cs.len() ==> cs[i] == (bs[i] as char));
    }
}

/// Every byte the encoder produces is below 0x80.
proof fn lemma_radix_encode_bytes_ascii(n: nat, radix: u32)
    requires
        2 <= radix <= 36,
    ensures
        forall|i: int|
            0 <= i < radix_encode_bytes(n, radix as nat).len() ==> #[trigger] radix_encode_bytes(
                n,
                radix as nat,
            )[i] < 0x80,
{
    let r = radix as nat;
    let bs = radix_encode_bytes(n, r);
    if n == 0 {
    } else {
        let rd = radix_digits(n, r);
        crate::radix::lemma_radix_digits_below_radix(n, r);
        assert forall|i: int| 0 <= i < bs.len() implies #[trigger] bs[i] < 0x80 by {
            assert(bs[i] == digit_ascii(rd.reverse()[i]));
            assert(rd.reverse()[i] == rd[rd.len() - 1 - i]);
        }
    }
}

/// Parsing the encoder's bytes yields the value back.
proof fn lemma_radix_parse_encoded(n: nat, radix: u32)
    requires
        2 <= radix <= 36,
    ensures
        radix_parse(radix_encode_bytes(n, radix as nat), radix, None) == Ok::<nat, DecodeError>(
            n,
        ),
{
    let r = radix as nat;
    let bs = radix_encode_bytes(n, r);
    if n == 0 {
        assert(bs == seq![0x30u8]);
        assert(bs.first() == 0x30);
        assert(strip_plus(bs) == bs);
        assert(radix_digit_value(0x30) == 0);
        assert(is_radix_digit(0x30, radix));
        assert(bs.drop_first() =~= Seq::<u8>::empty());
        assert(0 * (radix as nat) + 0 == 0) by (nonlinear_arith);
        assert(radix_scan(Seq::<u8>::empty(), radix, 0, None) == Ok::<nat, DecodeError>(0));
        assert(radix_scan(bs, radix, 0, None) == radix_scan(bs.drop_first(), radix, 0, None));
    } else {
        let rd = radix_digits(n, r);
        assert(rd.len() > 0);
        lemma_scan_digits(n, radix, 0);
        lemma_pow_positive(radix as int, rd.len());
        assert(0 * pow(radix as int, rd.len()) == 0) by (nonlinear_arith);
        assert((0 * pow(radix as int, rd.len()) + n) as nat == n);
        assert(radix_scan(bs, radix, 0, None) == Ok::<nat, DecodeError>(n));
        assert(bs == rd.reverse().map_values(|d: nat| digit_ascii(d)));
        assert(strip_plus(bs) == bs) by {
            crate::radix::lemma_radix_digits_below_radix(n, r);
            assert(bs[0] == digit_ascii(rd.reverse()[0]));
            assert(rd.reverse()[0] == rd[rd.len() - 1]);
            lemma_digit_ascii_round_trip(rd[rd.len() - 1], radix);
        }
    }
}

/// With no capacity, the scan fails exactly when some byte after the
/// optional sign is neither an underscore nor a digit of the radix, and
/// then only with the invalid-digit error.
pub proof fn lemma_radix_invalid_digit(s: Seq<u8>, radix: u32)
    requires
        2 <= radix <= 36,
    ensures
        radix_parse(s, radix, None) == Err::<nat, DecodeError>(DecodeError::InvalidDigit)
            <==> exists|i: int|
            0 <= i < strip_plus(s).len() && strip_plus(s)[i] != 0x5F && !is_radix_digit(
                #[trigger] strip_plus(s)[i],
                radix,
            ),
        radix_parse(s, radix, None) is Ok <==> (forall|i: int|
            0 <= i < strip_plus(s).len() ==> strip_plus(s)[i] == 0x5F || is_radix_digit(
                #[trigger] strip_plus(s)[i],
                radix,
            )),
{
    lemma_scan_invalid(strip_plus(s), radix, 0);
}

/// Helper for [`lemma_radix_invalid_digit`], by induction on the scan.
proof fn lemma_scan_invalid(s: Seq<u8>, radix: u32, acc: nat)
    requires
        2 <= radix <= 36,
    ensures
        radix_scan(s, radix, acc, None) == Err::<nat, DecodeError>(DecodeError::InvalidDigit)
            <==> exists|i: int|
            0 <= i < s.len() && s[i] != 0x5F && !is_radix_digit(#[trigger] s[i], radix),
        radix_scan(s, radix, acc, None) is Ok <==> (forall|i: int|
            0 <= i < s.len() ==> s[i] == 0x5F || is_radix_digit(#[trigger] s[i], radix)),
    decreases s.len(),
{
    if s.len() == 0 {
    } else {
        let rest = s.drop_first();
        if s.first() == 0x5F || is_radix_digit(s.first(), radix) {
            if s.first() == 0x5F {
                lemma_scan_invalid(rest, radix, acc);
            } else {
                lemma_scan_invalid(rest, radix, acc * (radix as nat) + radix_digit_value(
                    s.first(),
                ));
            }
            assert forall|i: int|
                0 <= i < rest.len() && rest[i] != 0x5F && !is_radix_digit(
                    #[trigger] rest[i],
                    radix,
                ) implies s[i + 1] != 0x5F && !is_radix_digit(s[i + 1], radix) by {
                assert(rest[i] == s[i + 1]);
            }
            assert forall|i: int|
                1 <= i < s.len() && s[i] != 0x5F && !is_radix_digit(
                    #[trigger] s[i],
                    radix,
                ) implies rest[i - 1] != 0x5F && !is_radix_digit(rest[i - 1], radix) by {
                assert(rest[i - 1] == s[i]);
            }
            assert(forall|i: int| 0 <= i < rest.len() ==> #[trigger] rest[i] == s[i + 1]);
        } else {
            assert(s[0] != 0x5F && !is_radix_digit(s[0], radix));
        }
    }
}

/// With a capacity, a string of valid digits scans to its value when the
/// value is below the capacity, and to the size error exactly when it is
/// not.
pub proof fn lemma_radix_parse_capped(s: Seq<u8>, radix: u32, c: nat)
    requires
        2 <= radix <= 36,
        c > 0,
        forall|i: int|
            0 <= i < strip_plus(s).len() ==> strip_plus(s)[i] == 0x5F || is_radix_digit(
                #[trigger] strip_plus(s)[i],
                radix,
            ),
    ensures
        radix_parse(s, radix, None) is Ok,
        ({
            let v = radix_parse(s, radix, None)->Ok_0;
            radix_parse(s, radix, Some(c)) == if v >= c {
                Err::<nat, DecodeError>(DecodeError::InputSize)
            } else {
                Ok::<nat, DecodeError>(v)
            }
        }),
{
    lemma_radix_invalid_digit(s, radix);
    lemma_scan_capped(strip_plus(s), radix, 0, c);
}

/// Helper for [`lemma_radix_parse_capped`], by induction on the scan.
proof fn lemma_scan_capped(s: Seq<u8>, radix: u32, acc: nat, c: nat)
    requires
        2 <= radix <= 36,
        acc < c,
        forall|i: int|
            0 <= i < s.len() ==> s[i] == 0x5F || is_radix_digit(#[trigger] s[i], radix),
    ensures
        radix_scan(s, radix, acc, None) is Ok,
        radix_scan(s, radix, acc, None)->Ok_0 >= acc,
        ({
            let v = radix_scan(s, radix, acc, None)->Ok_0;
            radix_scan(s, radix, acc, Some(c)) == if v >= c {
                Err::<nat, DecodeError>(DecodeError::InputSize)
            } else {
                Ok::<nat, DecodeError>(v)
            }
        }),
    decreases s.len(),
{
    if s.len() == 0 {
    } else {
        let rest = s.drop_first();
        assert(forall|i: int| 0 <= i < rest.len() ==> #[trigger] rest[i] == s[i + 1]);
        if s.first() == 0x5F {
            lemma_scan_capped(rest, radix, acc, c);
        } else {
            assert(is_radix_digit(s.first(), radix));
            let v: nat = acc * (radix as nat) + radix_digit_value(s.first());
            assert(v >= acc) by (nonlinear_arith)
                requires
                    v == acc * (radix as nat) + radix_digit_value(s.first()),
                    radix >= 1,
            ;
            if v >= c {
                lemma_scan_ge_acc(rest, radix, v);
            } else {
                lemma_scan_capped(rest, radix, v, c);
            }
        }
    }
}

/// A clean scan never yields less than its starting accumulator.
proof fn lemma_scan_ge_acc(s: Seq<u8>, radix: u32, acc: nat)
    requires
        2 <= radix <= 36,
        forall|i: int|
            0 <= i < s.len() ==> s[i] == 0x5F || is_radix_digit(#[trigger] s[i], radix),
    ensures
        radix_scan(s, radix, acc, None) is Ok,
        radix_scan(s, radix, acc, None)->Ok_0 >= acc,
    decreases s.len(),
{
    if s.len() == 0 {
    } else {
        let rest = s.drop_first();
        assert(forall|i: int| 0 <= i < rest.len() ==> #[trigger] rest[i] == s[i + 1]);
        if s.first() == 0x5F {
            lemma_scan_ge_acc(rest, radix, acc);
        } else {
            let v: nat = acc * (radix as nat) + radix_digit_value(s.first());
            assert(v >= acc) by (nonlinear_arith)
                requires
                    v == acc * (radix as nat) + radix_digit_value(s.first()),
                    radix >= 1,
            ;
            lemma_scan_ge_acc(rest, radix, v);
        }
    }
}

} // verus!
