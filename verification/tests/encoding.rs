use boxed_uint::{BoxedUint, DecodeError, Limb};

/// Decode a hex string into bytes, for building test inputs.
fn hx(s: &str) -> Vec<u8> {
    fn nib(c: u8) -> u8 {
        match c {
            b'0'..=b'9' => c - b'0',
            b'a'..=b'f' => c - b'a' + 10,
            b'A'..=b'F' => c - b'A' + 10,
            _ => panic!("not hex"),
        }
    }
    let b = s.as_bytes();
    assert!(b.len() % 2 == 0);
    let mut out = Vec::new();
    let mut i = 0;
    while i < b.len() {
        out.push(nib(b[i]) * 16 + nib(b[i + 1]));
        i += 2;
    }
    out
}

#[test]
fn from_be_slice_eq() {
    let bytes = hx("00112233445566778899aabbccddeeff");
    let n = BoxedUint::from_be_slice(&bytes, 128).unwrap();
    assert_eq!(
        n.as_limbs(),
        &[Limb(0x8899aabbccddeeff), Limb(0x0011223344556677)]
    );
}

#[test]
fn from_be_hex_eq() {
    let hex = "00112233445566778899aabbccddeeff";
    let n = BoxedUint::from_be_hex(hex, 128).unwrap();
    assert_eq!(
        n.as_limbs(),
        &[Limb(0x8899aabbccddeeff), Limb(0x0011223344556677)]
    );
}

#[test]
fn from_be_slice_short() {
    let bytes = hx("00112233445566778899aabbccddeeff");
    let n = BoxedUint::from_be_slice(&bytes, 256).unwrap();
    assert_eq!(
        n.as_limbs(),
        &[
            Limb(0x8899aabbccddeeff),
            Limb(0x0011223344556677),
            Limb(0),
            Limb(0)
        ]
    );
}

#[test]
fn from_be_slice_too_long() {
    let bytes = hx("00112233445566778899aabbccddeeff");
    assert_eq!(
        BoxedUint::from_be_slice(&bytes, 64),
        Err(DecodeError::InputSize)
    );
}

#[test]
fn from_be_slice_not_word_sized() {
    let bytes = hx("112233445566778899aabbccddeeff");
    let n = BoxedUint::from_be_slice(&bytes, 127).unwrap();
    assert_eq!(
        n.as_limbs(),
        &[Limb(0x8899aabbccddeeff), Limb(0x0011223344556677)]
    );
    assert_eq!(n.bits_precision(), 128);
}

#[test]
fn from_be_slice_non_multiple_precision() {
    let bytes = hx("0f112233445566778899aabbccddeeff");
    assert_eq!(
        BoxedUint::from_be_slice(&bytes, 121),
        Err(DecodeError::Precision)
    );
}

#[test]
fn from_be_slice_vartime() {
    let bytes = hx(
        "111111111111111111111111111111111111111111111111111111111111111111111111111111111111111111111111111111111111111111111111111111111111111111111111111111111111111F"
    );
    let uint = BoxedUint::from_be_slice_vartime(&bytes);
    assert_eq!(&*uint.to_be_bytes_trimmed_vartime(), bytes.as_slice());
}

#[test]
fn from_le_slice_eq() {
    let bytes = hx("ffeeddccbbaa99887766554433221100");
    let n = BoxedUint::from_le_slice(&bytes, 128).unwrap();
    assert_eq!(
        n.as_limbs(),
        &[Limb(0x8899aabbccddeeff), Limb(0x0011223344556677)]
    );
}

#[test]
fn from_le_slice_short() {
    let bytes = hx("ffeeddccbbaa99887766554433221100");
    let n = BoxedUint::from_le_slice(&bytes, 256).unwrap();
    assert_eq!(
        n.as_limbs(),
        &[
            Limb(0x8899aabbccddeeff),
            Limb(0x0011223344556677),
            Limb(0),
            Limb(0)
        ]
    );
}

#[test]
fn from_le_slice_too_long() {
    let bytes = hx("ffeeddccbbaa99887766554433221100");
    assert_eq!(
        BoxedUint::from_be_slice(&bytes, 64),
        Err(DecodeError::InputSize)
    );
}

#[test]
fn from_le_slice_not_word_sized() {
    let bytes = hx("ffeeddccbbaa998877665544332211");
    let n = BoxedUint::from_le_slice(&bytes, 127).unwrap();
    assert_eq!(
        n.as_limbs(),
        &[Limb(0x8899aabbccddeeff), Limb(0x0011223344556677)]
    );
    assert_eq!(n.bits_precision(), 128);
}

#[test]
fn from_le_slice_non_multiple_precision() {
    let bytes = hx("ffeeddccbbaa998877665544332211f0");
    assert_eq!(
        BoxedUint::from_le_slice(&bytes, 121),
        Err(DecodeError::Precision)
    );
}

#[test]
fn from_le_slice_vartime() {
    let bytes = hx(
        "111111111111111111111111111111111111111111111111111111111111111111111111111111111111111111111111111111111111111111111111111111111111111111111111111111111111111F"
    );
    let uint = BoxedUint::from_le_slice_vartime(&bytes);
    assert_eq!(&*uint.to_le_bytes_trimmed_vartime(), bytes.as_slice());
}

#[test]
fn to_be_bytes() {
    let bytes = hx("00112233445566778899aabbccddeeff");
    let n = BoxedUint::from_be_slice(&bytes, 128).unwrap();
    assert_eq!(bytes.as_slice(), &*n.to_be_bytes());
}

#[test]
fn to_be_bytes_trimmed_vartime() {
    let bytes = hx("ff112233445566778899aabbccddeeff");
    let n = BoxedUint::from_be_slice(&bytes, 128).unwrap();
    assert_eq!(&bytes, &*n.to_be_bytes_trimmed_vartime());

    let bytes = hx("00112233445566778899aabbccddeeff");
    let n = BoxedUint::from_be_slice(&bytes, 128).unwrap();
    assert_eq!(&bytes.as_slice()[1..], &*n.to_be_bytes_trimmed_vartime());

    let bytes: &[u8] = b"";
    let n = BoxedUint::from_be_slice(bytes, 128).unwrap();
    assert_eq!(
        hx("00000000000000000000000000000000"),
        n.to_be_bytes().as_slice()
    );
    assert_eq!(bytes, n.to_be_bytes_trimmed_vartime().as_slice());

    let bytes = hx("00012233445566778899aabbccddeeff");
    let n = BoxedUint::from_be_slice(&bytes, 128).unwrap();
    assert_eq!(&bytes.as_slice()[1..], &*n.to_be_bytes_trimmed_vartime());

    let bytes = hx("00000000000000000000000000000001");
    let n = BoxedUint::from_be_slice(&bytes, 128).unwrap();
    assert_eq!(bytes, n.to_be_bytes().as_slice());
    assert_eq!(&bytes.as_slice()[15..], &*n.to_be_bytes_trimmed_vartime());
}

#[test]
fn to_le_bytes() {
    let bytes = hx("ffeeddccbbaa99887766554433221100");
    let n = BoxedUint::from_le_slice(&bytes, 128).unwrap();
    assert_eq!(bytes.as_slice(), &*n.to_le_bytes());
}

#[test]
fn to_le_bytes_trimmed_vartime() {
    let bytes = hx("ffeeddccbbaa998877665544332211ff");
    let n = BoxedUint::from_le_slice(&bytes, 128).unwrap();
    assert_eq!(bytes.as_slice(), &*n.to_le_bytes_trimmed_vartime());

    let bytes = hx("ffeeddccbbaa99887766554433221100");
    let n = BoxedUint::from_le_slice(&bytes, 128).unwrap();
    assert_eq!(&bytes.as_slice()[..15], &*n.to_le_bytes_trimmed_vartime());

    let bytes = hx("ff000000000000000000000000000000");
    let n = BoxedUint::from_le_slice(&bytes, 128).unwrap();
    assert_eq!(&bytes.as_slice()[..1], &*n.to_le_bytes_trimmed_vartime());

    let bytes = hx("01000000000000000000000000000000");
    let n = BoxedUint::from_le_slice(&bytes, 128).unwrap();
    assert_eq!(&bytes.as_slice()[..1], &*n.to_le_bytes_trimmed_vartime());

    let bytes = hx("00000000000000000000000000000000");
    let n = BoxedUint::from_le_slice(&bytes, 128).unwrap();
    assert_eq!(b"", &*n.to_le_bytes_trimmed_vartime());
}

#[test]
fn from_str_radix_invalid() {
    assert_eq!(
        BoxedUint::from_str_radix_vartime("?", 10,),
        Err(DecodeError::InvalidDigit)
    );
    assert_eq!(
        BoxedUint::from_str_radix_with_precision_vartime(
            "ffffffffffffffff_ffffffffffffffff_f",
            16,
            128
        ),
        Err(DecodeError::InputSize)
    );
    assert_eq!(
        BoxedUint::from_str_radix_with_precision_vartime("1111111111111111", 2, 10),
        Err(DecodeError::Precision)
    );
}

#[test]
fn from_str_radix_10() {
    let dec = "+340_282_366_920_938_463_463_374_607_431_768_211_455";
    let res = BoxedUint::from_str_radix_vartime(dec, 10).expect("error decoding");
    assert_eq!(res, BoxedUint::max(128));
}

#[test]
fn from_str_radix_16() {
    let hex = "fedcba9876543210fedcba9876543210";
    let res = BoxedUint::from_str_radix_vartime(hex, 16).expect("error decoding");
    assert_eq!(hex, res.to_string_radix_vartime(16));
}

#[test]
fn encode_radix_round_trip() {
    let values = [
        "0",
        "1",
        "2",
        "35",
        "36",
        "37",
        "18446744073709551615",
        "18446744073709551616",
        "340282366920938463463374607431768211455",
        "340282366920938463463374607431768211456",
        "99340282366920938463463374607431768211455781",
    ];
    for dec in values {
        let uint = BoxedUint::from_str_radix_vartime(dec, 10).expect("decoding error");
        for radix in 2..=36 {
            let enc = uint.to_string_radix_vartime(radix);
            let res = BoxedUint::from_str_radix_vartime(&enc, radix).expect("decoding error");
            assert_eq!(res, uint, "round trip failure: radix {radix} encoded as {enc}");
        }
    }
}

#[test]
fn byte_round_trips() {
    let bytes = hx("0123456789abcdef1122334455667788");
    let n = BoxedUint::from_be_slice(&bytes, 128).unwrap();
    assert_eq!(bytes.as_slice(), &*n.to_be_bytes());
    let n = BoxedUint::from_le_slice(&bytes, 128).unwrap();
    assert_eq!(bytes.as_slice(), &*n.to_le_bytes());
}

#[test]
fn precision_rounds_up() {
    let n = BoxedUint::from_be_slice(&[0x7f], 13).unwrap();
    assert_eq!(n.bits_precision(), 64);
    assert_eq!(n.as_limbs(), &[Limb(0x7f)]);
    let empty: &[u8] = &[];
    let z = BoxedUint::from_be_slice(empty, 0).unwrap();
    assert_eq!(z.bits_precision(), 0);
    assert_eq!(z.as_limbs(), &[] as &[Limb]);
}

#[test]
fn from_be_hex_invalid_characters() {
    let good = "00112233445566778899aabbccddeeff";
    assert!(bool::from(BoxedUint::from_be_hex(good, 128).is_some()));
    for pos in [0, 1, 15, 30, 31] {
        let mut s = good.as_bytes().to_vec();
        s[pos] = b'g';
        let s = String::from_utf8(s).unwrap();
        let res = BoxedUint::from_be_hex(&s, 128);
        assert!(bool::from(res.is_none()), "position {pos} accepted");
    }
}

#[test]
fn from_be_hex_matches_from_be_slice() {
    let hex = "00112233445566778899aabbccddeeff";
    let a = BoxedUint::from_be_hex(hex, 128).unwrap();
    let b = BoxedUint::from_be_slice(&hx(hex), 128).unwrap();
    assert_eq!(a.as_limbs(), b.as_limbs());
}

#[test]
fn from_str_radix_non_ascii() {
    assert_eq!(
        BoxedUint::from_str_radix_vartime("12\u{00e9}4", 10),
        Err(DecodeError::InvalidDigit)
    );
}

#[test]
fn bits_and_leading_zeros() {
    let n = BoxedUint::from_be_slice(&hx("00000000000000010000000000000000"), 128).unwrap();
    assert_eq!(n.bits(), 65);
    assert_eq!(n.leading_zeros(), 63);
    let z = BoxedUint::zero_with_precision(128);
    assert_eq!(z.bits(), 0);
    assert_eq!(z.leading_zeros(), 128);
}

#[test]
fn max_value() {
    let m = BoxedUint::max(128);
    assert_eq!(
        m.as_limbs(),
        &[Limb(0xffffffffffffffff), Limb(0xffffffffffffffff)]
    );
    let m = BoxedUint::max(100);
    assert_eq!(m.as_limbs(), &[Limb(0xffffffffffffffff), Limb(0xfffffffff)]);
    assert_eq!(m.bits(), 100);
}

#[test]
fn to_string_radix_zero_and_small() {
    let z = BoxedUint::zero_with_precision(64);
    assert_eq!(z.to_string_radix_vartime(10), "0");
    let n = BoxedUint::from_be_slice(&[35], 8).unwrap();
    assert_eq!(n.to_string_radix_vartime(36), "z");
    assert_eq!(n.to_string_radix_vartime(2), "100011");
    assert_eq!(n.to_string_radix_vartime(10), "35");
}

#[test]
fn from_str_radix_underscores_and_plus() {
    let a = BoxedUint::from_str_radix_vartime("+1_0_0", 10).unwrap();
    let b = BoxedUint::from_str_radix_vartime("100", 10).unwrap();
    assert_eq!(a, b);
    assert_eq!(a.to_string_radix_vartime(10), "100");
}
