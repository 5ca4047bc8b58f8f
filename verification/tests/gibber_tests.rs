use gibbercode::alphabet::{consonant_alphabet, vowel_alphabet};
use gibbercode::radix::{decode_with_alphabet, encode_with_alphabet};
use gibbercode::{decode, encode};

#[test]
fn encode_trivial() {
    let alphabet = b"abcdefghijklmnop";
    assert_eq!(encode_with_alphabet(31415926, alphabet), "ghofpnb");
}

#[test]
fn encode_full() {
    assert_eq!(encode(23242151, 123), "nurlyt-nyq");
}

#[test]
fn decode_full() {
    assert_eq!(decode("nurlyt-nyq"), (23242151, 123));
}

#[test]
fn round_trip_representative_values() {
    let cases: [(u128, u128); 12] = [
        (0, 0),
        (1, 0),
        (0, 1),
        (1, 1),
        (16, 4),
        (17, 5),
        (289, 25),
        (23242151, 123),
        (u128::MAX, 0),
        (0, u128::MAX),
        (u128::MAX, u128::MAX),
        (u128::MAX - 1, u128::MAX / 7),
    ];
    for (major, minor) in cases {
        assert_eq!(decode(&encode(major, minor)), (major, minor));
    }
}

#[test]
fn radix_codec_round_trip() {
    let alphabet = b"abcdefghijklmnop";
    for value in [0u128, 1, 15, 16, 255, 31415926, u128::MAX] {
        let encoded = encode_with_alphabet(value, alphabet);
        assert_eq!(decode_with_alphabet(encoded.as_bytes(), alphabet), value);
    }
    assert_eq!(encode_with_alphabet(0, alphabet), "");
}

#[test]
fn decode_ignores_noise() {
    let clean = decode("nurlyt-nyq");
    assert_eq!(decode("  nurlyt-nyq  "), clean);
    assert_eq!(decode("n#u*r?l.y,t N-Y-Q nyq"), clean);
    assert_eq!(decode("__nu_rl_yt__ny_q__"), clean);
    assert_eq!(decode("nurlyt-nyq!!! 0123456789"), clean);
    assert_eq!(decode("hneuhrhlyt-hnyeq"), clean);
}

#[test]
fn boundary_values() {
    assert_eq!(encode(0, 0), "");
    assert_eq!(decode(""), (0, 0));
    assert_eq!(decode("----"), (0, 0));
}

#[test]
fn pad_characters_carry_no_value() {
    assert_eq!(decode("heh"), (0, 0));
    assert_eq!(decode("hehheh"), (0, 0));
}

#[test]
fn zero_digits_wrap_to_zero() {
    // 'k' and 'a' are the zero digits of their alphabets; any run of them,
    // however long, still decodes to zero.
    let long = "k".repeat(100) + &"a".repeat(100);
    assert_eq!(decode(&long), (0, 0));
}

#[test]
fn alphabets_are_disjoint() {
    let cons = consonant_alphabet();
    let vows = vowel_alphabet();
    for c in cons.iter() {
        assert!(!vows.contains(c));
        assert_ne!(*c, b'h');
        assert_ne!(*c, b'e');
    }
    for v in vows.iter() {
        assert_ne!(*v, b'h');
        assert_ne!(*v, b'e');
    }
}

#[test]
fn single_value_encodings() {
    // one consonant digit: "k" is index 0, padded into a single syllable
    assert_eq!(encode(1, 0), "geh");
    assert_eq!(decode("geh"), (1, 0));
    // one vowel digit
    assert_eq!(encode(0, 1), "hih");
    assert_eq!(decode("hih"), (0, 1));
}
