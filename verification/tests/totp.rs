use taynik::models::totp::{
    base32_decode, hmac_sha1, sha1, totp_at, totp_at_time, totp_from_clock, totp_now,
};

fn hex(bytes: &[u8]) -> String {
    bytes.iter().map(|b| format!("{b:02x}")).collect()
}

#[test]
fn sha1_known_vectors() {
    assert_eq!(hex(&sha1(b"abc")), "a9993e364706816aba3e25717850c26c9cd0d89d");
    assert_eq!(hex(&sha1(b"")), "da39a3ee5e6b4b0d3255bfef95601890afd80709");
}

#[test]
fn sha1_two_blocks() {
    // RFC 3174 test 2: 56 bytes, so the padding spills into a second block.
    let msg = b"abcdbcdecdefdefgefghfghighijhijkijkljklmklmnlmnomnopnopq";
    assert_eq!(hex(&sha1(msg)), "84983e441c3bd26ebaae4aa1f95129e5e54670f1");
}

#[test]
fn hmac_sha1_rfc2202() {
    // RFC 2202, test case 1: the expected value is the RFC's. Note that
    // b6173186b571428e4cb35515a4a88f6b4b0b1d2b is not the HMAC-SHA1 of these
    // inputs.
    let mac = hmac_sha1(&[0x0b; 20], b"Hi There");
    assert_eq!(hex(&mac), "b617318655057264e28bc0b6fb378c8ef146be00");
}

#[test]
fn hmac_sha1_long_key() {
    // RFC 2202 test 6: an 80-byte key is hashed first.
    let mac = hmac_sha1(&[0xaa; 80], b"Test Using Larger Than Block-Size Key - Hash Key First");
    assert_eq!(hex(&mac), "aa4ae5e15272d00e95705637ce8a3b55ed402112");
}

#[test]
fn base32_roundtrip() {
    assert_eq!(base32_decode("GEZDGNBVGY3TQOJQ").unwrap(), b"1234567890");
    assert_eq!(base32_decode("gezd gnbv gy3t qojq=").unwrap(), b"1234567890");
    assert!(base32_decode("abc1").is_err());
}

#[test]
fn base32_error_names_the_character() {
    assert_eq!(base32_decode("AB1C").unwrap_err(), "недопустимый символ base32: 1");
    assert_eq!(base32_decode("").unwrap(), Vec::<u8>::new());
    assert_eq!(base32_decode("\tMY======").unwrap(), b"f");
}

#[test]
fn totp_rfc6238_vector_t59() {
    let key = base32_decode("GEZDGNBVGY3TQOJQGEZDGNBVGY3TQOJQ").unwrap();
    assert_eq!(totp_at(&key, 1).unwrap(), "287082");
    // RFC 6238, T = 1111111109 (SHA-1 code 07081804, six digits kept). Note
    // that 969429 is not this counter's code but the RFC 4226 HOTP value for
    // counter 3, checked below.
    assert_eq!(totp_at(&key, 0x00000000023523EC).unwrap(), "081804");
    // RFC 4226 HOTP value for counter 3.
    assert_eq!(totp_at(&key, 3).unwrap(), "969429");
}

#[test]
fn totp_keeps_leading_zeros() {
    // RFC 6238, T = 1111111109: the code 07081804 keeps its zero in 6 digits.
    let key = b"12345678901234567890";
    assert_eq!(totp_at(key, 1111111109 / 30).unwrap(), "081804");
}

#[test]
fn totp_empty_secret() {
    assert_eq!(totp_at(&[], 5).unwrap_err(), "пустой TOTP-секрет");
}

#[test]
fn totp_at_time_counts_down() {
    let key = b"12345678901234567890";
    let (code, left) = totp_at_time(key, 59).unwrap();
    assert_eq!(code, "287082");
    assert_eq!(left, 1);
    let (_, left) = totp_at_time(key, 60).unwrap();
    assert_eq!(left, 30);
}

#[test]
fn totp_now_gives_six_digits() {
    let (code, left) = totp_now("GEZDGNBVGY3TQOJQGEZDGNBVGY3TQOJQ").unwrap();
    assert_eq!(code.len(), 6);
    assert!(code.chars().all(|c| c.is_ascii_digit()));
    assert!((1..=30).contains(&left));
    assert!(totp_now("0").is_err());
    assert_eq!(totp_now("====").unwrap_err(), "пустой TOTP-секрет");
}

#[test]
fn hmac_key_is_normalised_to_one_block() {
    let long = [0xaa; 80];
    let data = b"some data";
    assert_eq!(hmac_sha1(&long, data), hmac_sha1(&sha1(&long), data));
    let short = [7u8; 10];
    let mut padded = short.to_vec();
    padded.resize(64, 0);
    assert_eq!(hmac_sha1(&short, data), hmac_sha1(&padded, data));
}

#[test]
fn base32_rfc4648_vectors_decode_back() {
    let cases: [(&str, &str); 7] = [
        ("", ""),
        ("MY======", "f"),
        ("MZXQ====", "fo"),
        ("MZXW6===", "foo"),
        ("MZXW6YQ=", "foob"),
        ("MZXW6YTB", "fooba"),
        ("MZXW6YTBOI======", "foobar"),
    ];
    for (text, bytes) in cases {
        assert_eq!(base32_decode(text).unwrap(), bytes.as_bytes());
        let unpadded = text.trim_end_matches('=');
        assert_eq!(base32_decode(unpadded).unwrap(), bytes.as_bytes());
        let spaced: String = text.to_lowercase().chars().flat_map(|c| [c, ' ', '\t']).collect();
        assert_eq!(base32_decode(&spaced).unwrap(), bytes.as_bytes());
    }
}

#[test]
fn totp_from_clock_orders_its_errors() {
    assert_eq!(totp_from_clock("", Ok(59)).unwrap_err(), "пустой TOTP-секрет");
    assert_eq!(totp_from_clock("", Err("clock".into())).unwrap_err(), "clock");
    assert_eq!(totp_from_clock("1", Err("clock".into())).unwrap_err(), "недопустимый символ base32: 1");
    assert_eq!(
        totp_from_clock("GEZDGNBVGY3TQOJQGEZDGNBVGY3TQOJQ", Ok(59)).unwrap(),
        ("287082".to_string(), 1)
    );
}
