//! Tests of the encodings of bytes.
use deser_yaml::encoding::{decode_base64, decode_hex, BytesEncoding, BytesFormat};

fn encode(e: BytesEncoding, bytes: &[u8]) -> String {
    let mut rv = String::new();
    e.encode(bytes, &mut rv);
    rv
}

fn check_base64_encode() {
    // RFC 4648 section 10
    for (bytes, expected) in [
        (&b""[..], ""),
        (b"f", "Zg=="),
        (b"fo", "Zm8="),
        (b"foo", "Zm9v"),
        (b"foob", "Zm9vYg=="),
        (b"fooba", "Zm9vYmE="),
        (b"foobar", "Zm9vYmFy"),
    ] {
        assert_eq!(encode(BytesEncoding::Base64, bytes), expected);
        assert_eq!(
            encode(BytesEncoding::Base64NoPad, bytes),
            expected.trim_end_matches('=')
        );
        assert_eq!(decode_base64(expected).unwrap(), bytes);
        assert_eq!(decode_base64(expected.trim_end_matches('=')).unwrap(), bytes);
    }
    assert_eq!(encode(BytesEncoding::Base64, b"\xfb\xff"), "+/8=");
    assert_eq!(encode(BytesEncoding::Base64Url, b"\xfb\xff"), "-_8=");
    assert_eq!(encode(BytesEncoding::Base64UrlNoPad, b"\xfb\xff"), "-_8");
}

fn check_base64_decode() {
    assert_eq!(decode_base64("+/8=").unwrap(), b"\xfb\xff");
    assert_eq!(decode_base64("-_8").unwrap(), b"\xfb\xff");
    assert_eq!(decode_base64("+_8").unwrap(), b"\xfb\xff");
    for invalid in [
        "Z", "Zg=", "Zg===", "Zm9v=", "Zm9v==", "Z===", "Zh==", "Zm9=", "Zm 9v", "Zm9v\n", "=", "==",
        "Zg==Zg==",
    ] {
        assert!(decode_base64(invalid).is_err(), "{:?}", invalid);
    }
}

fn check_hex() {
    assert_eq!(encode(BytesEncoding::Hex, b"\x00\x1f\xab"), "001fab");
    assert_eq!(encode(BytesEncoding::HexUpper, b"\x00\x1f\xab"), "001FAB");
    assert_eq!(decode_hex("001fAB").unwrap(), b"\x00\x1f\xab");
    assert_eq!(decode_hex("").unwrap(), b"");
    assert!(decode_hex("0").is_err());
    assert!(decode_hex("0g").is_err());
}

fn check_format() {
    assert_eq!(BytesFormat::default(), BytesFormat::base64());
    assert_eq!(BytesFormat::encoded(BytesEncoding::Base64), BytesFormat::base64());
    assert_ne!(BytesFormat::encoded(BytesEncoding::Hex), BytesFormat::base64());
    assert_ne!(BytesFormat::seq(), BytesFormat::base64());
    assert_eq!(BytesFormat::seq().debug_text(), "BytesFormat(\"seq\")");
    assert_eq!(BytesFormat::seq().decode("AQ==").unwrap(), b"\x01");
}

fn check_data_encoding() {
    assert_eq!(encode(BytesEncoding::Base32, b"foo"), "MZXW6===");
    assert_eq!(encode(BytesEncoding::Base32NoPad, b"foo"), "MZXW6");
    assert_eq!(BytesEncoding::Base32Hex.decode("CPNMU===").unwrap(), b"foo");
    assert_eq!(BytesEncoding::Base32HexNoPad.decode("CPNMU").unwrap(), b"foo");
    assert_eq!(
        BytesEncoding::Base32.decode("x").unwrap_err().to_string(),
        "Unexpected: invalid base32 string: invalid length at 0"
    );
}

#[test]
fn encodings_test_base64_encode() {
    check_base64_encode();
}

#[test]
fn encodings_test_base64_decode() {
    check_base64_decode();
}

#[test]
fn encodings_test_hex() {
    check_hex();
}

#[test]
fn encodings_test_data_encoding() {
    check_data_encoding();
}

#[test]
fn mod_test_format() {
    check_format();
}

#[test]
fn bytes_test_base64_encode() {
    check_base64_encode();
}

#[test]
fn bytes_test_base64_decode() {
    check_base64_decode();
}

#[test]
fn bytes_test_hex() {
    check_hex();
}

#[test]
fn bytes_test_format() {
    check_format();
}

#[test]
fn bytes_test_data_encoding() {
    check_data_encoding();
}

/// Decoding gives back what was encoded, in every encoding.
#[test]
fn test_roundtrip_all_encodings() {
    let bytes: Vec<u8> = (0..=255u8).rev().collect();
    for e in [
        BytesEncoding::Base64,
        BytesEncoding::Base64NoPad,
        BytesEncoding::Base64Url,
        BytesEncoding::Base64UrlNoPad,
        BytesEncoding::Hex,
        BytesEncoding::HexUpper,
        BytesEncoding::Base32,
        BytesEncoding::Base32NoPad,
        BytesEncoding::Base32Hex,
        BytesEncoding::Base32HexNoPad,
    ] {
        for len in 0..8 {
            let text = encode(e, &bytes[..len]);
            assert!(text.is_ascii());
            assert_eq!(e.decode(&text).unwrap(), &bytes[..len], "{:?}", e);
        }
        assert_eq!(BytesFormat::encoded(e).name(), e.name());
    }
    assert_eq!(BytesFormat::seq().encode(b"\x01"), None);
    assert_eq!(BytesFormat::encoded(BytesEncoding::Hex).encode(b"\x01\xff").as_deref(), Some("01ff"));
    assert_eq!(BytesEncoding::Base32.decode("!!!!!!!!").unwrap_err().to_string(), "Unexpected: invalid base32 string: invalid symbol at 0");
}
