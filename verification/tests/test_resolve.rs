//! Tests of how scalars are resolved.
use deser_yaml::model::{Atom, FloatRepr};
use deser_yaml::resolve::{
    decode_binary, parse_core_int, parse_timestamp, resolve_plain, resolve_standard, StandardTag, Version,
};

fn chars(s: &str) -> Vec<char> {
    s.chars().collect()
}

fn decode_base64(s: &str) -> Option<Vec<u8>> {
    decode_binary(&chars(s))
}

fn core_int(s: &str) -> Option<Atom> {
    parse_core_int(&chars(s))
}

fn float_of(f: &FloatRepr) -> f64 {
    match f {
        FloatRepr::Decimal(t) => t.iter().collect::<String>().parse().unwrap(),
        FloatRepr::BigInt { negative, radix, digits } => {
            let text: String = digits.iter().collect();
            assert_eq!(*radix, 10);
            let m: f64 = text.parse().unwrap();
            if *negative {
                -m
            } else {
                m
            }
        }
        other => panic!("unexpected float {:?}", other),
    }
}

#[test]
fn test_parse_timestamp() {
    let ts = |s: &str| parse_timestamp(s).map(|x| x.to_string());
    assert_eq!(ts("2002-12-14").as_deref(), Some("2002-12-14"));
    assert_eq!(ts("2001-12-14t21:59:43.10-05:00").as_deref(), Some("2001-12-14T21:59:43.1-05:00"));
    assert_eq!(ts("2001-12-14 21:59:43.10 -5").as_deref(), Some("2001-12-14T21:59:43.1-05:00"));
    assert_eq!(ts("2001-12-15 2:59:43.10").as_deref(), Some("2001-12-15T02:59:43.1Z"));
    assert_eq!(ts("2001-12-15T02:59:43.1Z").as_deref(), Some("2001-12-15T02:59:43.1Z"));
    assert_eq!(ts("2001-1-5 02:59:43").as_deref(), Some("2001-01-05T02:59:43Z"));
    for invalid in [
        "",
        "2002-12-1",
        "2002-13-14",
        "2002-12-14 ",
        "2002-12-14T25:00:00",
        "2002-12-14T02:59",
        "2002-12-14T02:59:43X",
        "2002-12-14T02:59:43+24",
        "02002-12-14",
    ] {
        assert!(parse_timestamp(invalid).is_none(), "{}", invalid);
    }
}

#[test]
fn test_base64() {
    assert_eq!(decode_base64("").unwrap(), b"");
    assert_eq!(decode_base64("Zg==").unwrap(), b"f");
    assert_eq!(decode_base64("Zm8=").unwrap(), b"fo");
    assert_eq!(decode_base64("Zm9v").unwrap(), b"foo");
    assert_eq!(decode_base64("Zm9v\n YmFy").unwrap(), b"foobar");
    assert_eq!(decode_base64("Zm9"), None);
    assert_eq!(decode_base64("Z=9v"), None);
    assert_eq!(decode_base64("Zm9!"), None);
}

#[test]
fn test_big_ints() {
    assert_eq!(core_int("18446744073709551616"), Some(Atom::U128(18446744073709551616u128)));
    assert_eq!(core_int("-9223372036854775808"), Some(Atom::I64(i64::MIN)));
    assert_eq!(core_int("-9223372036854775809"), Some(Atom::I128(-9223372036854775809i128)));
    assert_eq!(core_int("-170141183460469231731687303715884105728"), Some(Atom::I128(i128::MIN)));
    match core_int("1000000000000000000000000000000000000000000") {
        Some(Atom::Float(f)) => assert_eq!(float_of(&f), 1e42),
        other => panic!("unexpected {:?}", other),
    }
}

#[test]
fn test_resolution() {
    let plain = |s: &str, v: Version| resolve_plain(chars(s), v);
    assert_eq!(plain("", Version::V1_2), Atom::Null);
    assert_eq!(plain("~", Version::V1_2), Atom::Null);
    assert_eq!(plain("True", Version::V1_2), Atom::Bool(true));
    assert_eq!(plain("yes", Version::V1_2), Atom::Str(chars("yes")));
    assert_eq!(plain("yes", Version::V1_1), Atom::Bool(true));
    assert_eq!(plain("0o52", Version::V1_2), Atom::U64(42));
    assert_eq!(plain("0o52", Version::V1_1), Atom::Str(chars("0o52")));
    assert_eq!(plain("0777", Version::V1_1), Atom::U64(511));
    assert_eq!(plain("0777", Version::V1_2), Atom::U64(777));
    assert_eq!(plain("1:30", Version::V1_1), Atom::U64(90));
    assert_eq!(plain("-1_000", Version::V1_1), Atom::I64(-1000));
    assert_eq!(plain("0b101", Version::V1_1), Atom::U64(5));
    assert_eq!(plain("0x2a", Version::V1_2), Atom::U64(42));
    assert_eq!(plain("-.inf", Version::V1_2), Atom::Float(FloatRepr::Infinity { negative: true }));
    assert_eq!(plain(".NaN", Version::V1_1), Atom::Float(FloatRepr::NaN));
    match plain("1e3", Version::V1_2) {
        Atom::Float(f) => assert_eq!(float_of(&f), 1000.0),
        other => panic!("unexpected {:?}", other),
    }
    // YAML 1.1 floats need a dot
    assert_eq!(plain("1e3", Version::V1_1), Atom::Str(chars("1e3")));
    match plain("1_0.5", Version::V1_1) {
        Atom::Float(f) => assert_eq!(float_of(&f), 10.5),
        other => panic!("unexpected {:?}", other),
    }
    match plain("1:30.5", Version::V1_1) {
        Atom::Float(FloatRepr::Sexagesimal { negative, head, digits, fraction }) => {
            assert!(!negative);
            assert_eq!(head, chars("1"));
            assert_eq!(digits, vec![30]);
            assert_eq!(fraction, chars("5"));
        }
        other => panic!("unexpected {:?}", other),
    }
    assert_eq!(
        resolve_standard(StandardTag::Int, chars("abc"), Version::V1_2),
        Err("invalid !!int value")
    );
    assert_eq!(
        resolve_standard(StandardTag::Binary, chars("aGVsbG8="), Version::V1_2),
        Ok(Atom::Bytes(b"hello".to_vec()))
    );
    assert_eq!(
        resolve_standard(StandardTag::Float, chars("42"), Version::V1_2),
        Ok(Atom::Float(FloatRepr::Decimal(chars("42"))))
    );
    assert_eq!(
        resolve_standard(StandardTag::Sequence, chars("x"), Version::V1_2),
        Err("tag does not apply to scalars")
    );
}
