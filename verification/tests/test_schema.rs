//! Scalar resolution under the YAML 1.2 core schema and YAML 1.1, for
//! inputs of the YAML schema tests (written out inline), with and without
//! a `%YAML` directive that overrides the configured version.
use deser_yaml::de::DeserializerConfig;
use deser_yaml::model::{Atom, DataEvent, FloatRepr};
use deser_yaml::resolve::Version;

#[derive(Debug, Clone)]
enum Value {
    Null,
    Bool(bool),
    Int(i128),
    Float(f64),
    Str(String),
}

impl PartialEq for Value {
    fn eq(&self, other: &Value) -> bool {
        match (self, other) {
            (Value::Null, Value::Null) => true,
            (Value::Bool(a), Value::Bool(b)) => a == b,
            (Value::Int(a), Value::Int(b)) => a == b,
            (Value::Float(a), Value::Float(b)) => a == b || (a.is_nan() && b.is_nan()),
            (Value::Str(a), Value::Str(b)) => a == b,
            _ => false,
        }
    }
}

fn text(t: &[char]) -> String {
    t.iter().collect()
}

fn float_of(f: &FloatRepr) -> f64 {
    let signed = |negative: bool, v: f64| if negative { -v } else { v };
    match f {
        FloatRepr::Decimal(t) => text(t).parse().unwrap(),
        FloatRepr::Infinity { negative } => signed(*negative, f64::INFINITY),
        FloatRepr::NaN => f64::NAN,
        FloatRepr::Int { negative, magnitude } => signed(*negative, *magnitude as f64),
        FloatRepr::BigInt { negative, digits, .. } => signed(*negative, text(digits).parse().unwrap()),
        FloatRepr::Sexagesimal { negative, head, digits, fraction } => {
            let mut v: f64 = if head.is_empty() { 0.0 } else { text(head).parse().unwrap() };
            for d in digits {
                v = v * 60.0 + *d as f64;
            }
            if !fraction.is_empty() {
                let frac: f64 = format!("0.{}", text(fraction)).parse().unwrap();
                v += frac;
            }
            signed(*negative, v)
        }
    }
}

fn load(yaml: &str, version: Version) -> Result<Value, String> {
    let events = DeserializerConfig::new().version(version).from_str(yaml).map_err(|e| e.to_string())?;
    assert_eq!(events.len(), 1, "{:?}", yaml);
    Ok(match &events[0].event {
        DataEvent::Atom(Atom::Null) => Value::Null,
        DataEvent::Atom(Atom::Bool(b)) => Value::Bool(*b),
        DataEvent::Atom(Atom::U64(v)) => Value::Int(*v as i128),
        DataEvent::Atom(Atom::I64(v)) => Value::Int(*v as i128),
        DataEvent::Atom(Atom::Float(f)) => Value::Float(float_of(f)),
        DataEvent::Atom(Atom::Str(t)) => Value::Str(text(t)),
        other => panic!("unexpected {:?} for {:?}", other, yaml),
    })
}

fn s(v: &str) -> Option<Value> {
    Some(Value::Str(v.into()))
}

fn i(v: i128) -> Option<Value> {
    Some(Value::Int(v))
}

fn f(v: f64) -> Option<Value> {
    Some(Value::Float(v))
}

fn b(v: bool) -> Option<Value> {
    Some(Value::Bool(v))
}

const NULL: Option<Value> = Some(Value::Null);

/// The inputs of the core schema and how they load (`None`: an error).
fn core_cases() -> Vec<(&'static str, Option<Value>)> {
    vec![
        ("null", NULL),
        ("Null", NULL),
        ("NULL", NULL),
        ("~", NULL),
        ("#empty", NULL),
        ("nULL", s("nULL")),
        ("true", b(true)),
        ("True", b(true)),
        ("TRUE", b(true)),
        ("false", b(false)),
        ("False", b(false)),
        ("FALSE", b(false)),
        ("tRUE", s("tRUE")),
        ("yes", s("yes")),
        ("No", s("No")),
        ("on", s("on")),
        ("0", i(0)),
        ("-0", i(0)),
        ("+0", i(0)),
        ("12", i(12)),
        ("+12", i(12)),
        ("-12", i(-12)),
        ("0777", i(777)),
        ("0o7", i(7)),
        ("0o10", i(8)),
        ("0x3A", i(58)),
        ("0xa", i(10)),
        ("0b1", s("0b1")),
        ("1_000", s("1_000")),
        ("+0x3A", s("+0x3A")),
        ("0o9", s("0o9")),
        ("1:30", s("1:30")),
        ("1.", f(1.0)),
        ("1.5", f(1.5)),
        ("+1.5", f(1.5)),
        ("-1.5", f(-1.5)),
        (".5", f(0.5)),
        ("-.5", f(-0.5)),
        ("1e3", f(1000.0)),
        ("1E3", f(1000.0)),
        ("1.5e-2", f(0.015)),
        (".", s(".")),
        (".inf", f(f64::INFINITY)),
        (".Inf", f(f64::INFINITY)),
        (".INF", f(f64::INFINITY)),
        ("+.inf", f(f64::INFINITY)),
        ("-.inf", f(f64::NEG_INFINITY)),
        (".iNf", s(".iNf")),
        (".nan", f(f64::NAN)),
        (".NaN", f(f64::NAN)),
        (".NAN", f(f64::NAN)),
        ("!!str true", s("true")),
        ("!!bool FaLSE", None),
        ("!!bool yes", None),
        ("!!int 1_000", None),
        ("!!int 0b1", None),
        ("!!float abc", None),
        ("!!null foo", None),
    ]
}

/// The inputs of YAML 1.1 and how they load (`None`: an error).
fn yaml11_cases() -> Vec<(&'static str, Option<Value>)> {
    vec![
        ("null", NULL),
        ("Null", NULL),
        ("NULL", NULL),
        ("~", NULL),
        ("#empty", NULL),
        ("yes", b(true)),
        ("Yes", b(true)),
        ("YES", b(true)),
        ("no", b(false)),
        ("No", b(false)),
        ("NO", b(false)),
        ("true", b(true)),
        ("True", b(true)),
        ("false", b(false)),
        ("on", b(true)),
        ("On", b(true)),
        ("ON", b(true)),
        ("off", b(false)),
        ("Off", b(false)),
        ("OFF", b(false)),
        ("yEs", s("yEs")),
        ("0", i(0)),
        ("12", i(12)),
        ("+12", i(12)),
        ("-12", i(-12)),
        ("0b101", i(5)),
        ("-0b101", i(-5)),
        ("0777", i(511)),
        ("0o777", s("0o777")),
        ("0x3A", i(58)),
        ("1_000", i(1000)),
        ("1:30", i(90)),
        ("190:20:30", i(685230)),
        ("1.5", f(1.5)),
        ("1_000.5", f(1000.5)),
        ("6.8523015e+5", f(685230.15)),
        ("190:20:30.15", f(685230.15)),
        ("3e3", s("3e3")),
        (".inf", f(f64::INFINITY)),
        ("-.inf", f(f64::NEG_INFINITY)),
        (".NaN", f(f64::NAN)),
        ("!!str yes", s("yes")),
        ("!!bool FaLSE", None),
        ("!!int 0o777", None),
        ("!!float abc", None),
    ]
}

fn run_schema(cases: Vec<(&'static str, Option<Value>)>, version: Version, directive: &str) {
    let mut failures = Vec::new();
    for (input, expected) in cases {
        let yaml = format!("{}{}", directive, input.replace("#empty", ""));
        match (load(&yaml, version), expected) {
            (Ok(value), Some(expected)) if value == expected => {}
            (Err(_), None) => {}
            (rv, expected) => failures.push(format!("{:?}: expected {:?}, got {:?}", yaml, expected, rv)),
        }
    }
    assert!(failures.is_empty(), "{} failures:\n{}", failures.len(), failures.join("\n"));
}

#[test]
fn test_core_schema() {
    run_schema(core_cases(), Version::V1_2, "");
}

#[test]
fn test_core_schema_with_directive() {
    run_schema(core_cases(), Version::V1_1, "%YAML 1.2\n--- ");
}

#[test]
fn test_yaml11() {
    run_schema(yaml11_cases(), Version::V1_1, "");
}

#[test]
fn test_yaml11_with_directive() {
    run_schema(yaml11_cases(), Version::V1_2, "%YAML 1.1\n--- ");
}
