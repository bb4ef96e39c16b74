//! Serializer tests: values are written as YAML and read back.
use deser_yaml::de::{from_str, DeEvent, DeserializerConfig};
use deser_yaml::emit::Emitter;
use deser_yaml::encoding::{BytesEncoding, BytesFormat};
use deser_yaml::model::{Atom, DataEvent, Date, Datetime, FloatRepr, Offset, Time};
use deser_yaml::resolve::{parse_timestamp, Version};
use deser_yaml::ser::{
    to_string, MultilineStyle, NullStyle, QuoteStyle, SerEvent, Serializer, SerializerConfig,
};

/// A dynamic value with everything the deserializer reports.
#[derive(Debug, Clone)]
enum Value {
    Null,
    Bool(bool),
    Int(i128),
    Float(f64),
    Str(String),
    Bytes(Vec<u8>),
    /// Bytes that request a format for formats without native bytes.
    BytesAs(Vec<u8>, BytesFormat),
    Datetime(Datetime),
    List(Vec<Value>),
    Dict(Vec<(Value, Value)>),
    Tagged(String, Box<Value>),
}

impl PartialEq for Value {
    fn eq(&self, other: &Value) -> bool {
        match (self, other) {
            (Value::Null, Value::Null) => true,
            (Value::Bool(a), Value::Bool(b)) => a == b,
            (Value::Int(a), Value::Int(b)) => a == b,
            (Value::Float(a), Value::Float(b)) => a == b || (a.is_nan() && b.is_nan()),
            (Value::Str(a), Value::Str(b)) => a == b,
            (Value::Bytes(a), Value::Bytes(b)) => a == b,
            (Value::BytesAs(a, _), Value::Bytes(b)) | (Value::Bytes(a), Value::BytesAs(b, _)) => a == b,
            (Value::BytesAs(a, _), Value::BytesAs(b, _)) => a == b,
            (Value::Datetime(a), Value::Datetime(b)) => a == b,
            (Value::List(a), Value::List(b)) => a == b,
            (Value::Dict(a), Value::Dict(b)) => a == b,
            (Value::Tagged(a, x), Value::Tagged(b, y)) => a == b && x == y,
            _ => false,
        }
    }
}

fn s(v: &str) -> Value {
    Value::Str(v.into())
}

fn num(v: i128) -> Value {
    Value::Int(v)
}

fn atom_event(atom: Atom) -> SerEvent {
    SerEvent { event: DataEvent::Atom(atom), tag: None, bytes_format: None }
}

fn push_events(v: &Value, tag: Option<String>, out: &mut Vec<SerEvent>) {
    match v {
        Value::Null => out.push(atom_event(Atom::Null)),
        Value::Bool(b) => out.push(atom_event(Atom::Bool(*b))),
        Value::Int(i) => out.push(atom_event(if *i >= 0 && *i <= u64::MAX as i128 {
            Atom::U64(*i as u64)
        } else if *i >= i64::MIN as i128 && *i <= i64::MAX as i128 {
            Atom::I64(*i as i64)
        } else {
            Atom::I128(*i)
        })),
        Value::Float(f) => out.push(atom_event(Atom::Float(if f.is_nan() {
            FloatRepr::NaN
        } else if f.is_infinite() {
            FloatRepr::Infinity { negative: *f < 0.0 }
        } else {
            FloatRepr::Decimal(format!("{:?}", f).chars().collect())
        }))),
        Value::Str(t) => out.push(atom_event(Atom::Str(t.chars().collect()))),
        Value::Bytes(b) => out.push(atom_event(Atom::Bytes(b.clone()))),
        Value::BytesAs(b, f) => out.push(SerEvent {
            event: DataEvent::Atom(Atom::Bytes(b.clone())),
            tag: None,
            bytes_format: Some(*f),
        }),
        Value::Datetime(d) => out.push(atom_event(Atom::Datetime(*d))),
        Value::List(items) => {
            out.push(SerEvent::plain(DataEvent::SeqStart));
            for item in items {
                push_events(item, None, out);
            }
            out.push(SerEvent::plain(DataEvent::SeqEnd));
        }
        Value::Dict(entries) => {
            out.push(SerEvent::plain(DataEvent::MapStart));
            for (k, v) in entries {
                push_events(k, None, out);
                push_events(v, None, out);
            }
            out.push(SerEvent::plain(DataEvent::MapEnd));
        }
        Value::Tagged(t, inner) => {
            let start = out.len();
            push_events(inner, None, out);
            out[start].tag = Some(t.clone());
            return;
        }
    }
    if let Some(t) = tag {
        let last = out.len() - 1;
        out[last].tag = Some(t);
    }
}

fn events(v: &Value) -> Vec<SerEvent> {
    let mut out = Vec::new();
    push_events(v, None, &mut out);
    out
}

fn float_of(f: &FloatRepr) -> f64 {
    match f {
        FloatRepr::Decimal(t) => t.iter().collect::<String>().parse().unwrap(),
        FloatRepr::Infinity { negative } => {
            if *negative {
                f64::NEG_INFINITY
            } else {
                f64::INFINITY
            }
        }
        FloatRepr::NaN => f64::NAN,
        FloatRepr::Int { negative, magnitude } => {
            let m = *magnitude as f64;
            if *negative {
                -m
            } else {
                m
            }
        }
        FloatRepr::BigInt { negative, radix, digits } => {
            let mut m = 0f64;
            for c in digits {
                m = m * *radix as f64 + c.to_digit(*radix).unwrap() as f64;
            }
            if *negative {
                -m
            } else {
                m
            }
        }
        FloatRepr::Sexagesimal { negative, head, digits, fraction } => {
            let mut m: f64 = head.iter().collect::<String>().parse().unwrap();
            for d in digits {
                m = m * 60.0 + *d as f64;
            }
            let f: f64 = format!("0.{}", fraction.iter().collect::<String>()).parse().unwrap();
            m += f;
            if *negative {
                -m
            } else {
                m
            }
        }
    }
}

fn atom_value(a: &Atom) -> Value {
    match a {
        Atom::Null => Value::Null,
        Atom::Bool(b) => Value::Bool(*b),
        Atom::U64(v) => Value::Int(*v as i128),
        Atom::I64(v) => Value::Int(*v as i128),
        Atom::U128(v) => Value::Int(*v as i128),
        Atom::I128(v) => Value::Int(*v),
        Atom::Float(f) => Value::Float(float_of(f)),
        Atom::Char(c) => Value::Str(c.to_string()),
        Atom::Str(t) => Value::Str(t.iter().collect()),
        Atom::Bytes(b) => Value::Bytes(b.clone()),
        Atom::Datetime(d) => Value::Datetime(*d),
    }
}

fn read_value(events: &[DeEvent], pos: &mut usize) -> Value {
    let e = &events[*pos];
    *pos += 1;
    let value = match &e.event {
        DataEvent::Atom(a) => atom_value(a),
        DataEvent::SeqStart => {
            let mut items = Vec::new();
            while events[*pos].event != DataEvent::SeqEnd {
                items.push(read_value(events, pos));
            }
            *pos += 1;
            Value::List(items)
        }
        DataEvent::MapStart => {
            let mut entries = Vec::new();
            while events[*pos].event != DataEvent::MapEnd {
                let k = read_value(events, pos);
                let v = read_value(events, pos);
                entries.push((k, v));
            }
            *pos += 1;
            Value::Dict(entries)
        }
        _ => panic!("unexpected end"),
    };
    match &e.tag {
        Some(t) => Value::Tagged(t.iter().collect(), Box::new(value)),
        None => value,
    }
}

fn value_of(events: &[DeEvent]) -> Value {
    let mut pos = 0;
    let v = read_value(events, &mut pos);
    assert_eq!(pos, events.len());
    v
}

fn read(yaml: &str) -> Value {
    value_of(&from_str(yaml).unwrap())
}

fn read_with(config: &DeserializerConfig, yaml: &str) -> Result<Value, String> {
    config
        .from_str(yaml)
        .map(|events| value_of(&events))
        .map_err(|e| e.to_string())
}

fn ser(v: &Value) -> String {
    to_string(&events(v)).unwrap()
}

fn ser_with(config: &SerializerConfig, v: &Value) -> String {
    config.to_string(&events(v)).unwrap()
}

fn strings(items: &[&str]) -> Value {
    Value::List(items.iter().map(|x| s(x)).collect())
}

fn point(x: i128, y: i128) -> Value {
    Value::Dict(vec![(s("x"), num(x)), (s("y"), num(y))])
}

fn service() -> Value {
    Value::Dict(vec![
        (s("image"), s("nginx")),
        (s("ports"), Value::List(vec![num(80), num(443)])),
        (s("command"), Value::Null),
        (
            s("labels"),
            Value::Dict(vec![(s("env"), s("prod")), (s("tier"), s("web"))]),
        ),
        (s("origin"), point(1, 2)),
        (s("points"), Value::List(vec![point(1, 2), point(3, 4)])),
        (s("volumes"), Value::List(vec![])),
    ])
}

#[test]
fn test_block_layout() {
    let yaml = ser(&service());
    assert_eq!(
        yaml,
        "\
image: nginx
ports:
  - 80
  - 443
command: null
labels:
  env: prod
  tier: web
origin:
  x: 1
  'y': 2
points:
  - x: 1
    'y': 2
  - x: 3
    'y': 4
volumes: []
"
    );
    assert_eq!(read(&yaml), service());
}

#[test]
fn test_indentless_sequences() {
    let config = SerializerConfig::new()
        .indent_sequences(false)
        .indent(4)
        .compat(Version::V1_2);
    let yaml = ser_with(&config, &service());
    assert_eq!(
        yaml,
        "\
image: nginx
ports:
- 80
- 443
command: null
labels:
    env: prod
    tier: web
origin:
    x: 1
    y: 2
points:
- x: 1
  y: 2
- x: 3
  y: 4
volumes: []
"
    );
    assert_eq!(read(&yaml), service());
}

#[test]
fn test_nested_collections() {
    let value = Value::List(vec![
        Value::List(vec![Value::List(vec![num(1), num(2)]), Value::List(vec![])]),
        Value::List(vec![Value::List(vec![num(3)])]),
    ]);
    assert_eq!(ser(&value), "- - - 1\n    - 2\n  - []\n- - - 3\n");
    let value = Value::List(vec![
        Value::Dict(vec![(s("a"), Value::List(vec![num(1)]))]),
        Value::Dict(vec![]),
    ]);
    assert_eq!(ser(&value), "- a:\n    - 1\n- {}\n");
    assert_eq!(ser(&Value::List(vec![])), "[]\n");
    assert_eq!(ser(&Value::Dict(vec![])), "{}\n");
}

#[test]
fn test_keys() {
    let long = "x".repeat(1100);
    let value = Value::Dict(vec![
        (num(1), s("int")),
        (Value::Bool(true), s("bool")),
        (Value::Null, s("null")),
        (s("a: b"), s("quoted")),
        (s("line\nbreak"), s("multi")),
        (Value::List(vec![num(1), num(2)]), s("seq")),
        (Value::Dict(vec![]), s("empty")),
        (s(&long), s("long")),
    ]);
    let yaml = ser(&value);
    assert_eq!(
        yaml,
        format!(
            "1: int\ntrue: bool\nnull: 'null'\n'a: b': quoted\n\"line\\nbreak\": multi\n\
             ? - 1\n  - 2\n: seq\n? {{}}\n: empty\n? {}\n: long\n",
            long
        )
    );
    assert_eq!(read(&yaml), value);

    // tags survive reading and writing again
    let input = "a: !foo {x: 1}\nb: !bar [1, !baz 2]\n";
    assert_eq!(
        ser(&read(input)),
        // the custom tag makes the scalar a string, it's quoted
        "a: !foo\n  x: 1\nb: !bar\n  - 1\n  - !baz '2'\n"
    );
}

#[test]
fn test_null_styles() {
    let value = Value::List(vec![Value::Null, Value::Dict(vec![(s("a"), Value::Null)])]);
    assert_eq!(ser(&value), "- null\n- a: null\n");
    let tilde = SerializerConfig::new().null_style(NullStyle::Tilde);
    assert_eq!(ser_with(&tilde, &value), "- ~\n- a: ~\n");
    let empty = SerializerConfig::new().null_style(NullStyle::Empty);
    assert_eq!(ser_with(&empty, &value), "-\n- a:\n");
    assert_eq!(ser_with(&empty, &Value::Null), "null\n");
    assert_eq!(read(&ser_with(&empty, &value)), value);
}

#[test]
fn test_numbers() {
    let atoms = vec![
        Atom::U64(1),
        Atom::I64(-1),
        Atom::Float(FloatRepr::Decimal(format!("{:?}", 1.5f64).chars().collect())),
        Atom::Float(FloatRepr::Decimal(format!("{:?}", 1e20f64).chars().collect())),
        Atom::Float(FloatRepr::Infinity { negative: false }),
        Atom::U128(u128::MAX),
        Atom::I128(i128::MIN),
    ];
    let mut evs = vec![SerEvent::plain(DataEvent::SeqStart)];
    evs.extend(atoms.iter().cloned().map(atom_event));
    evs.push(SerEvent::plain(DataEvent::SeqEnd));
    let yaml = to_string(&evs).unwrap();
    assert_eq!(
        yaml,
        format!("- 1\n- -1\n- 1.5\n- 1.0e+20\n- .inf\n- {}\n- {}\n", u128::MAX, i128::MIN)
    );
    let back = from_str(&yaml).unwrap();
    assert_eq!(back[1].event, DataEvent::Atom(Atom::U64(1)));
    assert_eq!(back[2].event, DataEvent::Atom(Atom::I64(-1)));
    assert_eq!(atom_value(match &back[3].event { DataEvent::Atom(a) => a, _ => panic!() }), Value::Float(1.5));
    assert_eq!(atom_value(match &back[4].event { DataEvent::Atom(a) => a, _ => panic!() }), Value::Float(1e20));
    assert_eq!(atom_value(match &back[5].event { DataEvent::Atom(a) => a, _ => panic!() }), Value::Float(f64::INFINITY));
    assert_eq!(back[6].event, DataEvent::Atom(Atom::U128(u128::MAX)));
    assert_eq!(back[7].event, DataEvent::Atom(Atom::I128(i128::MIN)));
    // floats read back exactly with both versions
    let mut state = 0x2545f4914f6cdd1du64;
    for _ in 0..1000 {
        state ^= state << 13;
        state ^= state >> 7;
        state ^= state << 17;
        let value = f64::from_bits(state);
        let yaml = ser(&Value::Float(value));
        for version in [Version::V1_1, Version::V1_2] {
            let parsed = read_with(&DeserializerConfig::new().version(version), &yaml).unwrap();
            assert!(parsed == Value::Float(value), "{} {:?}", yaml, version);
        }
    }
    // f32 is written as the f64 it widens to
    let yaml = ser(&Value::Float(0.1f32 as f64));
    match read(&yaml) {
        Value::Float(f) => assert_eq!(f as f32, 0.1f32),
        other => panic!("not a float {:?}", other),
    }
}

#[test]
fn test_quoting() {
    let value = strings(&["plain", "yes", "true", "1.5", "0777", "a: b", "", " x", "it's", "tab\t"]);
    assert_eq!(
        ser(&value),
        "- plain\n- 'yes'\n- 'true'\n- '1.5'\n- '0777'\n- 'a: b'\n- ''\n- ' x'\n- it's\n- \"tab\\t\"\n"
    );
    let v1_2 = SerializerConfig::new().compat(Version::V1_2);
    assert_eq!(
        ser_with(&v1_2, &strings(&["yes", "1_000", "0777"])),
        "- yes\n- 1_000\n- '0777'\n"
    );
    let double = SerializerConfig::new().quote_style(QuoteStyle::Double);
    assert_eq!(ser_with(&double, &strings(&["plain", "yes"])), "- plain\n- \"yes\"\n");
    let all = SerializerConfig::new().quote_all(true);
    assert_eq!(ser_with(&all, &strings(&["plain", "a\nb"])), "- 'plain'\n- \"a\\nb\"\n");
    assert_eq!(to_string(&[atom_event(Atom::Char('x'))]).unwrap(), "x\n");
    assert_eq!(ser(&s("\u{7}\u{2028}")), "\"\\a\\L\"\n");
}

#[test]
fn test_block_scalars() {
    assert_eq!(ser(&s("a\nb\n")), "|\n  a\n  b\n");
    assert_eq!(ser(&s("a\nb")), "|-\n  a\n  b\n");
    assert_eq!(ser(&s("a\n\n")), "|+\n  a\n\n");
    assert_eq!(ser(&s("\n")), "|+\n\n");
    // leading spaces need an indentation indicator
    assert_eq!(ser(&s("  a\nb")), "|2-\n    a\n  b\n");
    assert_eq!(ser(&Value::Dict(vec![(s("k"), s("  a\nb\n"))])), "k: |2\n    a\n  b\n");
    assert_eq!(ser(&Value::List(vec![s("  a\nb")])), "- |2-\n    a\n  b\n");
    // carriage returns cannot be in block scalars
    assert_eq!(ser(&s("a\r\nb")), "\"a\\r\\nb\"\n");
    let quoted = SerializerConfig::new().multiline(MultilineStyle::Quoted);
    assert_eq!(ser_with(&quoted, &s("a\nb")), "\"a\\nb\"\n");

    // everything reads back
    for value in ["a\nb", "a\n\n\n", "\n\n", " \n", "  a\n b\n", "a\n  \n", "#a\n- b\n", "a\n---\n"] {
        for config in [
            SerializerConfig::new(),
            SerializerConfig::new().indent(4),
            SerializerConfig::new().indent_sequences(false).indent(1),
        ] {
            for doc in [
                s(value),
                Value::List(vec![s(value), s("x")]),
                Value::Dict(vec![(s("k"), s(value)), (s("z"), s("x"))]),
                Value::List(vec![Value::Dict(vec![(s("k"), s(value))])]),
            ] {
                let yaml = ser_with(&config, &doc);
                assert_eq!(read(&yaml), doc, "{:?}\n{}", value, yaml);
            }
        }
    }
}

/// Reads bytes the way a byte buffer does: native bytes, strings in the
/// format and sequences of integers.
fn bytes_of(v: &Value, format: &BytesFormat) -> Vec<u8> {
    match v {
        Value::Bytes(b) => b.clone(),
        Value::Str(t) => format.decode(t).unwrap(),
        Value::List(items) => items
            .iter()
            .map(|x| match x {
                Value::Int(i) => *i as u8,
                other => panic!("not a byte {:?}", other),
            })
            .collect(),
        other => panic!("not bytes {:?}", other),
    }
}

/// Reads a blob (data, digest as hex, legacy as sequence).
fn blob_of(v: &Value, format: &BytesFormat) -> (Vec<u8>, Vec<u8>, Vec<u8>) {
    let hex = BytesFormat::encoded(BytesEncoding::Hex);
    match v {
        Value::Dict(entries) => {
            let get = |key: &str| entries.iter().find(|(k, _)| *k == s(key)).map(|(_, v)| v).unwrap();
            (
                bytes_of(get("data"), format),
                bytes_of(get("digest"), &hex),
                bytes_of(get("legacy"), format),
            )
        }
        other => panic!("not a blob {:?}", other),
    }
}

#[test]
fn test_bytes() {
    let blob = Value::Dict(vec![
        (s("data"), Value::Bytes(vec![1, 255])),
        (s("digest"), Value::BytesAs(vec![2, 3], BytesFormat::encoded(BytesEncoding::Hex))),
        (s("legacy"), Value::BytesAs(vec![4], BytesFormat::seq())),
    ]);
    let expected = (vec![1u8, 255], vec![2u8, 3], vec![4u8]);
    // native bytes by default, also for fallbacks
    let yaml = ser(&blob);
    assert_eq!(yaml, "data: !!binary Af8=\ndigest: !!binary AgM=\nlegacy: !!binary BA==\n");
    assert_eq!(blob_of(&read(&yaml), &BytesFormat::base64()), expected);
    assert_eq!(ser(&Value::Bytes(vec![])), "!!binary \"\"\n");
    assert_eq!(bytes_of(&read("!!binary \"\""), &BytesFormat::base64()), b"");
    // long values are wrapped
    let long = (0..=255u8).collect::<Vec<_>>();
    let yaml = ser(&Value::Bytes(long.clone()));
    assert!(yaml.starts_with("!!binary |\n  AAECAwQF"), "{}", yaml);
    assert!(yaml.lines().all(|line| line.len() <= 78), "{}", yaml);
    assert_eq!(bytes_of(&read(&yaml), &BytesFormat::base64()), long);

    // without native bytes the fallbacks and the configured format apply
    let hex = SerializerConfig::new()
        .binary(false)
        .bytes(BytesFormat::encoded(BytesEncoding::Hex));
    let yaml = ser_with(&hex, &blob);
    assert_eq!(yaml, "data: 01ff\ndigest: '0203'\nlegacy:\n  - 4\n");
    let hex_de = DeserializerConfig::new().bytes(BytesFormat::encoded(BytesEncoding::Hex));
    assert_eq!(blob_of(&read_with(&hex_de, &yaml).unwrap(), &hex_de.bytes), expected);
    let seq = SerializerConfig::new().binary(false).bytes(BytesFormat::seq());
    assert_eq!(ser_with(&seq, &Value::Bytes(vec![1, 2])), "- 1\n- 2\n");
}

/// Reads a date / time from a timestamp or a string.
fn datetime_of(v: &Value) -> Datetime {
    match v {
        Value::Datetime(d) => *d,
        Value::Str(t) => {
            let mut d = parse_timestamp(t).unwrap();
            // without offset a date-time is local
            if d.time.is_some() && !t.ends_with('Z') && !t[10..].contains(['+', '-']) {
                d.offset = None;
            }
            d
        }
        other => panic!("not a date {:?}", other),
    }
}

#[test]
fn test_datetimes() {
    let date = parse_timestamp("2001-12-14").unwrap();
    let datetime = parse_timestamp("2001-12-14T21:59:43.1-05:00").unwrap();
    let local = Datetime {
        date: Some(Date { year: 2001, month: 12, day: 14 }),
        time: Some(Time { hour: 21, minute: 59, second: 43, nanosecond: 0 }),
        offset: None,
    };
    assert_eq!(datetime.offset, Some(Offset::Custom { minutes: -300 }));
    let value = Value::List(vec![Value::Datetime(date), Value::Datetime(datetime), Value::Datetime(local)]);
    let yaml = ser(&value);
    assert_eq!(yaml, "- 2001-12-14\n- 2001-12-14T21:59:43.1-05:00\n- '2001-12-14T21:59:43'\n");
    match read(&yaml) {
        Value::List(items) => {
            let parsed: Vec<Datetime> = items.iter().map(datetime_of).collect();
            assert_eq!(parsed, vec![date, datetime, local]);
        }
        other => panic!("unexpected {:?}", other),
    }
    let tagged = SerializerConfig::new().timestamp_tag(true);
    assert_eq!(ser_with(&tagged, &Value::Datetime(date)), "!!timestamp 2001-12-14\n");
    assert_eq!(datetime_of(&read("!!timestamp 2001-12-14")), date);
}

/// Strings built from pieces that have a meaning in YAML must read back as
/// the same string as value, key and sequence item with YAML 1.1 and 1.2
/// readers.
#[test]
fn test_quoting_fuzz() {
    let pieces = [
        "", "a", " ", "-", "?", ":", ",", "[", "]", "{", "}", "#", "&", "*", "!", "|", ">", "'", "\"", "%",
        "@", "`", "\t", "\n", "\r", "\\", ": ", " #", "---", "...", "<<", "=", "~", "null", "Null", "true",
        "yes", "No", "on", "OFF", "y", "n", "0", "1", "-1", "+1", "0x1F", "0o17", "0b10", "017", "1_0",
        "1:30", "1.5", ".5", "1e3", "1.0e+3", ".inf", "-.Inf", ".NaN", "2001-12-14", "2001-12-14 21:59:43",
        "\u{85}", "\u{a0}", "\u{2028}", "\u{feff}", "\u{1}", "\u{7f}", "é", "😀",
    ];
    let mut strings = Vec::new();
    for a in pieces {
        for b in ["", "a", " ", ":", "#", "\n", "1"] {
            strings.push(format!("{}{}", a, b));
            strings.push(format!("{}{}", b, a));
        }
    }
    let configs = [
        SerializerConfig::new(),
        SerializerConfig::new().compat(Version::V1_2),
        SerializerConfig::new().quote_style(QuoteStyle::Double),
        SerializerConfig::new().multiline(MultilineStyle::Quoted),
    ];
    for (index, config) in configs.iter().enumerate() {
        for text in &strings {
            let doc = Value::List(vec![s(text), Value::Dict(vec![(s(text), s(text))])]);
            let yaml = ser_with(config, &doc);
            let versions: &[Version] = if index == 1 {
                &[Version::V1_2]
            } else {
                &[Version::V1_1, Version::V1_2]
            };
            for &version in versions {
                let parsed = read_with(&DeserializerConfig::new().version(version).merge_keys(false), &yaml);
                assert_eq!(parsed.as_ref().ok(), Some(&doc), "{:?} {:?}\n{}", text, version, yaml);
            }
        }
    }
}

#[test]
fn test_ser_test_documents() {
    let mut serializer = Serializer::new(SerializerConfig::new());
    serializer.serialize(&events(&s("a\n\n"))).unwrap();
    serializer.serialize(&events(&Value::List(vec![num(1)]))).unwrap();
    serializer.serialize(&events(&Value::Null)).unwrap();
    assert!(serializer.serialize(&[SerEvent::plain(DataEvent::SeqEnd)]).is_err());
    assert_eq!(serializer.output(), "|+\n  a\n\n---\n- 1\n---\nnull\n");
    let yaml = serializer.finish();
    assert_eq!(yaml, "|+\n  a\n\n---\n- 1\n---\nnull\n");
    let mut de = deser_yaml::de::Deserializer::from_str(&yaml);
    let mut docs = Vec::new();
    while !de.is_end() {
        docs.push(value_of(&de.next_document().unwrap()));
    }
    assert_eq!(docs, [s("a\n\n"), Value::List(vec![num(1)]), Value::Null]);
    let start = SerializerConfig::new().document_start(true);
    assert_eq!(ser_with(&start, &num(1)), "---\n1\n");
    let directive = SerializerConfig::new().version_directive(true);
    assert_eq!(ser_with(&directive, &num(1)), "%YAML 1.2\n---\n1\n");
    // unbalanced events are rejected
    assert!(to_string(&[SerEvent::plain(DataEvent::SeqStart)]).is_err());
    assert!(to_string(&[]).is_err());
    assert!(to_string(&[atom_event(Atom::Null), atom_event(Atom::Null)]).is_err());
    let empty = SerializerConfig::new().null_style(NullStyle::Empty);
    assert_eq!(ser_with(&empty, &Value::List(vec![Value::Null])), "-\n");
    assert_eq!(ser_with(&empty, &Value::Null), "null\n");
    let tilde = SerializerConfig::new().null_style(NullStyle::Tilde);
    assert_eq!(ser_with(&tilde, &Value::Dict(vec![(s("a"), Value::Null)])), "a: ~\n");
}

#[test]
fn test_ser_test_tags() {
    let value = Value::List(vec![
        Value::Tagged("!color".into(), Box::new(s("red"))),
        Value::Tagged("!point".into(), Box::new(Value::Dict(vec![(s("x"), num(1))]))),
        Value::Tagged("!empty".into(), Box::new(Value::List(vec![]))),
        Value::Tagged("tag:yaml.org,2002:set".into(), Box::new(Value::Dict(vec![(s("a"), Value::Null)]))),
        Value::Tagged("tag:example.com,2000:thing".into(), Box::new(s("x"))),
        s("plain"),
    ]);
    let yaml = ser(&value);
    assert_eq!(
        yaml,
        "- !color red\n- !point\n  x: 1\n- !empty []\n- !!set\n  a: null\n- !<tag:example.com,2000:thing> x\n- plain\n"
    );
    assert_eq!(read(&yaml), value);
}

#[test]
fn test_words_read_back() {
    let value = Value::List(vec![
        Value::Null,
        Value::Bool(true),
        Value::Bool(false),
        Value::Float(f64::NAN),
        Value::Float(f64::INFINITY),
        Value::Float(f64::NEG_INFINITY),
        num(0),
        num(-7),
        Value::Float(-0.0),
        Value::Float(1e-7),
    ]);
    let yaml = ser(&value);
    assert_eq!(yaml, "- null\n- true\n- false\n- .nan\n- .inf\n- -.inf\n- 0\n- -7\n- -0.0\n- 1.0e-7\n");
    for version in [Version::V1_1, Version::V1_2] {
        assert_eq!(read_with(&DeserializerConfig::new().version(version), &yaml).unwrap(), value);
    }
}

/// A flat sequence of atoms is written one item per line after `- `.
#[test]
fn test_flat_sequence_text() {
    let events = vec![
        SerEvent::plain(DataEvent::SeqStart),
        atom_event(Atom::U64(1)),
        atom_event(Atom::Str("a b".chars().collect())),
        atom_event(Atom::Bool(false)),
        atom_event(Atom::Str("yes".chars().collect())),
        SerEvent::plain(DataEvent::SeqEnd),
    ];
    assert_eq!(to_string(&events).unwrap(), "- 1\n- a b\n- false\n- 'yes'\n");
    let empty = vec![SerEvent::plain(DataEvent::SeqStart), SerEvent::plain(DataEvent::SeqEnd)];
    assert_eq!(to_string(&empty).unwrap(), "[]\n");
}

/// A string written plain reads back as the same string.
#[test]
fn test_plain_string_round_trip() {
    for text in ["hello", "a b c", "x:y", "key#no comment"] {
        let written = to_string(&[atom_event(Atom::Str(text.chars().collect()))]).unwrap();
        assert_eq!(written, format!("{}\n", text));
        let events = from_str(&written).unwrap();
        assert_eq!(events.len(), 1);
        assert_eq!(events[0].tag, None);
        assert_eq!(events[0].event, DataEvent::Atom(Atom::Str(text.chars().collect())));
    }
}

/// A flat mapping of atoms is written one entry per line as `key: value`.
#[test]
fn test_flat_mapping_text() {
    let events = vec![
        SerEvent::plain(DataEvent::MapStart),
        atom_event(Atom::Str("a".chars().collect())),
        atom_event(Atom::U64(1)),
        atom_event(Atom::Str("b c".chars().collect())),
        atom_event(Atom::Str("no".chars().collect())),
        atom_event(Atom::U64(7)),
        atom_event(Atom::Bool(true)),
        SerEvent::plain(DataEvent::MapEnd),
    ];
    assert_eq!(to_string(&events).unwrap(), "a: 1\nb c: 'no'\n7: true\n");
    let empty = vec![SerEvent::plain(DataEvent::MapStart), SerEvent::plain(DataEvent::MapEnd)];
    assert_eq!(to_string(&empty).unwrap(), "{}\n");
}

/// A second value and an end without a start are refused.
#[test]
fn test_emitter_event_errors() {
    let config = SerializerConfig::new();
    let mut emitter = Emitter::new(&config, String::new());
    let end = emitter.event(&SerEvent::plain(DataEvent::SeqEnd)).unwrap_err();
    assert_eq!(end.message, "unexpected end event");
    emitter.event(&atom_event(Atom::U64(1))).unwrap();
    let second = emitter.event(&atom_event(Atom::U64(2))).unwrap_err();
    assert_eq!(second.message, "a document can only contain one value");
    let end = emitter.event(&SerEvent::plain(DataEvent::MapEnd)).unwrap_err();
    assert_eq!(end.message, "unexpected end event");
}
