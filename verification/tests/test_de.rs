//! Deserializer tests: the events of documents.
use deser_yaml::de::{from_slice, from_str, DeEvent, Deserializer, DeserializerConfig, EventSink};
use deser_yaml::error::{Error, ErrorKind};
use deser_yaml::layer::Limits;
use deser_yaml::model::{Atom, DataEvent, FloatRepr};
use deser_yaml::resolve::Version;
use deser_yaml::tag::Tagged;

fn atom(yaml: &str) -> Atom {
    let events = from_str(yaml).unwrap();
    assert_eq!(events.len(), 1, "{:?}", events);
    match &events[0].event {
        DataEvent::Atom(a) => a.clone(),
        other => panic!("not an atom {:?}", other),
    }
}

fn string(yaml: &str) -> Result<String, String> {
    match atom(yaml) {
        Atom::Str(t) => Ok(t.iter().collect()),
        other => Err(format!("unexpected {:?}, expected a string", other)),
    }
}

fn float(yaml: &str) -> f64 {
    match atom(yaml) {
        Atom::Float(FloatRepr::Decimal(t)) => t.iter().collect::<String>().parse().unwrap(),
        Atom::Float(FloatRepr::Infinity { negative }) => {
            if negative {
                f64::NEG_INFINITY
            } else {
                f64::INFINITY
            }
        }
        Atom::Float(FloatRepr::NaN) => f64::NAN,
        other => panic!("not a float {:?}", other),
    }
}

fn uint(yaml: &str) -> u128 {
    match atom(yaml) {
        Atom::U64(v) => v as u128,
        Atom::U128(v) => v,
        other => panic!("not an unsigned integer {:?}", other),
    }
}

fn sint(yaml: &str) -> i128 {
    match atom(yaml) {
        Atom::U64(v) => v as i128,
        Atom::I64(v) => v as i128,
        Atom::I128(v) => v,
        other => panic!("not an integer {:?}", other),
    }
}

#[test]
fn test_scalars() {
    assert_eq!(uint("42"), 42);
    assert_eq!(sint("-42"), -42);
    assert_eq!(uint("0x2a"), 42);
    assert_eq!(uint("0o52"), 42);
    assert_eq!(float("1e3"), 1000.0);
    assert_eq!(float("-.inf"), f64::NEG_INFINITY);
    assert!(float(".nan").is_nan());
    assert_eq!(atom("True"), Atom::Bool(true));
    assert_eq!(atom("null"), Atom::Null);
    assert_eq!(string("hello world").unwrap(), "hello world");
    assert_eq!(string("'42'").unwrap(), "42");
    assert_eq!(string("\"a\\tb\\u00e4\"").unwrap(), "a\tb\u{e4}");
    assert_eq!(string("|\n  a\n  b\n").unwrap(), "a\nb\n");
    assert_eq!(string(">-\n  a\n  b\n").unwrap(), "a b");
    // a plain scalar that looks like a number is a number
    assert!(string("42").is_err());
}

#[test]
fn test_wide_integers() {
    assert_eq!(uint("340282366920938463463374607431768211455"), u128::MAX);
    assert_eq!(sint("-170141183460469231731687303715884105728"), i128::MIN);
}

fn kinds(events: &[DeEvent]) -> String {
    let mut out = String::new();
    for e in events {
        match &e.event {
            DataEvent::Atom(Atom::Str(t)) => {
                out.push_str(&t.iter().collect::<String>());
                out.push(' ');
            }
            DataEvent::Atom(a) => out.push_str(&format!("{:?} ", a)),
            DataEvent::MapStart => out.push_str("{ "),
            DataEvent::MapEnd => out.push_str("} "),
            DataEvent::SeqStart => out.push_str("[ "),
            DataEvent::SeqEnd => out.push_str("] "),
        }
    }
    out
}

#[test]
fn test_aliases_and_merge_keys() {
    let events = from_str("a: &x [1, b]\nc: *x\n").unwrap();
    assert_eq!(kinds(&events), "{ a [ U64(1) b ] c [ U64(1) b ] } ");
    let events = from_str("- &a {x: 1, y: 2}\n- {x: 0, <<: *a, z: 3, y: 0}\n").unwrap();
    assert_eq!(kinds(&events), "[ { x U64(1) y U64(2) } { x U64(0) z U64(3) y U64(0) } ] ");
    let events = from_str("<<: [{a: 1}, {a: 2, b: 3}]\nc: 4\n").unwrap();
    assert_eq!(kinds(&events), "{ c U64(4) a U64(1) b U64(3) } ");
    let no_merge = DeserializerConfig::new().merge_keys(false);
    let events = no_merge.from_str("<<: {x: 1}").unwrap();
    assert_eq!(kinds(&events), "{ << { x U64(1) } } ");
    assert_eq!(
        from_str("- *a").unwrap_err().to_string(),
        "Unexpected: unknown anchor 'a' at line 1 column 3"
    );
    assert_eq!(
        from_str("&a [*a]").unwrap_err().to_string(),
        "Unexpected: recursive alias at line 1 column 5"
    );
    let limited = DeserializerConfig::new().alias_limit(3);
    assert_eq!(
        limited.from_str("a: &a [1, 2]\nb: [*a, *a]").unwrap_err().to_string(),
        "Unexpected: aliases expand to too many events"
    );
    assert!(from_str("<<: 1").is_err());
    let deep = DeserializerConfig::new().max_depth(3);
    assert_eq!(
        deep.from_str("[[[[1]]]]").unwrap_err().to_string(),
        "Unexpected: recursion limit exceeded at line 1 column 4"
    );
    assert!(deep.from_str("[[[1]]]").is_ok());
}

#[test]
fn test_document_stream() {
    let mut de = Deserializer::from_str("--- 1\n---\n- 2\n...\n--- 3\n");
    let mut docs = Vec::new();
    while !de.is_end() {
        docs.push(kinds(&de.next_document().unwrap()));
    }
    assert_eq!(docs, ["U64(1) ", "[ U64(2) ] ", "U64(3) "]);
    assert_eq!(de.next_document().unwrap_err().kind, deser_yaml::error::ErrorKind::EndOfFile);
    // errors only discard their document
    let mut de = Deserializer::from_str("--- [1, 2]\n--- !!int abc\n--- 3\n");
    assert!(de.next_document().is_ok());
    assert_eq!(
        de.next_document().unwrap_err().to_string(),
        "Unexpected: invalid !!int value at line 2 column 5"
    );
    assert_eq!(kinds(&de.next_document().unwrap()), "U64(3) ");
    assert_eq!(
        DeserializerConfig::new().from_str("--- 1\n--- 2\n").unwrap_err().to_string(),
        "Unexpected: expected a single document, found more"
    );
    assert_eq!(kinds(&from_str("# nothing").unwrap()), "Null ");
    let v11 = DeserializerConfig::new().version(Version::V1_1);
    assert_eq!(kinds(&v11.from_str("[yes, 0777, 1:30]").unwrap()), "[ Bool(true) U64(511) U64(90) ] ");
    assert_eq!(kinds(&from_str("%YAML 1.1\n--- yes").unwrap()), "Bool(true) ");
    let events = from_str("[!color red, !!str 1]").unwrap();
    assert_eq!(events[1].tag.as_ref().map(|t| t.iter().collect::<String>()).as_deref(), Some("!color"));
    assert_eq!(events[2].tag, None);
    assert!(events[0].compact);
    assert_eq!(
        deser_yaml::de::from_slice(b"a: \xff").unwrap_err().to_string(),
        "Unexpected: invalid UTF-8 at offset 3"
    );
}

/// A value of a document, with the tags that the deserializer reports.
#[derive(Debug, Clone)]
enum Value {
    Null,
    Bool(bool),
    Int(i128),
    Float(f64),
    Str(String),
    Bytes(Vec<u8>),
    Date(String),
    List(Vec<Value>),
    Dict(Vec<(Value, Value)>),
    Tagged(String, Box<Value>),
}

impl PartialEq for Value {
    fn eq(&self, other: &Value) -> bool {
        match (self, other) {
            (Value::Null, Value::Null) => true,
            (Value::Bool(a), Value::Bool(b)) => a == b,
            (Value::Int(a), Value::Int(b)) => a == b,
            (Value::Float(a), Value::Float(b)) => a == b || (a.is_nan() && b.is_nan()),
            (Value::Str(a), Value::Str(b)) => a == b,
            (Value::Bytes(a), Value::Bytes(b)) => a == b,
            (Value::Date(a), Value::Date(b)) => a == b,
            (Value::List(a), Value::List(b)) => a == b,
            (Value::Dict(a), Value::Dict(b)) => a == b,
            (Value::Tagged(a, x), Value::Tagged(b, y)) => a == b && x == y,
            _ => false,
        }
    }
}

impl From<&str> for Value {
    fn from(s: &str) -> Value {
        Value::Str(s.to_string())
    }
}

impl From<i64> for Value {
    fn from(v: i64) -> Value {
        Value::Int(v as i128)
    }
}

impl From<f64> for Value {
    fn from(v: f64) -> Value {
        Value::Float(v)
    }
}

impl From<bool> for Value {
    fn from(v: bool) -> Value {
        Value::Bool(v)
    }
}

impl From<()> for Value {
    fn from(_: ()) -> Value {
        Value::Null
    }
}

fn seq(items: Vec<Value>) -> Value {
    Value::List(items)
}

fn map(entries: Vec<(Value, Value)>) -> Value {
    Value::Dict(entries)
}

fn text(t: &[char]) -> String {
    t.iter().collect()
}

fn float_of(f: &FloatRepr) -> f64 {
    match f {
        FloatRepr::Decimal(t) => text(t).parse().unwrap(),
        FloatRepr::Infinity { negative: true } => f64::NEG_INFINITY,
        FloatRepr::Infinity { negative: false } => f64::INFINITY,
        FloatRepr::NaN => f64::NAN,
        FloatRepr::Int { negative, magnitude } => {
            if *negative {
                -(*magnitude as f64)
            } else {
                *magnitude as f64
            }
        }
        FloatRepr::BigInt { negative, digits, .. } => {
            let v: f64 = text(digits).parse().unwrap();
            if *negative {
                -v
            } else {
                v
            }
        }
        other => panic!("not a decimal float {:?}", other),
    }
}

fn atom_value(a: &Atom) -> Value {
    match a {
        Atom::Null => Value::Null,
        Atom::Bool(b) => Value::Bool(*b),
        Atom::U64(v) => Value::Int(*v as i128),
        Atom::I64(v) => Value::Int(*v as i128),
        Atom::U128(v) => Value::Int(*v as i128),
        Atom::I128(v) => Value::Int(*v),
        Atom::Float(f) => Value::Float(float_of(f)),
        Atom::Char(c) => Value::Str(c.to_string()),
        Atom::Str(t) => Value::Str(text(t)),
        Atom::Bytes(b) => Value::Bytes(b.clone()),
        Atom::Datetime(d) => Value::Date(d.to_string()),
    }
}

/// Builds the value that starts at the event `*i`.
fn build(events: &[DeEvent], i: &mut usize) -> Value {
    let e = &events[*i];
    *i += 1;
    let v = match &e.event {
        DataEvent::Atom(a) => atom_value(a),
        DataEvent::SeqStart => {
            let mut items = Vec::new();
            while events[*i].event != DataEvent::SeqEnd {
                items.push(build(events, i));
            }
            *i += 1;
            Value::List(items)
        }
        DataEvent::MapStart => {
            let mut entries = Vec::new();
            while events[*i].event != DataEvent::MapEnd {
                let k = build(events, i);
                let v = build(events, i);
                entries.push((k, v));
            }
            *i += 1;
            Value::Dict(entries)
        }
        other => panic!("unexpected {:?}", other),
    };
    match &e.tag {
        Some(t) => Value::Tagged(text(t), Box::new(v)),
        None => v,
    }
}

fn doc_value(events: &[DeEvent]) -> Value {
    let mut i = 0;
    let v = build(events, &mut i);
    assert_eq!(i, events.len());
    v
}

fn value(yaml: &str) -> Value {
    doc_value(&from_str(yaml).unwrap())
}

fn untagged(v: Value) -> Value {
    match v {
        Value::Tagged(_, v) => untagged(*v),
        Value::List(items) => Value::List(items.into_iter().map(untagged).collect()),
        Value::Dict(items) => Value::Dict(items.into_iter().map(|(k, v)| (untagged(k), untagged(v))).collect()),
        other => other,
    }
}

/// The value as an unsigned integer that fits in 32 bits.
fn as_u32(v: &Value) -> Result<u32, String> {
    match untagged(v.clone()) {
        Value::Int(n) if n >= 0 && n <= u32::MAX as i128 => Ok(n as u32),
        other => Err(format!("not a u32: {:?}", other)),
    }
}

/// A consumer that accepts one unsigned integer per document.
struct U32Sink(Option<u32>);

impl EventSink for U32Sink {
    fn event(&mut self, event: DeEvent) -> Result<(), Error> {
        match event.event {
            DataEvent::Atom(Atom::U64(v)) if v <= u32::MAX as u64 => {
                self.0 = Some(v as u32);
                Ok(())
            }
            DataEvent::Atom(Atom::Str(_)) => Err(Error::new(ErrorKind::Unexpected, "unexpected string, expected u32")),
            _ => Err(Error::new(ErrorKind::Unexpected, "expected u32")),
        }
    }
}

fn next_u32(de: &mut Deserializer) -> Result<u32, Error> {
    let mut sink = U32Sink(None);
    de.drive(&mut sink)?;
    Ok(sink.0.unwrap())
}

#[test]
fn test_explicit_tags() {
    assert_eq!(value("!!str 42"), "42".into());
    assert_eq!(as_u32(&value("!!int '42'")), Ok(42));
    assert_eq!(value("!!float 42"), Value::Float(42.0));
    assert_eq!(value("! 42"), "42".into());
    assert_eq!(value("!!binary aGVsbG8="), Value::Bytes(b"hello".to_vec()));
    let err = from_str("!!int abc").unwrap_err();
    assert_eq!(err.to_string(), "Unexpected: invalid !!int value at line 1 column 1");
    assert!(from_str("!!map [1]").is_err());
    assert!(from_str("!!str [1]").is_err());
    assert_eq!(value("!!seq [1]"), seq(vec![1.into()]));
}

#[test]
fn test_timestamps() {
    assert_eq!(value("!!timestamp 2001-12-14 21:59:43.10 -5"), Value::Date("2001-12-14T21:59:43.1-05:00".into()));
    assert_eq!(value("!!timestamp 2001-12-15T02:59:43.1Z"), Value::Date("2001-12-15T02:59:43.1Z".into()));
    // timestamps without time zone are in UTC
    assert_eq!(value("!!timestamp 2001-12-15 2:59:43"), Value::Date("2001-12-15T02:59:43Z".into()));
    assert_eq!(value("!!timestamp 2002-12-14"), Value::Date("2002-12-14".into()));
    assert_eq!(
        value("!!timestamp 2001-12-14t21:59:43.10-05:00"),
        Value::Date("2001-12-14T21:59:43.1-05:00".into())
    );
    // plain scalars are not timestamps
    assert_eq!(value("2001-12-14"), "2001-12-14".into());
    assert!(from_str("!!timestamp yesterday").is_err());
}

fn tagged_strings(v: Value) -> Vec<Tagged<String>> {
    let Value::List(items) = v else { panic!("not a sequence") };
    items
        .into_iter()
        .map(|item| match item {
            Value::Tagged(tag, v) => match *v {
                Value::Str(s) => Tagged::new(&tag, s),
                other => panic!("not a string {:?}", other),
            },
            Value::Str(s) => Tagged::untagged(s),
            other => panic!("not a string {:?}", other),
        })
        .collect()
}

#[test]
fn test_custom_tags() {
    assert_eq!(
        tagged_strings(value("[!color red, blue, !!str green]")),
        [
            Tagged::new("!color", "red".to_string()),
            Tagged::untagged("blue".to_string()),
            Tagged::untagged("green".to_string()),
        ]
    );

    // tags on collections, handles are resolved
    let v = value("%TAG !e! tag:example.com,2000:\n--- !e!point {x: 1, y: 2}");
    assert_eq!(
        v,
        Value::Tagged(
            "tag:example.com,2000:point".into(),
            Box::new(map(vec![("x".into(), 1.into()), ("y".into(), 2.into())]))
        )
    );

    // unknown tags are transparent for consumers that do not care
    assert_eq!(untagged(value("!Ref name")), "name".into());
    assert_eq!(untagged(value("!!set [1, 2]")), seq(vec![1.into(), 2.into()]));
    assert_eq!(
        value("!!set {a, b}"),
        Value::Tagged(
            "tag:yaml.org,2002:set".into(),
            Box::new(map(vec![("a".into(), ().into()), ("b".into(), ().into())]))
        )
    );
}

#[test]
fn test_complex_keys() {
    assert_eq!(
        value("? [a, b]\n: c\n1: d\n{x: y}: e\n"),
        map(vec![
            (seq(vec!["a".into(), "b".into()]), "c".into()),
            (1.into(), "d".into()),
            (map(vec![("x".into(), "y".into())]), "e".into()),
        ])
    );
    assert_eq!(value("1: a\n2: b"), map(vec![(1.into(), "a".into()), (2.into(), "b".into())]));
}

#[test]
fn test_aliases() {
    let v = value("\nbase: &base {a: 1, b: [x, y]}\ncopy: *base\nscalar: &s hello\nagain: *s\n");
    let base = map(vec![("a".into(), 1.into()), ("b".into(), seq(vec!["x".into(), "y".into()]))]);
    assert_eq!(
        v,
        map(vec![
            ("base".into(), base.clone()),
            ("copy".into(), base),
            ("scalar".into(), "hello".into()),
            ("again".into(), "hello".into()),
        ])
    );

    // aliases within anchored nodes
    let one_one = seq(vec![1.into(), 1.into()]);
    assert_eq!(value("- &a 1\n- &b [*a, *a]\n- *b\n"), seq(vec![1.into(), one_one.clone(), one_one]));

    // redefined anchors: an alias refers to the definition before it
    assert_eq!(
        value("- &a 1\n- &b [*a]\n- &a 2\n- *b\n- *a\n"),
        seq(vec![1.into(), seq(vec![1.into()]), 2.into(), seq(vec![1.into()]), 2.into()])
    );

    // aliases do not reach into other documents
    let mut de = Deserializer::from_str("--- &a 1\n--- *a\n");
    assert_eq!(doc_value(&de.next_document().unwrap()), 1.into());
    assert_eq!(
        de.next_document().unwrap_err().to_string(),
        "Unexpected: unknown anchor 'a' at line 2 column 5"
    );

    let err = from_str("&a [*a]").unwrap_err();
    assert_eq!(err.to_string(), "Unexpected: recursive alias at line 1 column 5");
}

#[test]
fn test_alias_limit() {
    // the "billion laughs" attack
    let mut input = String::from("a: &a [lol, lol, lol, lol, lol, lol, lol, lol, lol]\n");
    for (prev, name) in ["a", "b", "c", "d", "e", "f", "g", "h"].iter().zip(["b", "c", "d", "e", "f", "g", "h", "i"]) {
        input.push_str(&format!(
            "{}: &{} [*{p}, *{p}, *{p}, *{p}, *{p}, *{p}, *{p}, *{p}, *{p}]\n",
            name,
            name,
            p = prev
        ));
    }
    let err = from_str(&input).unwrap_err();
    assert_eq!(err.to_string(), "Unexpected: aliases expand to too many events");

    let input = "a: &a [1, 2]\nb: [*a, *a]";
    let mut de = Deserializer::from_str_with_config(input, &DeserializerConfig::new().alias_limit(8));
    let one_two = seq(vec![1.into(), 2.into()]);
    assert_eq!(
        doc_value(&de.next_document().unwrap()),
        map(vec![("a".into(), one_two.clone()), ("b".into(), seq(vec![one_two.clone(), one_two]))])
    );
    let mut de = Deserializer::from_str_with_config(input, &DeserializerConfig::new().alias_limit(7));
    assert!(de.next_document().is_err());
}

#[test]
fn test_max_depth() {
    let input = "[[[[1]]]]";
    assert!(DeserializerConfig::new().max_depth(4).from_str(input).is_ok());
    let err = DeserializerConfig::new().max_depth(3).from_str(input).unwrap_err();
    assert_eq!(err.to_string(), "Unexpected: recursion limit exceeded at line 1 column 4");

    // nesting does not use the stack
    let depth = 50_000;
    let input = "{name: x, child: ".repeat(depth) + "null" + &"}".repeat(depth);
    let events = from_str(&input).unwrap();
    let maps = events.iter().filter(|e| e.event == DataEvent::MapStart).count();
    assert_eq!(maps, depth);
    assert_eq!(events[events.len() - depth - 1].event, DataEvent::Atom(Atom::Null));

    let input = format!("a: 42\nignored: {}{}", "[".repeat(depth), "]".repeat(depth));
    let events = from_str(&input).unwrap();
    assert_eq!(events[2].event, DataEvent::Atom(Atom::U64(42)));
}

#[test]
fn test_de_test_documents() {
    let mut de = Deserializer::from_str("--- 1\n---\n- 2\n...\n--- 3\n");
    assert!(!de.is_end());
    assert_eq!(doc_value(&de.next_document().unwrap()), Value::Int(1));
    assert_eq!(doc_value(&de.next_document().unwrap()), seq(vec![2.into()]));
    assert_eq!(doc_value(&de.next_document().unwrap()), Value::Int(3));
    assert!(de.is_end());
    de.end().unwrap();
    let err = de.next_document().unwrap_err();
    assert_eq!(err.kind, ErrorKind::EndOfFile);

    let mut de = Deserializer::from_str("1\n--- 2\n--- 3\n");
    let mut docs = Vec::new();
    while !de.is_end() {
        docs.push(as_u32(&doc_value(&de.next_document().unwrap())).unwrap());
    }
    assert_eq!(docs, [1, 2, 3]);

    // an empty document is null
    let mut de = Deserializer::from_str("---\n--- 1\n");
    let mut docs = Vec::new();
    while !de.is_end() {
        docs.push(doc_value(&de.next_document().unwrap()));
    }
    assert_eq!(docs, [Value::Null, 1.into()]);

    // from_str expects at most one document
    let err = from_str("--- 1\n--- 2\n").unwrap_err();
    assert_eq!(err.to_string(), "Unexpected: expected a single document, found more");
}

#[test]
fn test_empty_stream() {
    // a stream without documents is null
    assert_eq!(value(""), Value::Null);
    assert_eq!(value("# just a comment\n"), Value::Null);
    assert!(as_u32(&value("")).is_err());
    assert!(Deserializer::from_str("# nothing").is_end());
    assert!(Deserializer::from_str("").is_end());
}

#[test]
fn test_error_recovery() {
    // a document that fails to deserialize is skipped
    let mut de = Deserializer::from_str("--- [1, 2]\n--- abc\n--- 3\n");
    assert!(next_u32(&mut de).is_err());
    assert!(next_u32(&mut de).is_err());
    assert_eq!(next_u32(&mut de).unwrap(), 3);
    assert!(de.is_end());

    // syntax errors end the stream
    let mut de = Deserializer::from_str("--- 1\n--- [\n--- 3\n");
    assert_eq!(next_u32(&mut de).unwrap(), 1);
    let err = de.next_document().unwrap_err();
    assert!(err.to_string().contains("syntax error"), "{}", err.to_string());
    assert!(de.next_document().is_err());

    // reading stops at the first error
    let mut de = Deserializer::from_str("--- 1\n--- x\n--- 3\n");
    let mut rv = Vec::new();
    while !de.is_end() {
        let r = next_u32(&mut de);
        let failed = r.is_err();
        rv.push(r);
        if failed {
            break;
        }
    }
    assert_eq!(rv.len(), 2);
    assert!(rv[1].is_err());
}

#[test]
fn test_syntax_errors() {
    let err = from_str("a: b: c").unwrap_err();
    assert_eq!(
        err.to_string(),
        "Unexpected: syntax error: mapping values are not allowed in this context at line 1 column 5"
    );
    let err = from_str("[1, 2").unwrap_err();
    assert!(err.to_string().contains("syntax error"), "{}", err.to_string());
    let mut de = Deserializer::from_str("- a\nb");
    assert!(!de.is_end());
    assert!(de.next_document().is_err());
}

#[test]
fn test_versions() {
    let input = "[yes, No, on, 0777, 0o777, 1_000, 1:30, 0b101, 3e3]";
    let v = doc_value(&Deserializer::from_str(input).next_document().unwrap());
    assert_eq!(
        v,
        seq(vec![
            "yes".into(),
            "No".into(),
            "on".into(),
            777.into(),
            511.into(),
            "1_000".into(),
            "1:30".into(),
            "0b101".into(),
            3000.0.into(),
        ])
    );
    let v = doc_value(&DeserializerConfig::new().version(Version::V1_1).from_str(input).unwrap());
    assert_eq!(
        v,
        seq(vec![
            true.into(),
            false.into(),
            true.into(),
            511.into(),
            "0o777".into(),
            1000.into(),
            90.into(),
            5.into(),
            "3e3".into(),
        ])
    );

    // the directive overrides the configured version
    let mut de = Deserializer::from_str_with_config(
        "%YAML 1.1\n--- yes\n...\n%YAML 1.2\n--- yes\n--- yes\n",
        &DeserializerConfig::new().version(Version::V1_1),
    );
    assert_eq!(*de.config(), DeserializerConfig::new().version(Version::V1_1));
    assert_eq!(doc_value(&de.next_document().unwrap()), Value::Bool(true));
    assert_eq!(doc_value(&de.next_document().unwrap()), "yes".into());
    assert_eq!(doc_value(&de.next_document().unwrap()), Value::Bool(true));
}

#[test]
fn test_from_slice() {
    assert_eq!(doc_value(&from_slice(b"[1, 2]").unwrap()), seq(vec![1.into(), 2.into()]));
    let err = from_slice(b"a: \xff").unwrap_err();
    assert_eq!(err.to_string(), "Unexpected: invalid UTF-8 at offset 3");
    // a byte order mark is skipped
    assert_eq!(doc_value(&from_slice(b"\xef\xbb\xbf42").unwrap()), 42.into());
}

/// The entries of a map, sorted by key text.
fn sorted(v: &Value) -> Vec<(String, Value)> {
    let Value::Dict(entries) = v else { panic!("not a map {:?}", v) };
    let mut out: Vec<(String, Value)> = entries
        .iter()
        .map(|(k, v)| match k {
            Value::Str(s) => (s.clone(), v.clone()),
            other => panic!("not a string key {:?}", other),
        })
        .collect();
    out.sort_by(|a, b| a.0.cmp(&b.0));
    out
}

#[test]
fn test_merge_keys() {
    // the example from the YAML 1.1 merge key specification: all maps are
    // the same
    let input = "
- &CENTER { x: 1, y: 2 }
- &LEFT { x: 0, y: 2 }
- &BIG { r: 10 }
- &SMALL { r: 1 }

# Explicit keys
- x: 1
  y: 2
  r: 10
  label: center/big

# Merge one map
- << : *CENTER
  r: 10
  label: center/big

# Merge multiple maps
- << : [ *CENTER, *BIG ]
  label: center/big

# Override
- << : [ *BIG, *LEFT, *SMALL ]
  x: 1
  label: center/big
";
    let Value::List(maps) = value(input) else { panic!() };
    let expected = sorted(&map(vec![
        ("x".into(), 1.into()),
        ("y".into(), 2.into()),
        ("r".into(), 10.into()),
        ("label".into(), "center/big".into()),
    ]));
    for m in &maps[4..] {
        assert_eq!(sorted(m), expected);
    }
}

#[test]
fn test_merge_key_semantics() {
    // merged entries come after the entries of the map, keys of the map win
    // even if they come after the merge key
    assert_eq!(
        value("- &a {x: 1, y: 2}\n- {x: 0, <<: *a, z: 3, y: 0}\n"),
        seq(vec![
            map(vec![("x".into(), 1.into()), ("y".into(), 2.into())]),
            map(vec![("x".into(), 0.into()), ("z".into(), 3.into()), ("y".into(), 0.into())]),
        ])
    );

    // inline mappings, keys are compared by value
    assert_eq!(
        value("<<: {1: a, b: c, '2': d}\n0x1: x\n2: y\n"),
        map(vec![
            (1.into(), "x".into()),
            (2.into(), "y".into()),
            ("b".into(), "c".into()),
            ("2".into(), "d".into()),
        ])
    );

    // merges are applied recursively, earlier sources win
    let v = value("\n- &a {a: 1, x: a}\n- &b {<<: *a, b: 2, x: b}\n- &c {c: 3, x: c}\n- {<<: [*b, *c]}\n- {<<: [*c, *b]}\n");
    let Value::List(items) = v else { panic!() };
    assert_eq!(items[1], map(vec![("b".into(), 2.into()), ("x".into(), "b".into()), ("a".into(), 1.into())]));
    assert_eq!(
        items[3],
        map(vec![("b".into(), 2.into()), ("x".into(), "b".into()), ("a".into(), 1.into()), ("c".into(), 3.into())])
    );
    assert_eq!(
        items[4],
        map(vec![("c".into(), 3.into()), ("x".into(), "c".into()), ("b".into(), 2.into()), ("a".into(), 1.into())])
    );

    // an alias to a map with merge keys is merged as well
    let yx = map(vec![("y".into(), 2.into()), ("x".into(), 1.into())]);
    assert_eq!(value("a: &a {<<: {x: 1}, y: 2}\nb: *a\n"), map(vec![("a".into(), yx.clone()), ("b".into(), yx)]));

    // nested maps with merge keys inside of merged maps
    let n = map(vec![("n".into(), map(vec![("x".into(), 1.into())]))]);
    assert_eq!(value("a: &a {n: {<<: {x: 1}}}\nb: {<<: *a}\n"), map(vec![("a".into(), n.clone()), ("b".into(), n)]));

    // anchors within merged inline maps can be used later
    let x = map(vec![("x".into(), 1.into())]);
    assert_eq!(value("a: {<<: &m {x: 1}}\nb: *m\n"), map(vec![("a".into(), x.clone()), ("b".into(), x)]));
}

#[test]
fn test_merge_keys_disabled_or_quoted() {
    assert_eq!(value("'<<': 1\n\"<<\": 2\n"), map(vec![("<<".into(), 1.into()), ("<<".into(), 2.into())]));
    let v = doc_value(&DeserializerConfig::new().merge_keys(false).from_str("<<: {x: 1}").unwrap());
    assert_eq!(v, map(vec![("<<".into(), map(vec![("x".into(), 1.into())]))]));
    // `<<` as a value or in a sequence is a string
    assert_eq!(
        value("a: <<\nb: [<<]"),
        map(vec![("a".into(), "<<".into()), ("b".into(), seq(vec!["<<".into()]))])
    );
}

#[test]
fn test_merge_key_errors() {
    let err = from_str("<<: 1").unwrap_err();
    assert_eq!(
        err.to_string(),
        "Unexpected: the value of a merge key must be a mapping or a sequence of mappings at line 1 column 5"
    );
    let err = from_str("<<: [{a: 1}, [1]]").unwrap_err();
    assert_eq!(
        err.to_string(),
        "Unexpected: merge keys can only merge mappings or sequences of mappings at line 1 column 14"
    );
    let err = from_str("- &a 1\n- <<: *a").unwrap_err();
    assert_eq!(
        err.to_string(),
        "Unexpected: merge keys can only merge mappings or sequences of mappings at line 1 column 3"
    );

    // merges count towards the alias limit
    let mut input = String::from("a0: &a0 {x: 1, y: 2}\n");
    for i in 1..30 {
        input.push_str(&format!("a{i}: &a{i} {{<<: [*a{p}, *a{p}]}}\n", i = i, p = i - 1));
    }
    let err = from_str(&input).unwrap_err();
    assert_eq!(err.to_string(), "Unexpected: aliases expand to too many events");
}

/// A consumer of servers (`host` strings, `port` numbers up to 65535).
struct ServerSink {
    key: Option<String>,
    depth: usize,
}

impl EventSink for ServerSink {
    fn event(&mut self, event: DeEvent) -> Result<(), Error> {
        match event.event {
            DataEvent::SeqStart | DataEvent::MapStart => self.depth += 1,
            DataEvent::SeqEnd | DataEvent::MapEnd => self.depth -= 1,
            DataEvent::Atom(a) => match (self.key.take(), a) {
                (None, Atom::Str(k)) if self.depth == 2 => self.key = Some(text(&k)),
                (Some(k), Atom::U64(p)) if k == "port" && p <= 65535 => {}
                (Some(k), Atom::Str(_)) if k == "host" => {}
                (Some(k), Atom::Str(_)) if k == "port" => {
                    return Err(Error::new(ErrorKind::Unexpected, "unexpected string, expected u16"))
                }
                _ => return Err(Error::new(ErrorKind::Unexpected, "unexpected value")),
            },
        }
        Ok(())
    }
}

/// Passes the events of a document through a limits layer.
struct LimitedSink {
    limits: Limits,
    // for each open container: is it a map, and is the next atom a key
    open: Vec<(bool, bool)>,
}

impl EventSink for LimitedSink {
    fn event(&mut self, event: DeEvent) -> Result<(), Error> {
        let is_map_key = matches!(self.open.last(), Some((true, true)));
        self.limits.event(&event.event, is_map_key, self.open.len())?;
        match event.event {
            DataEvent::MapStart => self.open.push((true, true)),
            DataEvent::SeqStart => self.open.push((false, false)),
            DataEvent::MapEnd | DataEvent::SeqEnd => {
                self.open.pop();
            }
            DataEvent::Atom(_) => {}
        }
        // a value completed: the next item of a map alternates key and value
        if !matches!(event.event, DataEvent::MapStart | DataEvent::SeqStart) {
            if let Some((true, key)) = self.open.last_mut() {
                *key = !*key;
            }
        }
        Ok(())
    }
}

#[test]
fn test_error_locations() {
    let mut de = Deserializer::from_str("- host: a\n  port: 1\n- host: b\n  port: x\n");
    let err = de.drive(&mut ServerSink { key: None, depth: 0 }).unwrap_err();
    assert_eq!(err.to_string(), "Unexpected: unexpected string, expected u16 at line 4 column 9");

    // values produced by aliases report the anchored node
    let mut de = Deserializer::from_str("- &a x\n- 1\n- *a\n");
    let mut sink = U32Sink(None);
    let err = de.drive(&mut SeqOfU32 { inner: &mut sink, started: false }).unwrap_err();
    assert_eq!((err.line(), err.column()), (Some(1), Some(3)));

    // the limits are enforced by a layer
    let mut de = Deserializer::from_str("a: [1, 2, 3]");
    let err = de.drive(&mut LimitedSink { limits: Limits::new().max_items(2), open: Vec::new() }).unwrap_err();
    assert_eq!(err.to_string(), "Unexpected: too many items at line 1 column 11");
}

/// Passes the items of a sequence to a consumer of numbers.
struct SeqOfU32<'a> {
    inner: &'a mut U32Sink,
    started: bool,
}

impl EventSink for SeqOfU32<'_> {
    fn event(&mut self, event: DeEvent) -> Result<(), Error> {
        match event.event {
            DataEvent::SeqStart if !self.started => {
                self.started = true;
                Ok(())
            }
            DataEvent::SeqEnd => Ok(()),
            _ => self.inner.event(event),
        }
    }
}

/// The one based line and the one based column (in characters) of a byte
/// offset.
fn line_col(input: &str, offset: usize) -> String {
    let before = &input[..offset];
    let line = before.matches('\n').count() + 1;
    let col = before.rsplit('\n').next().unwrap().chars().count() + 1;
    format!("{}:{}", line, col)
}

#[test]
fn test_spans() {
    let input = "name: \"demo\"\nlist:\n  - 1\n  - 23\nflow: [1, 2]   # comment\nnested: &n\n  x: true\n\n# comment\ntagged: !!str \u{e4}\u{f6}\u{fc}\nalias: *n\n";
    let events = DeserializerConfig::new().track_locations(true).from_str(input).unwrap();
    // the span of a value: from its first event to its last event
    let span = |i: usize| {
        let mut j = i;
        let mut open = 0;
        loop {
            match events[j].event {
                DataEvent::MapStart | DataEvent::SeqStart => open += 1,
                DataEvent::MapEnd | DataEvent::SeqEnd => open -= 1,
                DataEvent::Atom(_) => {}
            }
            if open == 0 {
                break;
            }
            j += 1;
        }
        format!("{}-{}", line_col(input, events[i].start), line_col(input, events[j].end))
    };
    // the value after a key: events are [map, key, value...]
    let find = |key: &str| {
        let i = events
            .iter()
            .position(|e| e.event == DataEvent::Atom(Atom::Str(key.chars().collect())))
            .unwrap();
        i + 1
    };
    // spans include the quotes of strings
    assert_eq!(span(find("name")), "1:7-1:13");
    // block collections end with their last value
    let list = find("list");
    assert_eq!(span(list), "3:3-4:7");
    assert_eq!(span(list + 1), "3:5-3:6");
    assert_eq!(span(list + 2), "4:5-4:7");
    assert_eq!(span(find("flow")), "5:7-5:13");
    // the properties are part of the node, columns count characters
    let nested = find("nested");
    assert_eq!(span(nested), "6:9-7:10");
    assert_eq!(span(nested + 2), "7:6-7:10");
    assert_eq!(span(find("tagged")), "10:9-10:18");
    // aliases report the location of the anchored node
    let alias = find("alias");
    assert_eq!(span(alias), "6:9-7:10");
    assert_eq!(span(alias + 2), "7:6-7:10");
}

#[test]
fn test_ignore() {
    let mut de = Deserializer::from_str("--- [1, {a: b}]\n--- x\n");
    de.drive(&mut deser_yaml::de::Ignore).unwrap();
    assert_eq!(doc_value(&de.next_document().unwrap()), "x".into());
    assert!(de.is_end());
}

/// A stream of blanks, line breaks and comments reads as a single
/// untagged null.
#[test]
fn test_blank_stream_reads_as_null() {
    for s in ["", " ", "\n", "  \n\t\n\r\n", "\t", "# c\n", "\u{feff}# x", "  # a\n\n#b", "#"] {
        let events = from_str(s).unwrap();
        assert_eq!(events.len(), 1, "{:?}", s);
        assert_eq!(events[0].event, DataEvent::Atom(Atom::Null));
        assert_eq!(events[0].tag, None);
        let events = from_slice(s.as_bytes()).unwrap();
        assert_eq!(events[0].event, DataEvent::Atom(Atom::Null));
    }
}

/// A document of one plain scalar reads as the value of the scalar.
#[test]
fn test_plain_document_values() {
    let single = |s: &str| {
        let events = from_str(s).unwrap();
        assert_eq!(events.len(), 1, "{:?}", s);
        assert_eq!(events[0].tag, None);
        assert!(!events[0].compact);
        events[0].event.clone()
    };
    assert_eq!(single("hello world"), DataEvent::Atom(Atom::Str("hello world".chars().collect())));
    assert_eq!(single("42\n"), DataEvent::Atom(Atom::U64(42)));
    assert_eq!(single("true"), DataEvent::Atom(Atom::Bool(true)));
    assert_eq!(single("~"), DataEvent::Atom(Atom::Null));
    let bytes = from_slice(b"-7").unwrap();
    assert_eq!(bytes.len(), 1);
    assert_eq!(bytes[0].event, DataEvent::Atom(Atom::I64(-7)));
    let mut de = Deserializer::from_str("x");
    assert!(!de.is_end());
    assert_eq!(de.next_document().unwrap().len(), 1);
    assert!(de.end().is_ok());
}
