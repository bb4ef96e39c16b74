//! Reading documents from streams as the input arrives.
use std::io::Read;

use deser_yaml::de::{DeEvent, DeserializerConfig, EventLog, EventSink};
use deser_yaml::error::{Error, ErrorKind};
use deser_yaml::io::{read_single, ReadStep, StreamReader};
use deser_yaml::model::{Atom, DataEvent};
use deser_yaml::ser::{to_string, SerEvent, Serializer, SerializerConfig};

/// A reader that returns the input in chunks of a fixed size.
struct Chunked<'a> {
    input: &'a [u8],
    size: usize,
}

impl Read for Chunked<'_> {
    fn read(&mut self, buf: &mut [u8]) -> std::io::Result<usize> {
        let len = self.size.min(buf.len()).min(self.input.len());
        buf[..len].copy_from_slice(&self.input[..len]);
        self.input = &self.input[len..];
        Ok(len)
    }
}

/// A reader that panics when it's read after its input was returned.
struct Blocking<'a>(&'a [u8]);

impl Read for Blocking<'_> {
    fn read(&mut self, buf: &mut [u8]) -> std::io::Result<usize> {
        assert!(!self.0.is_empty(), "read would block");
        let len = buf.len().min(self.0.len());
        buf[..len].copy_from_slice(&self.0[..len]);
        self.0 = &self.0[len..];
        Ok(len)
    }
}

/// Reads the next document into the sink, reading input as needed.
fn read_into<S: EventSink>(reader: &mut StreamReader, source: &mut impl Read, sink: &mut S) -> Option<Result<(), Error>> {
    loop {
        match reader.next_step(sink) {
            ReadStep::NeedInput => {
                let mut buf = [0u8; 4096];
                let n = source.read(&mut buf).unwrap();
                reader.push_input(&buf[..n]);
            }
            ReadStep::Document(result) => return Some(result),
            ReadStep::End => return None,
        }
    }
}

fn read_events(reader: &mut StreamReader, source: &mut impl Read) -> Option<Result<Vec<DeEvent>, Error>> {
    let mut log = EventLog { events: Vec::new() };
    read_into(reader, source, &mut log).map(|r| r.map(|()| log.events))
}

fn string_of(events: &[DeEvent]) -> String {
    match &events[0].event {
        DataEvent::Atom(Atom::Str(t)) => t.iter().collect(),
        other => panic!("not a string {:?}", other),
    }
}

fn u32s_of(events: &[DeEvent]) -> Vec<u32> {
    events
        .iter()
        .filter_map(|e| match e.event {
            DataEvent::Atom(Atom::U64(v)) => Some(v as u32),
            _ => None,
        })
        .collect()
}

/// Collects a mapping of strings to numbers, rejecting anything else like
/// a typed value would.
struct StringToU32 {
    depth: usize,
    expect_key: bool,
    keys: Vec<String>,
}

impl EventSink for StringToU32 {
    fn event(&mut self, event: DeEvent) -> Result<(), Error> {
        let invalid = |what: &str| Err(Error::new(ErrorKind::Unexpected, what));
        match event.event {
            DataEvent::MapStart if self.depth == 0 => {
                self.depth = 1;
                Ok(())
            }
            DataEvent::MapEnd => Ok(()),
            DataEvent::Atom(Atom::Str(t)) if self.expect_key => {
                self.keys.push(t.iter().collect());
                self.expect_key = false;
                Ok(())
            }
            DataEvent::Atom(Atom::U64(v)) if !self.expect_key && v <= u32::MAX as u64 => {
                self.expect_key = true;
                Ok(())
            }
            _ => invalid("unexpected value, expected u32"),
        }
    }
}

#[test]
fn test_no_read_while_a_document_is_complete() {
    let mut reader = StreamReader::new(DeserializerConfig::new());
    let mut source = Blocking(b"a\n...\n--- b\n...\n");
    assert_eq!(string_of(&read_events(&mut reader, &mut source).unwrap().unwrap()), "a");
    assert_eq!(string_of(&read_events(&mut reader, &mut source).unwrap().unwrap()), "b");
}

#[test]
fn test_errors_only_discard_their_document() {
    for size in [1, 5, 100] {
        let input = b"a: 1\n---\nb: [1\n---\nc: 3\n---\nd: x\n";
        let mut reader = StreamReader::new(DeserializerConfig::new());
        let mut source = Chunked { input, size };
        let mut results = Vec::new();
        loop {
            let mut sink = StringToU32 { depth: 0, expect_key: true, keys: Vec::new() };
            match read_into(&mut reader, &mut source, &mut sink) {
                Some(result) => results.push(result.map(|()| sink.keys).map_err(|err| err.line())),
                None => break,
            }
        }
        assert_eq!(
            results,
            [
                Ok(vec!["a".to_string()]),
                // the sequence is not a number (before the syntax error)
                Err(Some(3)),
                Ok(vec!["c".to_string()]),
                Err(Some(7)),
            ]
        );
    }
}

#[test]
fn test_from_reader() {
    let value = read_single(DeserializerConfig::new(), &[b"--- [1, 2]\n...\n".to_vec()]).unwrap();
    assert_eq!(u32s_of(&value), [1, 2]);

    // an empty stream is null
    let value = read_single(DeserializerConfig::new(), &[b"# nothing\n".to_vec()]).unwrap();
    assert_eq!(value[0].event, DataEvent::Atom(Atom::Null));

    let err = read_single(DeserializerConfig::new(), &[b"1\n--- 2\n".to_vec()]).unwrap_err();
    assert_eq!(err.line(), Some(2));
}

fn plain(atom: Atom) -> SerEvent {
    SerEvent::plain(DataEvent::Atom(atom))
}

#[test]
fn test_writer() {
    let mut writer = Serializer::new(SerializerConfig::new());
    writer
        .serialize(&[
            SerEvent::plain(DataEvent::SeqStart),
            plain(Atom::U64(1)),
            plain(Atom::U64(2)),
            SerEvent::plain(DataEvent::SeqEnd),
        ])
        .unwrap();
    writer.serialize(&[plain(Atom::Str(vec!['b']))]).unwrap();
    let output = writer.finish().into_bytes();
    assert_eq!(output, b"- 1\n- 2\n---\nb\n");

    let mut reader = StreamReader::new(DeserializerConfig::new());
    let mut source = &output[..];
    assert_eq!(u32s_of(&read_events(&mut reader, &mut source).unwrap().unwrap()), vec![1, 2]);
    assert_eq!(string_of(&read_events(&mut reader, &mut source).unwrap().unwrap()), "b");

    let out = to_string(&[plain(Atom::Str(vec!['x']))]).unwrap().into_bytes();
    assert_eq!(out, b"x\n");
}

/// The data events (with tags) of the documents of a stream.
fn data_events(docs: Vec<Vec<DeEvent>>) -> Vec<Vec<(DataEvent, Option<Vec<char>>)>> {
    docs.into_iter().map(|d| d.into_iter().map(|e| (e.event, e.tag)).collect()).collect()
}

fn read_in_memory(input: &str) -> Vec<Vec<(DataEvent, Option<Vec<char>>)>> {
    let mut de = deser_yaml::de::Deserializer::from_str(input);
    let mut docs = Vec::new();
    while !de.is_end() {
        docs.push(de.next_document().unwrap());
    }
    data_events(docs)
}

fn read_chunked(input: &str, size: usize) -> Vec<Vec<(DataEvent, Option<Vec<char>>)>> {
    let mut reader = StreamReader::new(DeserializerConfig::new());
    let mut source = Chunked { input: input.as_bytes(), size };
    let mut docs = Vec::new();
    while let Some(doc) = read_events(&mut reader, &mut source) {
        docs.push(doc.unwrap());
    }
    data_events(docs)
}

const STREAMS: &[(&str, usize)] = &[
    ("a: 1\n--- b\n---\n- x\n...\n# comment\n%YAML 1.1\n--- yes\n---\n", 5),
    ("# only a comment\n\n", 0),
    ("", 0),
    ("\u{feff}# with a byte order mark\n--- a\n--- b", 2),
    ("text: |\n  line\n  # not a comment\n\n  more\n--- 2\n", 2),
    ("a\r\n---\r\nb\r\n", 2),
    ("--- |\n  foo\n...\n--- >\n  bar\n  baz\n", 2),
    ("--- # comment\n[1, 2]\n...\n...\n{a: b}", 2),
    ("- &anchor x\n- *anchor\n---\n- y", 2),
];

#[test]
fn test_documents_in_chunks() {
    for &(input, count) in STREAMS {
        let expected = read_in_memory(input);
        assert_eq!(expected.len(), count, "{input:?}");
        for size in 1..=input.len().max(1) {
            assert_eq!(read_chunked(input, size), expected, "{input:?} size {size}");
        }
    }
}

/// A stream without bytes reads as a single null.
#[test]
fn test_read_single_without_bytes() {
    for chunks in [vec![], vec![Vec::new()], vec![Vec::new(), b"1\n".to_vec()]] {
        let value = read_single(DeserializerConfig::new(), &chunks).unwrap();
        assert_eq!(value.len(), 1);
        assert_eq!(value[0].event, DataEvent::Atom(Atom::Null));
        assert_eq!(value[0].tag, None);
    }
}
