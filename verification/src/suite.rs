//! The event format of the YAML test suite (`test.event` files).
use vstd::prelude::*;

use crate::event::{EventKind, Props, ScalarStyle};
use crate::parser::Parser;
use crate::scanner::{plain_document_at, plain_text, quiet_from, MAX_INPUT_CHARS};
use crate::text::{chars_to_string, push_chars, str_chars};

verus! {

/// Guards the test suite against parser bugs that loop forever.
pub const MAX_EVENTS: usize = 10_000_000;

/// How a character of a scalar value is written.
pub open spec fn escaped_char(c: char) -> Seq<char> {
    if c == '\\' {
        seq!['\\', '\\']
    } else if c == '\0' {
        seq!['\\', '0']
    } else if c == '\x08' {
        seq!['\\', 'b']
    } else if c == '\t' {
        seq!['\\', 't']
    } else if c == '\n' {
        seq!['\\', 'n']
    } else if c == '\r' {
        seq!['\\', 'r']
    } else {
        seq![c]
    }
}

/// How a scalar value is written.
pub open spec fn escaped_value(v: Seq<char>) -> Seq<char>
    decreases v.len(),
{
    if v.len() == 0 {
        Seq::empty()
    } else {
        escaped_value(v.drop_last()) + escaped_char(v.last())
    }
}

/// How the properties of a node are written.
pub open spec fn props_text(props: Props) -> Seq<char> {
    (match props.anchor {
        Some(a) => seq![' ', '&'] + a@,
        None => Seq::empty(),
    }) + (match props.tag {
        Some(t) => seq![' ', '<'] + t@ + seq!['>'],
        None => Seq::empty(),
    })
}

/// The indicator of a scalar style.
pub open spec fn style_char(style: ScalarStyle) -> char {
    match style {
        ScalarStyle::Plain => ':',
        ScalarStyle::SingleQuoted => '\'',
        ScalarStyle::DoubleQuoted => '"',
        ScalarStyle::Literal => '|',
        ScalarStyle::Folded => '>',
    }
}

/// The line of an event (with its line break).
pub open spec fn event_line(kind: EventKind) -> Seq<char> {
    (match kind {
        EventKind::StreamStart => "+STR"@,
        EventKind::StreamEnd => "-STR"@,
        EventKind::DocumentStart { explicit, .. } => if explicit { "+DOC ---"@ } else { "+DOC"@ },
        EventKind::DocumentEnd { explicit } => if explicit { "-DOC ..."@ } else { "-DOC"@ },
        EventKind::SequenceStart { props, flow } => (if flow { "+SEQ []"@ } else { "+SEQ"@ })
            + props_text(props),
        EventKind::SequenceEnd => "-SEQ"@,
        EventKind::MappingStart { props, flow } => (if flow { "+MAP {}"@ } else { "+MAP"@ })
            + props_text(props),
        EventKind::MappingEnd => "-MAP"@,
        EventKind::Scalar { props, style, value } => "=VAL"@ + props_text(props) + seq![
            ' ',
            style_char(style),
        ] + escaped_value(value@),
        EventKind::Alias { anchor } => "=ALI *"@ + anchor@,
    }).push('\n')
}

fn push_str(out: &mut Vec<char>, s: &str)
    ensures
        final(out)@ == old(out)@ + s@,
{
    push_chars(out, &str_chars(s));
}

/// Writes the characters of a scalar value escaped.
fn write_value(out: &mut Vec<char>, value: &Vec<char>)
    ensures
        final(out)@ == old(out)@ + escaped_value(value@),
{
    let mut i: usize = 0;
    while i < value.len()
        invariant
            i <= value.len(),
            out@ == old(out)@ + escaped_value(value@.take(i as int)),
        decreases value.len() - i,
    {
        let c = value[i];
        let ghost before = out@;
        if c == '\\' {
            out.push('\\');
            out.push('\\');
        } else if c == '\0' {
            out.push('\\');
            out.push('0');
        } else if c == '\x08' {
            out.push('\\');
            out.push('b');
        } else if c == '\t' {
            out.push('\\');
            out.push('t');
        } else if c == '\n' {
            out.push('\\');
            out.push('n');
        } else if c == '\r' {
            out.push('\\');
            out.push('r');
        } else {
            out.push(c);
        }
        assert(out@ =~= before + escaped_char(c));
        assert(value@.take(i + 1).drop_last() =~= value@.take(i as int));
        i = i + 1;
    }
    assert(value@.take(value.len() as int) =~= value@);
}

/// Writes the properties of a node.
pub fn write_props(out: &mut Vec<char>, props: &Props)
    ensures
        final(out)@ == old(out)@ + props_text(*props),
{
    let ghost start = out@;
    match &props.anchor {
        Some(anchor) => {
            out.push(' ');
            out.push('&');
            push_chars(out, anchor);
        },
        None => {},
    }
    let ghost middle = out@;
    match &props.tag {
        Some(tag) => {
            out.push(' ');
            out.push('<');
            push_chars(out, tag);
            out.push('>');
        },
        None => {},
    }
    assert(out@ =~= start + props_text(*props));
}

/// Writes the line of an event.
pub fn write_event(out: &mut Vec<char>, kind: &EventKind)
    ensures
        final(out)@ == old(out)@ + event_line(*kind),
{
    let ghost start = out@;
    proof {
        reveal_strlit("+STR");
        reveal_strlit("-STR");
        reveal_strlit("+DOC ---");
        reveal_strlit("+DOC");
        reveal_strlit("-DOC ...");
        reveal_strlit("-DOC");
        reveal_strlit("+SEQ []");
        reveal_strlit("+SEQ");
        reveal_strlit("-SEQ");
        reveal_strlit("+MAP {}");
        reveal_strlit("+MAP");
        reveal_strlit("-MAP");
        reveal_strlit("=VAL");
        reveal_strlit("=ALI *");
    }
    match kind {
        EventKind::StreamStart => push_str(out, "+STR"),
        EventKind::StreamEnd => push_str(out, "-STR"),
        EventKind::DocumentStart { explicit, .. } => push_str(
            out,
            if *explicit { "+DOC ---" } else { "+DOC" },
        ),
        EventKind::DocumentEnd { explicit } => push_str(
            out,
            if *explicit { "-DOC ..." } else { "-DOC" },
        ),
        EventKind::SequenceStart { props, flow } => {
            push_str(out, if *flow { "+SEQ []" } else { "+SEQ" });
            write_props(out, props);
        },
        EventKind::SequenceEnd => push_str(out, "-SEQ"),
        EventKind::MappingStart { props, flow } => {
            push_str(out, if *flow { "+MAP {}" } else { "+MAP" });
            write_props(out, props);
        },
        EventKind::MappingEnd => push_str(out, "-MAP"),
        EventKind::Scalar { props, style, value } => {
            push_str(out, "=VAL");
            write_props(out, props);
            out.push(' ');
            out.push(
                match style {
                    ScalarStyle::Plain => ':',
                    ScalarStyle::SingleQuoted => '\'',
                    ScalarStyle::DoubleQuoted => '"',
                    ScalarStyle::Literal => '|',
                    ScalarStyle::Folded => '>',
                },
            );
            write_value(out, value);
        },
        EventKind::Alias { anchor } => {
            push_str(out, "=ALI *");
            push_chars(out, anchor);
        },
    }
    out.push('\n');
    assert(out@ =~= start + event_line(*kind));
}

/// The lines of events.
pub open spec fn event_lines(kinds: Seq<EventKind>) -> Seq<char>
    decreases kinds.len(),
{
    if kinds.len() == 0 {
        Seq::empty()
    } else {
        event_lines(kinds.drop_last()) + event_line(kinds.last())
    }
}

/// Parses the input and renders the events in the format of the
/// `test.event` files of the YAML test suite.
///
/// Returns the rendered events (up to the error) and the error.
pub fn parse_to_test_events(input: &str) -> (r: (String, Option<String>))
    requires
        input@.len() <= MAX_INPUT_CHARS,
    ensures
        exists|kinds: Seq<EventKind>|
            {
                &&& r.0@ == event_lines(kinds)
                &&& kinds.len() <= MAX_EVENTS
                &&& r.1 is None ==> kinds.len() > 0 && kinds.last() is StreamEnd
                &&& forall|k: int| 0 <= k < kinds.len() - 1 ==> !(#[trigger] kinds[k] is StreamEnd)
                &&& kinds.len() > 0 && kinds[0] is StreamStart
                &&& quiet_from(input@, 0) ==> r.1 is None && kinds.len() == 2 && kinds[1] is StreamEnd
                &&& plain_document_at(input@, 0) ==> {
                    &&& r.1 is None && kinds.len() == 5
                    &&& kinds[1] == (EventKind::DocumentStart { explicit: false, version: None })
                    &&& kinds[2] matches EventKind::Scalar { props, style, value }
                    &&& props.anchor is None && props.tag is None
                    &&& style == ScalarStyle::Plain
                    &&& value@ == plain_text(input@, 0)
                    &&& kinds[3] == (EventKind::DocumentEnd { explicit: false })
                    &&& kinds[4] is StreamEnd
                }
            },
        r.1 is None ==> r.0@.len() >= 5 && r.0@.subrange(r.0@.len() - 5, r.0@.len() as int) == "-STR\n"@,
{
    let mut parser = Parser::new(input);
    let mut out: Vec<char> = Vec::new();
    let mut count: usize = 0;
    let ghost mut kinds: Seq<EventKind> = Seq::empty();
    let ghost blank = quiet_from(input@, 0);
    let ghost plain = plain_document_at(input@, 0);
    let ghost text = plain_text(input@, 0);
    while count < MAX_EVENTS
        invariant
            parser.wf(),
            !parser.is_done(),
            blank == quiet_from(input@, 0),
            plain == plain_document_at(input@, 0),
            text == plain_text(input@, 0),
            count == 0 ==> parser.at_stream_start(),
            count > 0 ==> kinds[0] is StreamStart,
            blank ==> count <= 1,
            blank && count == 0 ==> parser.blank_at_start(),
            blank && count == 1 ==> parser.blank_after_start(),
            plain ==> count <= 4,
            plain && count == 0 ==> parser.plain_doc_at_start() && parser.text_ahead() == text,
            plain && count == 1 ==> parser.plain_doc_ahead() && parser.text_ahead() == text,
            plain && count == 2 ==> parser.plain_node_ahead() && parser.node_text() == text,
            plain && count == 3 ==> parser.doc_end_ahead(),
            plain && count == 4 ==> parser.stream_end_ahead(),
            plain && count >= 2 ==> kinds[1] == (EventKind::DocumentStart { explicit: false, version: None }),
            plain && count >= 3 ==> (kinds[2] matches EventKind::Scalar { props, style, value }
                && props.anchor is None && props.tag is None && style == ScalarStyle::Plain && value@ == text),
            plain && count >= 4 ==> kinds[3] == (EventKind::DocumentEnd { explicit: false }),
            out@ == event_lines(kinds),
            kinds.len() == count,
            count <= MAX_EVENTS,
            forall|k: int| 0 <= k < kinds.len() ==> !(#[trigger] kinds[k] is StreamEnd),
        decreases MAX_EVENTS - count,
    {
        let event = match parser.next_event() {
            Ok(event) => event,
            Err(err) => return (chars_to_string(&out), Some(err.to_string())),
        };
        let ghost before = out@;
        write_event(&mut out, &event.kind);
        let ghost prev = kinds;
        proof {
            assert(kinds.push(event.kind).drop_last() =~= kinds);
            kinds = kinds.push(event.kind);
            assert(kinds[count as int] == event.kind);
            assert(forall|k: int| 0 <= k < prev.len() ==> kinds[k] == prev[k]);
            assert forall|k: int| 0 <= k < kinds.len() - 1 implies !(#[trigger] kinds[k] is StreamEnd) by {
                assert(kinds[k] == prev[k]);
            }
        }
        if matches!(event.kind, EventKind::StreamEnd) {
            proof {
                reveal_strlit("-STR");
                reveal_strlit("-STR\n");
                assert(out@.subrange(out@.len() - 5, out@.len() as int) =~= "-STR\n"@);
                assert(out@ == event_lines(kinds));
                assert(kinds.last() is StreamEnd);
                assert(kinds.len() <= MAX_EVENTS);
            }
            return (chars_to_string(&out), None);
        }
        count = count + 1;
    }
    (chars_to_string(&out), Some(String::from_str("too many events")))
}

} // verus!
