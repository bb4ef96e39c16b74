//! Layers between a format and the consumers of its data events: the
//! events that pass through them and the layer that limits the size of the
//! deserialized data.
use vstd::prelude::*;

use crate::error::{Error, ErrorKind};
use crate::model::{Atom, DataEvent};
use crate::text::{char_len_utf8, utf8_len, utf8_len_seq};

verus! {

/// An event that passes through the layers, and whether it borrows from
/// the data being deserialized.
pub struct LayerEvent {
    event: DataEvent,
    borrowed: bool,
}

impl LayerEvent {
    /// The event carried.
    pub closed spec fn data(&self) -> DataEvent {
        self.event
    }

    /// Whether the event borrows from the data being deserialized.
    pub closed spec fn borrows(&self) -> bool {
        self.borrowed
    }

    /// Creates an event that is only valid while it is processed.
    pub fn new(event: DataEvent) -> (e: LayerEvent)
        ensures
            e.data() == event,
            !e.borrows(),
    {
        LayerEvent { event, borrowed: false }
    }

    /// Creates an event that borrows from the data being deserialized.
    pub fn borrowed(event: DataEvent) -> (e: LayerEvent)
        ensures
            e.data() == event,
            e.borrows(),
    {
        LayerEvent { event, borrowed: true }
    }

    /// Returns the event.
    pub fn event(&self) -> (e: &DataEvent)
        ensures
            *e == self.data(),
    {
        &self.event
    }

    /// Returns `true` if the event borrows from the data being deserialized.
    pub fn is_borrowed(&self) -> (b: bool)
        ensures
            b == self.borrows(),
    {
        self.borrowed
    }
}

/// A limit that an event exceeds.
#[derive(Debug, Clone, Copy, PartialEq, Eq, Structural)]
pub enum Exceeded {
    Events,
    Depth,
    Items,
    Length,
}

/// The message of the error for an exceeded limit.
pub open spec fn exceeded_message(x: Exceeded) -> Seq<char> {
    match x {
        Exceeded::Events => "too many events"@,
        Exceeded::Depth => "recursion limit exceeded"@,
        Exceeded::Items => "too many items"@,
        Exceeded::Length => "string or bytes too long"@,
    }
}

/// A layer that limits the size of the deserialized data: the nesting
/// depth of maps and sequences, the number of events, the number of items
/// of a sequence or entries of a map, and the length of strings and bytes.
/// All limits are off by default.
#[derive(Debug, Clone)]
pub struct Limits {
    max_depth: Option<usize>,
    max_events: Option<usize>,
    max_items: Option<usize>,
    max_len: Option<usize>,
    events: usize,
    // for each open container while items are limited: is it a map, and
    // how many items it has
    items: Vec<(bool, usize)>,
}

/// A count plus one, which stays at the largest `usize`.
pub open spec fn bump(n: usize) -> usize {
    if n < usize::MAX {
        (n + 1) as usize
    } else {
        n
    }
}

/// The length of a string in UTF-8 bytes, of bytes in bytes; other atoms
/// have no length.
pub open spec fn atom_len(a: Atom) -> nat {
    match a {
        Atom::Str(s) => utf8_len_seq(s@),
        Atom::Bytes(b) => b@.len(),
        _ => 0,
    }
}

/// Counts an item in the innermost open container while items are
/// limited: entries of a map count at their key.  Returns the new counts
/// and whether the container now has more items than allowed.
pub open spec fn counted_item(items: Seq<(bool, usize)>, limit: Option<usize>, is_map_key: bool) -> (
    Seq<(bool, usize)>,
    bool,
) {
    match limit {
        Some(max) => if items.len() > 0 && (!items.last().0 || is_map_key) {
            let c = bump(items.last().1);
            (items.update(items.len() - 1, (items.last().0, c)), c > max)
        } else {
            (items, false)
        },
        None => (items, false),
    }
}


/// What a layer with the limits of `l` does with an event, given whether
/// it is (the start of) a map key and the number of open containers: the
/// new event count, the new item counts, and the limit that the event
/// exceeds, if any.  Limits are checked in this order: events, then depth
/// (starts of maps and sequences) or length (atoms), then items.
pub open spec fn limits_step(l: Limits, event: DataEvent, is_map_key: bool, depth: usize) -> (
    usize,
    Seq<(bool, usize)>,
    Option<Exceeded>,
) {
    let events = match l.event_limit() {
        Some(_) => bump(l.event_count()),
        None => l.event_count(),
    };
    let items = l.item_counts();
    let too_many_events = match l.event_limit() {
        Some(max) => events > max,
        None => false,
    };
    if too_many_events {
        (events, items, Some(Exceeded::Events))
    } else {
        match event {
            DataEvent::MapStart | DataEvent::SeqStart => {
                let too_deep = match l.depth_limit() {
                    Some(max) => depth >= max,
                    None => false,
                };
                if too_deep {
                    (events, items, Some(Exceeded::Depth))
                } else {
                    let (counted, over) = counted_item(items, l.item_limit(), is_map_key);
                    if over {
                        (events, counted, Some(Exceeded::Items))
                    } else if l.item_limit() is Some {
                        (events, counted.push((event is MapStart, 0usize)), None)
                    } else {
                        (events, counted, None)
                    }
                }
            },
            DataEvent::MapEnd | DataEvent::SeqEnd => {
                (events, if items.len() > 0 { items.drop_last() } else { items }, None)
            },
            DataEvent::Atom(a) => {
                let too_long = match l.len_limit() {
                    Some(max) => atom_len(a) > max,
                    None => false,
                };
                if too_long {
                    (events, items, Some(Exceeded::Length))
                } else {
                    let (counted, over) = counted_item(items, l.item_limit(), is_map_key);
                    (events, counted, if over { Some(Exceeded::Items) } else { None })
                }
            },
        }
    }
}

/// Tells if a string is longer than `max` bytes in UTF-8.
fn longer_than(s: &Vec<char>, max: usize) -> (r: bool)
    ensures
        r == (utf8_len_seq(s@) > max),
{
    let mut total: u128 = 0;
    let mut i: usize = 0;
    while i < s.len()
        invariant
            i <= s@.len(),
            total == utf8_len_seq(s@.take(i as int)),
            total <= max,
        decreases s@.len() - i,
    {
        assert(s@.take(i + 1).drop_last() =~= s@.take(i as int));
        total = total + char_len_utf8(s[i]) as u128;
        i = i + 1;
        if total > max as u128 {
            proof {
                lemma_utf8_len_prefix(s@, i as int);
            }
            return true;
        }
    }
    assert(s@.take(i as int) =~= s@);
    false
}

/// A prefix is no longer in UTF-8 than the whole.
proof fn lemma_utf8_len_prefix(s: Seq<char>, n: int)
    requires
        0 <= n <= s.len(),
    ensures
        utf8_len_seq(s.take(n)) <= utf8_len_seq(s),
    decreases s.len() - n,
{
    if n < s.len() {
        lemma_utf8_len_prefix(s, n + 1);
        assert(s.take(n + 1).drop_last() =~= s.take(n));
    } else {
        assert(s.take(n) =~= s);
    }
}

/// The length of an atom exceeds `max`.
fn atom_longer_than(a: &Atom, max: usize) -> (r: bool)
    ensures
        r == (atom_len(*a) > max),
{
    match a {
        Atom::Str(s) => longer_than(s, max),
        Atom::Bytes(b) => b.len() > max,
        _ => false,
    }
}

fn limit_error(x: Exceeded) -> (e: Error)
    ensures
        e.kind == ErrorKind::Unexpected,
        e.message@ == exceeded_message(x),
        e.position is None,
{
    proof {
        reveal_strlit("too many events");
        reveal_strlit("recursion limit exceeded");
        reveal_strlit("too many items");
        reveal_strlit("string or bytes too long");
    }
    match x {
        Exceeded::Events => Error::new(ErrorKind::Unexpected, "too many events"),
        Exceeded::Depth => Error::new(ErrorKind::Unexpected, "recursion limit exceeded"),
        Exceeded::Items => Error::new(ErrorKind::Unexpected, "too many items"),
        Exceeded::Length => Error::new(ErrorKind::Unexpected, "string or bytes too long"),
    }
}

impl Limits {
    pub closed spec fn depth_limit(&self) -> Option<usize> {
        self.max_depth
    }

    pub closed spec fn event_limit(&self) -> Option<usize> {
        self.max_events
    }

    pub closed spec fn item_limit(&self) -> Option<usize> {
        self.max_items
    }

    pub closed spec fn len_limit(&self) -> Option<usize> {
        self.max_len
    }

    /// The number of events seen while events are limited.
    pub closed spec fn event_count(&self) -> usize {
        self.events
    }

    /// For each open container while items are limited: is it a map, and
    /// its number of items.
    pub closed spec fn item_counts(&self) -> Seq<(bool, usize)> {
        self.items@
    }

    /// The limits are those of `other`.
    pub open spec fn same_limits(&self, other: Limits) -> bool {
        &&& self.depth_limit() == other.depth_limit()
        &&& self.event_limit() == other.event_limit()
        &&& self.item_limit() == other.item_limit()
        &&& self.len_limit() == other.len_limit()
    }

    /// Creates a layer without limits.
    pub fn new() -> (l: Limits)
        ensures
            l.depth_limit() is None,
            l.event_limit() is None,
            l.item_limit() is None,
            l.len_limit() is None,
            l.event_count() == 0,
            l.item_counts().len() == 0,
    {
        Limits {
            max_depth: None,
            max_events: None,
            max_items: None,
            max_len: None,
            events: 0,
            items: Vec::new(),
        }
    }

    /// Limits the nesting depth of maps and sequences.  With a depth of 1,
    /// maps and sequences cannot contain other maps and sequences.
    pub fn max_depth(self, depth: usize) -> (l: Limits)
        ensures
            l.depth_limit() == Some(depth),
            l.event_limit() == self.event_limit(),
            l.item_limit() == self.item_limit(),
            l.len_limit() == self.len_limit(),
            l.event_count() == self.event_count(),
            l.item_counts() == self.item_counts(),
    {
        Limits { max_depth: Some(depth), ..self }
    }

    /// Limits the total number of events: every atom and every start and
    /// end of a map or sequence counts.
    pub fn max_events(self, events: usize) -> (l: Limits)
        ensures
            l.event_limit() == Some(events),
            l.depth_limit() == self.depth_limit(),
            l.item_limit() == self.item_limit(),
            l.len_limit() == self.len_limit(),
            l.event_count() == self.event_count(),
            l.item_counts() == self.item_counts(),
    {
        Limits { max_events: Some(events), ..self }
    }

    /// Limits the number of items in a sequence and entries in a map.
    pub fn max_items(self, items: usize) -> (l: Limits)
        ensures
            l.item_limit() == Some(items),
            l.depth_limit() == self.depth_limit(),
            l.event_limit() == self.event_limit(),
            l.len_limit() == self.len_limit(),
            l.event_count() == self.event_count(),
            l.item_counts() == self.item_counts(),
    {
        Limits { max_items: Some(items), ..self }
    }

    /// Limits the length of strings and bytes (in bytes).
    pub fn max_len(self, len: usize) -> (l: Limits)
        ensures
            l.len_limit() == Some(len),
            l.depth_limit() == self.depth_limit(),
            l.event_limit() == self.event_limit(),
            l.item_limit() == self.item_limit(),
            l.event_count() == self.event_count(),
            l.item_counts() == self.item_counts(),
    {
        Limits { max_len: Some(len), ..self }
    }

    /// Accounts for an item in the current container.
    fn count_item(&mut self, is_map_key: bool) -> (over: bool)
        ensures
            final(self).same_limits(*old(self)),
            final(self).event_count() == old(self).event_count(),
            (final(self).item_counts(), over) == counted_item(
                old(self).item_counts(),
                old(self).item_limit(),
                is_map_key,
            ),
    {
        match self.max_items {
            Some(max) => {
                let n = self.items.len();
                if n > 0 {
                    let (is_map, count) = self.items[n - 1];
                    if !is_map || is_map_key {
                        let c = if count < usize::MAX {
                            count + 1
                        } else {
                            count
                        };
                        self.items.set(n - 1, (is_map, c));
                        return c > max;
                    }
                }
                false
            },
            None => false,
        }
    }
    /// Processes an event, given whether it is (the start of) a map key
    /// and the number of open containers.  `Ok` passes the event on; an
    /// error rejects it.  Counts stay at the largest `usize` once there.
    pub fn event(&mut self, event: &DataEvent, is_map_key: bool, depth: usize) -> (r: Result<(), Error>)
        ensures
            final(self).same_limits(*old(self)),
            final(self).event_count() == limits_step(*old(self), *event, is_map_key, depth).0,
            final(self).item_counts() == limits_step(*old(self), *event, is_map_key, depth).1,
            r is Ok <==> limits_step(*old(self), *event, is_map_key, depth).2 is None,
            limits_step(*old(self), *event, is_map_key, depth).2 matches Some(x) ==> (r matches Err(e)
                && e.kind == ErrorKind::Unexpected && e.message@ == exceeded_message(x) && e.position is None),
    {
        if let Some(max) = self.max_events {
            if self.events < usize::MAX {
                self.events = self.events + 1;
            }
            if self.events > max {
                return Err(limit_error(Exceeded::Events));
            }
        }
        match event {
            DataEvent::MapStart | DataEvent::SeqStart => {
                if let Some(max) = self.max_depth {
                    if depth >= max {
                        return Err(limit_error(Exceeded::Depth));
                    }
                }
                if self.count_item(is_map_key) {
                    return Err(limit_error(Exceeded::Items));
                }
                if self.max_items.is_some() {
                    let is_map = match event {
                        DataEvent::MapStart => true,
                        _ => false,
                    };
                    self.items.push((is_map, 0));
                }
            },
            DataEvent::MapEnd | DataEvent::SeqEnd => {
                self.items.pop();
            },
            DataEvent::Atom(atom) => {
                if let Some(max) = self.max_len {
                    if atom_longer_than(atom, max) {
                        return Err(limit_error(Exceeded::Length));
                    }
                }
                if self.count_item(is_map_key) {
                    return Err(limit_error(Exceeded::Items));
                }
            },
        }
        Ok(())
    }
}

impl Default for Limits {
    fn default() -> (l: Limits)
        ensures
            l.depth_limit() is None,
            l.event_limit() is None,
            l.item_limit() is None,
            l.len_limit() is None,
            l.event_count() == 0,
            l.item_counts().len() == 0,
    {
        Limits::new()
    }
}

/// Without limits every event passes, and nothing is counted.
pub proof fn lemma_no_limits_pass(l: Limits, event: DataEvent, is_map_key: bool, depth: usize)
    requires
        l.depth_limit() is None,
        l.event_limit() is None,
        l.item_limit() is None,
        l.len_limit() is None,
    ensures
        limits_step(l, event, is_map_key, depth).2 is None,
        limits_step(l, event, is_map_key, depth).0 == l.event_count(),
{
}

/// The end of a map or sequence is only ever rejected for the number of
/// events, and then only once more events than allowed were seen.
pub proof fn lemma_end_passes(l: Limits, event: DataEvent, is_map_key: bool, depth: usize)
    requires
        event is MapEnd || event is SeqEnd,
    ensures
        limits_step(l, event, is_map_key, depth).2 is None || limits_step(l, event, is_map_key, depth).2
            == Some(Exceeded::Events),
        l.event_limit() is None ==> limits_step(l, event, is_map_key, depth).2 is None,
{
}

/// A map or sequence that would open more than `max` levels deep is
/// rejected: with a depth limit of 1 maps and sequences cannot contain
/// other maps and sequences.
pub proof fn lemma_depth_limit(l: Limits, event: DataEvent, is_map_key: bool, depth: usize, max: usize)
    requires
        event is MapStart || event is SeqStart,
        l.depth_limit() == Some(max),
        depth >= max,
    ensures
        limits_step(l, event, is_map_key, depth).2 is Some,
{
}

} // verus!
