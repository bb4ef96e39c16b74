//! Recorded values that can be replayed later.
use vstd::prelude::*;

use crate::de::{DeEvent, EventSink};
use crate::error::Error;
use crate::model::{Atom, DataEvent};
use crate::text::copy_chars;

verus! {

/// The string of a recording that is a single string atom.
pub open spec fn single_string(events: Seq<DeEvent>) -> Option<Seq<char>> {
    if events.len() == 1 {
        match events[0].event {
            DataEvent::Atom(Atom::Str(t)) => Some(t@),
            _ => None,
        }
    } else {
        None
    }
}

/// The events of a value, with their ranges in the input, recorded to be
/// looked at or replayed once more of the input is known.
pub struct Recording {
    events: Vec<DeEvent>,
}

impl Recording {
    /// The recorded events.
    pub closed spec fn recorded(&self) -> Seq<DeEvent> {
        self.events@
    }

    /// Creates an empty recording.
    pub fn new() -> (r: Recording)
        ensures
            r.recorded().len() == 0,
    {
        Recording { events: Vec::new() }
    }

    /// Returns `true` if nothing was recorded.
    pub fn is_empty(&self) -> (b: bool)
        ensures
            b == (self.recorded().len() == 0),
    {
        self.events.len() == 0
    }

    /// Returns the recorded events.
    pub fn events(&self) -> (e: &[DeEvent])
        ensures
            e@ == self.recorded(),
    {
        self.events.as_slice()
    }

    /// Returns the value if the recording is a single string.  This is
    /// useful to look at recorded map keys.
    pub fn as_str(&self) -> (r: Option<Vec<char>>)
        ensures
            match r {
                Some(s) => single_string(self.recorded()) == Some(s@),
                None => single_string(self.recorded()) is None,
            },
    {
        if self.events.len() == 1 {
            match &self.events[0].event {
                DataEvent::Atom(Atom::Str(t)) => Some(copy_chars(t)),
                _ => None,
            }
        } else {
            None
        }
    }

    /// Feeds the recorded events into a sink, in the order they were
    /// recorded, up to the first error of the sink.  A recording survives
    /// the round trip: replayed into a sink that keeps its events (such as
    /// another recording), the sink gets exactly the recorded events.
    pub fn replay<S: EventSink>(self, sink: &mut S) -> (r: Result<(), Error>)
        ensures
            old(sink).keeps_events() ==> r is Ok && final(sink).keeps_events() && final(sink).kept() == old(
                sink,
            ).kept() + self.recorded(),
    {
        let ghost rec = self.recorded();
        let total = self.events.len();
        let ghost n = rec.len();
        let mut events = self.events;
        let mut rev: Vec<DeEvent> = Vec::new();
        while events.len() > 0
            invariant
                n == rec.len(),
                rev@.len() + events@.len() == n,
                events@ == rec.take(events@.len() as int),
                forall|i: int| 0 <= i < rev@.len() ==> #[trigger] rev@[i] == rec[n - 1 - i],
            decreases events.len(),
        {
            let ghost before = events@;
            let e = events.pop().unwrap();
            assert(e == rec[events@.len() as int]);
            assert(events@ =~= rec.take(events@.len() as int));
            rev.push(e);
        }
        let mut k: usize = 0;
        while rev.len() > 0
            invariant
                n == rec.len(),
                n == total,
                k <= n,
                rev@.len() + k == n,
                forall|i: int| 0 <= i < rev@.len() ==> #[trigger] rev@[i] == rec[n - 1 - i],
                old(sink).keeps_events() ==> sink.keeps_events() && sink.kept() == old(sink).kept() + rec.take(k as int),
            decreases rev.len(),
        {
            let e = rev.pop().unwrap();
            assert(e == rec[k as int]);
            match sink.event(e) {
                Ok(()) => {},
                Err(err) => return Err(err),
            }
            proof {
                assert(rec.take(k + 1) =~= rec.take(k as int).push(rec[k as int]));
                assert(old(sink).kept() + rec.take(k + 1) =~= (old(sink).kept() + rec.take(k as int)).push(rec[k as int]));
            }
            k = k + 1;
        }
        assert(rec.take(n as int) =~= rec);
        Ok(())
    }

    /// Discards the recorded value.
    pub fn clear(&mut self)
        ensures
            final(self).recorded().len() == 0,
    {
        self.events.clear();
    }
}

impl EventSink for Recording {
    open spec fn keeps_events(&self) -> bool {
        true
    }

    open spec fn kept(&self) -> Seq<DeEvent> {
        self.recorded()
    }

    /// Records an event.
    fn event(&mut self, event: DeEvent) -> (r: Result<(), Error>)
        ensures
            r is Ok,
            final(self).recorded() == old(self).recorded().push(event),
    {
        self.events.push(event);
        Ok(())
    }
}

} // verus!
