//! The shared correlation map: both projections the Reconciler publishes,
//! from post record key to event id and from event id to event. The map is
//! replaced atomically at the end of a run and read under the same mutex by
//! the like handlers.

use vstd::prelude::*;
use crate::event::{date_valid, Event};
use crate::strutil::str_eq;

verus! {

/// Both projections of the published events.
pub struct CorrelationMap {
    /// Post record key to event id.
    pub rkeys_to_ids: Vec<(String, String)>,
    /// The events themselves, looked up by id.
    pub events: Vec<Event>,
}

/// The id the key is correlated to: the first matching pair.
pub open spec fn lookup_id(pairs: Seq<(String, String)>, rkey: Seq<char>) -> Option<Seq<char>>
    decreases pairs.len(),
{
    if pairs.len() == 0 {
        None
    } else if pairs[0].0@ == rkey {
        Some(pairs[0].1@)
    } else {
        lookup_id(pairs.drop_first(), rkey)
    }
}

/// The event with the given id: the first match.
pub open spec fn lookup_event(events: Seq<Event>, id: Seq<char>) -> Option<Event>
    decreases events.len(),
{
    if events.len() == 0 {
        None
    } else if events[0].id@ == id {
        Some(events[0])
    } else {
        lookup_event(events.drop_first(), id)
    }
}

/// What the Reconciler maintains of the map: every correlated id belongs
/// to an event in the map, and every event carries dates the calendar
/// accepts.
pub open spec fn map_wf(m: CorrelationMap) -> bool {
    &&& forall|i: int|
        0 <= i < m.rkeys_to_ids@.len() ==> lookup_event(
            m.events@,
            (#[trigger] m.rkeys_to_ids@[i]).1@,
        ) is Some
    &&& forall|i: int|
        0 <= i < m.events@.len() ==> date_valid((#[trigger] m.events@[i]).end_date)
            && m.events@[i].end_date.year < i32::MAX
}

impl CorrelationMap {
    /// An empty map.
    pub fn new() -> (r: CorrelationMap)
        ensures
            r.rkeys_to_ids@.len() == 0,
            r.events@.len() == 0,
            map_wf(r),
    {
        CorrelationMap { rkeys_to_ids: Vec::new(), events: Vec::new() }
    }

    /// The event id a record key is correlated to, if any.
    pub fn id_for_rkey(&self, rkey: &str) -> (r: Option<&String>)
        ensures
            match r {
                Some(id) => lookup_id(self.rkeys_to_ids@, rkey@) == Some(id@),
                None => lookup_id(self.rkeys_to_ids@, rkey@) is None,
            },
    {
        let mut i: usize = 0;
        proof {
            assert(self.rkeys_to_ids@.skip(0) =~= self.rkeys_to_ids@);
        }
        while i < self.rkeys_to_ids.len()
            invariant
                0 <= i <= self.rkeys_to_ids@.len(),
                lookup_id(self.rkeys_to_ids@, rkey@) == lookup_id(
                    self.rkeys_to_ids@.skip(i as int),
                    rkey@,
                ),
            decreases self.rkeys_to_ids@.len() - i,
        {
            proof {
                let rest = self.rkeys_to_ids@.skip(i as int);
                assert(rest[0] == self.rkeys_to_ids@[i as int]);
                assert(rest.drop_first() =~= self.rkeys_to_ids@.skip(i as int + 1));
            }
            if str_eq(self.rkeys_to_ids[i].0.as_str(), rkey) {
                return Some(&self.rkeys_to_ids[i].1);
            }
            i = i + 1;
        }
        proof {
            assert(self.rkeys_to_ids@.skip(self.rkeys_to_ids@.len() as int)
                =~= Seq::<(String, String)>::empty());
        }
        None
    }

    /// The event with the given id, if any.
    pub fn event_for_id(&self, id: &str) -> (r: Option<&Event>)
        ensures
            match r {
                Some(e) => lookup_event(self.events@, id@) == Some(*e),
                None => lookup_event(self.events@, id@) is None,
            },
    {
        let mut i: usize = 0;
        proof {
            assert(self.events@.skip(0) =~= self.events@);
        }
        while i < self.events.len()
            invariant
                0 <= i <= self.events@.len(),
                lookup_event(self.events@, id@) == lookup_event(self.events@.skip(i as int), id@),
            decreases self.events@.len() - i,
        {
            proof {
                let rest = self.events@.skip(i as int);
                assert(rest[0] == self.events@[i as int]);
                assert(rest.drop_first() =~= self.events@.skip(i as int + 1));
            }
            if str_eq(self.events[i].id.as_str(), id) {
                return Some(&self.events[i]);
            }
            i = i + 1;
        }
        proof {
            assert(self.events@.skip(self.events@.len() as int) =~= Seq::<Event>::empty());
        }
        None
    }
}

/// An event found through the map keeps the map's well-formedness
/// guarantees: its dates are valid.
pub proof fn lemma_lookup_event_wf(m: CorrelationMap, id: Seq<char>)
    requires
        map_wf(m),
        lookup_event(m.events@, id) is Some,
    ensures
        date_valid(lookup_event(m.events@, id).unwrap().end_date),
        lookup_event(m.events@, id).unwrap().end_date.year < i32::MAX,
{
    lemma_lookup_event_index(m.events@, id);
}

proof fn lemma_lookup_event_index(events: Seq<Event>, id: Seq<char>)
    requires
        lookup_event(events, id) is Some,
    ensures
        exists|i: int|
            0 <= i < events.len() && events[i] == lookup_event(events, id).unwrap(),
    decreases events.len(),
{
    if events.len() > 0 {
        if events[0].id@ == id {
            assert(events[0] == lookup_event(events, id).unwrap());
        } else {
            lemma_lookup_event_index(events.drop_first(), id);
            let j = choose|j: int|
                0 <= j < events.drop_first().len() && events.drop_first()[j] == lookup_event(
                    events.drop_first(),
                    id,
                ).unwrap();
            assert(events[j + 1] == lookup_event(events, id).unwrap());
        }
    }
}

/// An id that some event carries is always found.
pub proof fn lemma_lookup_event_some(events: Seq<Event>, i: int)
    requires
        0 <= i < events.len(),
    ensures
        lookup_event(events, events[i].id@) is Some,
    decreases events.len(),
{
    if events.len() > 0 {
        if events[0].id@ == events[i].id@ {
        } else {
            assert(i != 0);
            assert(events.drop_first()[i - 1] == events[i]);
            lemma_lookup_event_some(events.drop_first(), i - 1);
        }
    }
}

} // verus!
