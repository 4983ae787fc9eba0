//! The Reconciler: makes the published labeler service record and its
//! per-event posts reflect the external event listing, and rebuilds the
//! correlation map. The whole run is a function from the fetched listing,
//! the old definitions, the probed record keys and the clock to a batch of
//! repository writes and the new map; the network sits outside.

use vstd::prelude::*;
use crate::event::{date_le, date_valid, Date, Event};
use crate::slug::{lang_for_region_of, spec_slugify, try_slugify_for_label};
use crate::strutil::str_eq;

verus! {

/// One event as the external listing reports it.
pub struct EventInput {
    pub id: String,
    pub name: String,
    pub venue: String,
    pub address: Option<String>,
    pub country: Option<String>,
    pub start_date: Date,
    pub end_date: Date,
    pub timezone: Option<String>,
}

/// The mathematical shape of a listing entry.
#[verifier::ext_equal]
pub ghost struct EventInputView {
    pub id: Seq<char>,
    pub name: Seq<char>,
    pub venue: Seq<char>,
    pub address: Option<Seq<char>>,
    pub country: Option<Seq<char>>,
    pub start_date: Date,
    pub end_date: Date,
    pub timezone: Option<Seq<char>>,
}

impl View for EventInput {
    type V = EventInputView;

    open spec fn view(&self) -> EventInputView {
        EventInputView {
            id: self.id@,
            name: self.name@,
            venue: self.venue@,
            address: match self.address {
                Some(a) => Some(a@),
                None => None,
            },
            country: match self.country {
                Some(c) => Some(c@),
                None => None,
            },
            start_date: self.start_date,
            end_date: self.end_date,
            timezone: match self.timezone {
                Some(t) => Some(t@),
                None => None,
            },
        }
    }
}

/// The mathematical shape of a catalog event.
#[verifier::ext_equal]
pub ghost struct EventView {
    pub id: Seq<char>,
    pub name: Seq<char>,
    pub venue: Seq<char>,
    pub address: Option<Seq<char>>,
    pub country: Option<Seq<char>>,
    pub start_date: Date,
    pub end_date: Date,
    pub timezone: Option<Seq<char>>,
    pub label_id: Seq<char>,
    pub rkey: Option<Seq<char>>,
}

impl View for Event {
    type V = EventView;

    open spec fn view(&self) -> EventView {
        EventView {
            id: self.id@,
            name: self.name@,
            venue: self.venue@,
            address: match self.address {
                Some(a) => Some(a@),
                None => None,
            },
            country: match self.country {
                Some(c) => Some(c@),
                None => None,
            },
            start_date: self.start_date,
            end_date: self.end_date,
            timezone: match self.timezone {
                Some(t) => Some(t@),
                None => None,
            },
            label_id: self.label_id@,
            rkey: match self.rkey {
                Some(r) => Some(r@),
                None => None,
            },
        }
    }
}

/// One label-value definition read back from the old service record, with
/// its extension fields.
pub struct OldDef {
    pub identifier: String,
    pub post_rkey: Option<String>,
    pub event_id: String,
}

/// The mathematical shape of an old definition.
#[verifier::ext_equal]
pub ghost struct OldDefView {
    pub identifier: Seq<char>,
    pub post_rkey: Option<Seq<char>>,
    pub event_id: Seq<char>,
}

impl View for OldDef {
    type V = OldDefView;

    open spec fn view(&self) -> OldDefView {
        OldDefView {
            identifier: self.identifier@,
            post_rkey: match self.post_rkey {
                Some(r) => Some(r@),
                None => None,
            },
            event_id: self.event_id@,
        }
    }
}

/// The views of a vector of events.
pub open spec fn views_of(s: Seq<Event>) -> Seq<EventView> {
    s.map_values(|x: Event| x@)
}

/// One digit of the sortable base-32 alphabet `234567abcdefghijklmnopqrstuvwxyz`.
pub open spec fn s32_char(d: int) -> char {
    if d % 32 < 6 {
        ((50 + d % 32) as u8) as char
    } else {
        ((97 + d % 32 - 6) as u8) as char
    }
}

/// A timestamp identifier, the record key scheme of the labeler's posts:
/// thirteen sortable base-32 digits of the microsecond timestamp shifted
/// up by the ten clock-id bits, which are zero here. Distinct timestamps
/// below 2^53 spell distinct identifiers. Opaque: the callers only carry
/// the spelling, they never look inside it.
#[verifier::opaque]
pub open spec fn tid_of(micros: int) -> Seq<char> {
    let v = micros * 1024;
    seq![
        s32_char(v / 1152921504606846976),
        s32_char(v / 36028797018963968),
        s32_char(v / 1125899906842624),
        s32_char(v / 35184372088832),
        s32_char(v / 1099511627776),
        s32_char(v / 34359738368),
        s32_char(v / 1073741824),
        s32_char(v / 33554432),
        s32_char(v / 1048576),
        s32_char(v / 32768),
        s32_char(v / 1024),
        s32_char(v / 32),
        s32_char(v),
    ]
}

/// Relies on `atrium_api::types::string::Tid::from_datetime` with clock
/// id zero: below 2^53 microseconds the mask over the shifted timestamp
/// keeps every bit, so the identifier is exactly the thirteen-digit
/// base-32 spelling of the timestamp times 1024.
#[verifier::external_body]
pub fn tid_from_micros(micros: i64) -> (r: String)
    requires
        0 <= micros < 0x20000000000000,
    ensures
        r@ == tid_of(micros as int),
{
    let clkid: atrium_api::types::LimitedU32<1023> = 0u32.try_into().unwrap();
    let time = chrono::DateTime::from_timestamp_micros(micros).unwrap();
    atrium_api::types::string::Tid::from_datetime(clkid, time).to_string()
}

/// The language a listing entry's slug is computed under: guessed from its
/// country, unknown when it has none.
pub open spec fn spec_lang_of(country: Option<Seq<char>>) -> Seq<char> {
    match country {
        Some(c) => lang_for_region_of(c),
        None => "und"@,
    }
}

/// What a listing entry becomes when it is taken up: its fields, the slug
/// of its name as label id, and no record key yet.
pub open spec fn spec_ingest_one(e: EventInputView) -> EventView {
    EventView {
        id: e.id,
        name: e.name,
        venue: e.venue,
        address: e.address,
        country: e.country,
        start_date: e.start_date,
        end_date: e.end_date,
        timezone: e.timezone,
        label_id: spec_slugify(e.name, spec_lang_of(e.country)),
        rkey: None,
    }
}

/// Whether a listing entry is its id's last occurrence: a later entry with
/// the same id shadows it, as insertion into a map keyed by id would.
pub open spec fn last_of_id(listing: Seq<EventInput>, i: int) -> bool {
    forall|j: int| i < j < listing.len() ==> (#[trigger] listing[j])@.id != listing[i]@.id
}

/// Whether a listing entry is taken up: it is its id's last occurrence,
/// both dates exist with four-digit years, its name can be slugged, and
/// its end has not passed.
pub open spec fn keeps_entry(listing: Seq<EventInput>, i: int, now: int) -> bool {
    &&& last_of_id(listing, i)
    &&& event_dates_ok(listing[i]@.start_date, listing[i]@.end_date)
    &&& crate::slug::runs_fit(
        crate::slug::ascii_lower(
            crate::slug::folded_of(listing[i]@.name, spec_lang_of(listing[i]@.country)),
        ),
    )
    &&& crate::event::spec_is_current(listing[i]@.end_date, listing[i]@.timezone, now)
}

/// The events the listing yields from position `i` on: exactly the taken
/// up entries, in listing order.
pub open spec fn spec_ingest_from(listing: Seq<EventInput>, now: int, i: int) -> Seq<EventView>
    decreases listing.len() - i when 0 <= i <= listing.len()
{
    if i >= listing.len() {
        Seq::<EventView>::empty()
    } else if keeps_entry(listing, i, now) {
        seq![spec_ingest_one(listing[i]@)] + spec_ingest_from(listing, now, i + 1)
    } else {
        spec_ingest_from(listing, now, i + 1)
    }
}

/// The events the listing yields.
pub open spec fn spec_ingest(listing: Seq<EventInput>, now: int) -> Seq<EventView> {
    spec_ingest_from(listing, now, 0)
}

/// Ingests the listing: exactly the entries that are the last occurrence
/// of their id, carry valid four-digit dates, a sluggable name and a
/// current end time become events, in listing order, each with its label
/// id and no record key. Anything else is dropped, as malformed or
/// shadowed external input is.
pub fn ingest_listing(listing: &Vec<EventInput>, now_us: i64) -> (r: Vec<Event>)
    ensures
        views_of(r@) == spec_ingest(listing@, now_us as int),
        forall|i: int|
            0 <= i < r@.len() ==> (#[trigger] r@[i])@.rkey is None && event_dates_ok(
                r@[i].start_date,
                r@[i].end_date,
            ) && crate::event::spec_is_current(
                r@[i].end_date,
                r@[i]@.timezone,
                now_us as int,
            ),
{
    let mut r: Vec<Event> = Vec::new();
    let mut i: usize = 0;
    proof {
        assert(Seq::<EventView>::empty() + spec_ingest(listing@, now_us as int) =~= spec_ingest(
            listing@,
            now_us as int,
        ));
    }
    while i < listing.len()
        invariant
            0 <= i <= listing@.len(),
            views_of(r@) + spec_ingest_from(listing@, now_us as int, i as int) == spec_ingest(
                listing@,
                now_us as int,
            ),
            forall|k: int|
                0 <= k < r@.len() ==> (#[trigger] r@[k])@.rkey is None && event_dates_ok(
                    r@[k].start_date,
                    r@[k].end_date,
                ) && crate::event::spec_is_current(
                    r@[k].end_date,
                    r@[k]@.timezone,
                    now_us as int,
                ),
        decreases listing@.len() - i,
    {
        let ghost pre = views_of(r@);
        let e = &listing[i];
        let mut is_last = true;
        let mut j: usize = i + 1;
        while j < listing.len()
            invariant
                i < j <= listing@.len(),
                is_last ==> forall|k: int|
                    i < k < j ==> (#[trigger] listing@[k])@.id != listing@[i as int]@.id,
                !is_last ==> !last_of_id(listing@, i as int),
            decreases listing@.len() - j,
        {
            if str_eq(listing[j].id.as_str(), listing[i].id.as_str()) {
                proof {
                    assert(listing@[j as int]@.id == listing@[i as int]@.id);
                }
                is_last = false;
            }
            j = j + 1;
        }
        let mut kept = false;
        if is_last && e.month_day_ok() {
            let lang = match &e.country {
                Some(c) => crate::slug::guess_language_for_region(c.as_str()),
                None => "und".to_owned(),
            };
            proof {
                reveal_strlit("und");
            }
            match try_slugify_for_label(e.name.as_str(), lang.as_str()) {
                Some(label_id) => {
                    let ev = Event {
                        id: e.id.clone(),
                        name: e.name.clone(),
                        venue: e.venue.clone(),
                        address: match &e.address {
                            Some(a) => Some(a.clone()),
                            None => None,
                        },
                        country: match &e.country {
                            Some(c) => Some(c.clone()),
                            None => None,
                        },
                        start_date: e.start_date,
                        end_date: e.end_date,
                        timezone: match &e.timezone {
                            Some(t) => Some(t.clone()),
                            None => None,
                        },
                        label_id,
                        rkey: None,
                    };
                    if ev.is_current(now_us) {
                        proof {
                            assert(keeps_entry(listing@, i as int, now_us as int));
                            assert(ev@ =~= spec_ingest_one(listing@[i as int]@));
                        }
                        r.push(ev);
                        kept = true;
                    }
                },
                None => {},
            }
        }
        proof {
            reveal_strlit("und");
            let now = now_us as int;
            if kept {
                assert(views_of(r@) =~= pre + seq![spec_ingest_one(listing@[i as int]@)]);
                assert(pre + (seq![spec_ingest_one(listing@[i as int]@)] + spec_ingest_from(
                    listing@,
                    now,
                    i as int + 1,
                )) =~= views_of(r@) + spec_ingest_from(listing@, now, i as int + 1));
            } else {
                assert(!keeps_entry(listing@, i as int, now));
            }
        }
        i = i + 1;
    }
    proof {
        assert(views_of(r@) + Seq::<EventView>::empty() =~= views_of(r@));
    }
    r
}

/// Taken up entries carry distinct ids: of duplicate listing ids only the
/// last occurrence survives, so the events form a set keyed by id.
pub proof fn lemma_ingest_ids_unique(listing: Seq<EventInput>, now: int, i: int)
    requires
        0 <= i <= listing.len(),
    ensures
        forall|a: int, b: int|
            0 <= a < b < spec_ingest_from(listing, now, i).len() ==> (#[trigger] spec_ingest_from(
                listing,
                now,
                i,
            )[a]).id != (#[trigger] spec_ingest_from(listing, now, i)[b]).id,
    decreases listing.len() - i,
{
    if i < listing.len() {
        lemma_ingest_ids_unique(listing, now, i + 1);
        if keeps_entry(listing, i, now) {
            let rest = spec_ingest_from(listing, now, i + 1);
            assert forall|b: int| 0 <= b < rest.len() implies (#[trigger] rest[b]).id
                != listing[i]@.id by {
                lemma_ingest_member(listing, now, i + 1, b);
                let m = choose|m: int|
                    i + 1 <= m < listing.len() && keeps_entry(listing, m, now) && rest[b]
                        == spec_ingest_one(listing[m]@);
                assert(listing[m]@.id != listing[i]@.id);
            }
        }
    }
}

proof fn lemma_ingest_member(listing: Seq<EventInput>, now: int, i: int, a: int)
    requires
        0 <= i <= listing.len(),
        0 <= a < spec_ingest_from(listing, now, i).len(),
    ensures
        exists|m: int|
            i <= m < listing.len() && keeps_entry(listing, m, now) && spec_ingest_from(
                listing,
                now,
                i,
            )[a] == spec_ingest_one(listing[m]@),
    decreases listing.len() - i,
{
    if i < listing.len() {
        if keeps_entry(listing, i, now) {
            if a == 0 {
                assert(spec_ingest_from(listing, now, i)[a] == spec_ingest_one(listing[i]@));
            } else {
                lemma_ingest_member(listing, now, i + 1, a - 1);
                let m = choose|m: int|
                    i + 1 <= m < listing.len() && keeps_entry(listing, m, now)
                        && spec_ingest_from(listing, now, i + 1)[a - 1] == spec_ingest_one(
                        listing[m]@,
                    );
                assert(spec_ingest_from(listing, now, i)[a] == spec_ingest_one(listing[m]@));
            }
        } else {
            lemma_ingest_member(listing, now, i + 1, a);
        }
    }
}

/// The calendar range the published records can carry: both dates exist
/// and their years have four digits.
pub open spec fn event_dates_ok(start: Date, end: Date) -> bool {
    &&& date_valid(start)
    &&& date_valid(end)
    &&& 0 <= start.year <= 9999
    &&& 0 <= end.year <= 9999
}

impl EventInput {
    /// Whether both dates exist on the calendar and their years have four
    /// digits.
    pub fn month_day_ok(&self) -> (r: bool)
        ensures
            r == event_dates_ok(self.start_date, self.end_date),
    {
        let s = &self.start_date;
        let e = &self.end_date;
        date_fields_ok(s) && date_fields_ok(e) && 0 <= s.year && s.year <= 9999 && 0 <= e.year
            && e.year <= 9999
    }
}

fn date_fields_ok(d: &Date) -> (r: bool)
    ensures
        r == date_valid(*d),
{
    if d.month < 1 || d.month > 12 {
        return false;
    }
    let dim: u8 = if d.month == 2 {
        if (d.year % 4 == 0 && d.year % 100 != 0) || d.year % 400 == 0 {
            29
        } else {
            28
        }
    } else if d.month == 4 || d.month == 6 || d.month == 9 || d.month == 11 {
        30
    } else {
        31
    };
    1 <= d.day && d.day <= dim
}

/// The creation-order key: events are published ascending by start date,
/// end date, then id.
pub open spec fn event_key_lt(a: EventView, b: EventView) -> bool {
    if a.start_date != b.start_date {
        date_le(a.start_date, b.start_date)
    } else if a.end_date != b.end_date {
        date_le(a.end_date, b.end_date)
    } else {
        char_seq_lt(a.id, b.id)
    }
}

/// Lexicographic order on character sequences.
pub open spec fn char_seq_lt(a: Seq<char>, b: Seq<char>) -> bool
    decreases a.len(),
{
    if b.len() == 0 {
        false
    } else if a.len() == 0 {
        true
    } else if a[0] != b[0] {
        a[0] < b[0]
    } else {
        char_seq_lt(a.drop_first(), b.drop_first())
    }
}

fn str_lt(a: &str, b: &str) -> (r: bool)
    ensures
        r == char_seq_lt(a@, b@),
{
    let an = a.unicode_len();
    let bn = b.unicode_len();
    let mut i: usize = 0;
    proof {
        assert(a@.skip(0) =~= a@);
        assert(b@.skip(0) =~= b@);
    }
    while i < an && i < bn
        invariant
            0 <= i,
            i <= an,
            i <= bn,
            an == a@.len(),
            bn == b@.len(),
            char_seq_lt(a@, b@) == char_seq_lt(a@.skip(i as int), b@.skip(i as int)),
        decreases an - i,
    {
        proof {
            let ra = a@.skip(i as int);
            let rb = b@.skip(i as int);
            assert(ra[0] == a@[i as int] && rb[0] == b@[i as int]);
            assert(ra.drop_first() =~= a@.skip(i as int + 1));
            assert(rb.drop_first() =~= b@.skip(i as int + 1));
        }
        let ca = a.get_char(i);
        let cb = b.get_char(i);
        if ca != cb {
            return ca < cb;
        }
        i = i + 1;
    }
    proof {
        if i >= an {
            assert(a@.skip(i as int) =~= Seq::<char>::empty());
        }
        if i >= bn {
            assert(b@.skip(i as int) =~= Seq::<char>::empty());
        }
    }
    i >= an && i < bn
}

fn event_lt(a: &Event, b: &Event) -> (r: bool)
    ensures
        r == event_key_lt(a@, b@),
{
    let sa = &a.start_date;
    let sb = &b.start_date;
    if !(sa.year == sb.year && sa.month == sb.month && sa.day == sb.day) {
        return a.start_date.le(&b.start_date);
    }
    let ea = &a.end_date;
    let eb = &b.end_date;
    if !(ea.year == eb.year && ea.month == eb.month && ea.day == eb.day) {
        return a.end_date.le(&b.end_date);
    }
    str_lt(a.id.as_str(), b.id.as_str())
}

/// Where an event stands once inserted into an already ordered sequence:
/// before the first entry it precedes.
pub open spec fn spec_insert_event(sorted: Seq<EventView>, e: EventView) -> Seq<EventView>
    decreases sorted.len(),
{
    if sorted.len() == 0 {
        seq![e]
    } else if event_key_lt(e, sorted[0]) {
        seq![e] + sorted
    } else {
        seq![sorted[0]] + spec_insert_event(sorted.drop_first(), e)
    }
}

/// The creation order of a set of events: each inserted in turn.
pub open spec fn spec_sort_events(s: Seq<EventView>) -> Seq<EventView>
    decreases s.len(),
{
    if s.len() == 0 {
        Seq::<EventView>::empty()
    } else {
        spec_insert_event(spec_sort_events(s.drop_last()), s.last())
    }
}

fn insert_event(sorted: &mut Vec<Event>, e: Event)
    ensures
        views_of(final(sorted)@) == spec_insert_event(views_of(old(sorted)@), e@),
{
    let ghost orig = views_of(old(sorted)@);
    let mut j: usize = 0;
    proof {
        assert(orig.take(0) =~= Seq::<EventView>::empty());
        assert(orig.skip(0) =~= orig);
        assert(orig.take(0) + spec_insert_event(orig.skip(0), e@) =~= spec_insert_event(orig, e@));
    }
    while j < sorted.len()
        invariant
            0 <= j <= sorted@.len(),
            orig == views_of(sorted@),
            orig == views_of(old(sorted)@),
            spec_insert_event(orig, e@) == orig.take(j as int) + spec_insert_event(
                orig.skip(j as int),
                e@,
            ),
            forall|k: int| 0 <= k < j ==> !event_key_lt(e@, orig[k]),
        decreases sorted@.len() - j,
    {
        proof {
            let rest = orig.skip(j as int);
            assert(rest[0] == orig[j as int]);
            assert(rest.drop_first() =~= orig.skip(j as int + 1));
            assert(orig.take(j as int).push(orig[j as int]) =~= orig.take(j as int + 1));
        }
        if event_lt(&e, &sorted[j]) {
            sorted.insert(j, e);
            proof {
                assert(views_of(sorted@) =~= orig.take(j as int) + (seq![e@]
                    + orig.skip(j as int)));
                assert(spec_insert_event(orig.skip(j as int), e@) == seq![e@] + orig.skip(
                    j as int,
                ));
            }
            return ;
        }
        proof {
            assert(orig.take(j as int) + (seq![orig[j as int]] + spec_insert_event(
                orig.skip(j as int + 1),
                e@,
            )) =~= orig.take(j as int + 1) + spec_insert_event(orig.skip(j as int + 1), e@));
        }
        j = j + 1;
    }
    sorted.push(e);
    proof {
        assert(orig.skip(orig.len() as int) =~= Seq::<EventView>::empty());
        assert(views_of(sorted@) =~= orig.take(orig.len() as int) + seq![e@]);
    }
}

/// Sorts events into creation order.
pub fn sort_events(events: Vec<Event>) -> (r: Vec<Event>)
    ensures
        views_of(r@) == spec_sort_events(views_of(events@)),
{
    let ghost orig = views_of(events@);
    let mut out: Vec<Event> = Vec::new();
    let mut rest = events;
    let mut i: usize = 0;
    proof {
        assert(Seq::<EventView>::empty() =~= spec_sort_events(orig.take(0)));
    }
    while i < rest.len()
        invariant
            0 <= i <= rest@.len(),
            orig == views_of(rest@),
            views_of(out@) == spec_sort_events(orig.take(i as int)),
        decreases rest@.len() - i,
    {
        let e = rest[i].clone_event();
        let ghost pre = views_of(out@);
        insert_event(&mut out, e);
        proof {
            assert(orig.take(i as int + 1).drop_last() =~= orig.take(i as int));
            assert(orig.take(i as int + 1).last() == orig[i as int]);
        }
        i = i + 1;
    }
    proof {
        assert(orig.take(orig.len() as int) =~= orig);
    }
    out
}

/// A label-value definition as read back from the service record, before
/// the migration fields are checked.
pub struct DefInput {
    pub identifier: String,
    pub post_rkey: Option<String>,
    pub event_id: Option<String>,
}

/// The definition a raw input spells, once its event id is known present.
pub open spec fn definput_as_def(i: DefInput) -> OldDefView {
    OldDefView {
        identifier: i.identifier@,
        post_rkey: match i.post_rkey {
            Some(k) => Some(k@),
            None => None,
        },
        event_id: i.event_id.unwrap()@,
    }
}

/// The definitions the raw inputs spell: exactly those naming an event,
/// in order; one without an event id belongs to no event and is dropped.
pub open spec fn spec_defs_of_inputs(inputs: Seq<DefInput>) -> Seq<OldDefView>
    decreases inputs.len(),
{
    if inputs.len() == 0 {
        Seq::<OldDefView>::empty()
    } else if inputs[0].event_id is Some {
        seq![definput_as_def(inputs[0])] + spec_defs_of_inputs(inputs.drop_first())
    } else {
        spec_defs_of_inputs(inputs.drop_first())
    }
}

/// Keeps the definitions that name an event: exactly the inputs whose
/// event id is present, in order, converted.
pub fn old_defs_from_inputs(inputs: Vec<DefInput>) -> (r: Vec<OldDef>)
    ensures
        def_views(r@) == spec_defs_of_inputs(inputs@),
{
    let mut r: Vec<OldDef> = Vec::new();
    let mut i: usize = 0;
    let ghost ginputs = inputs@;
    let inputs = inputs;
    proof {
        assert(ginputs.skip(0) =~= ginputs);
        assert(Seq::<OldDefView>::empty() + spec_defs_of_inputs(ginputs) =~= spec_defs_of_inputs(
            ginputs,
        ));
    }
    while i < inputs.len()
        invariant
            0 <= i <= inputs@.len(),
            inputs@ == ginputs,
            def_views(r@) + spec_defs_of_inputs(ginputs.skip(i as int)) == spec_defs_of_inputs(
                ginputs,
            ),
        decreases inputs@.len() - i,
    {
        let ghost pre = def_views(r@);
        proof {
            let rest = ginputs.skip(i as int);
            assert(rest[0] == ginputs[i as int]);
            assert(rest.drop_first() =~= ginputs.skip(i as int + 1));
        }
        let d = &inputs[i];
        match &d.event_id {
            Some(eid) => {
                let def = OldDef {
                    identifier: d.identifier.clone(),
                    post_rkey: match &d.post_rkey {
                        Some(k) => Some(k.clone()),
                        None => None,
                    },
                    event_id: eid.clone(),
                };
                proof {
                    assert(def@ =~= definput_as_def(ginputs[i as int]));
                }
                r.push(def);
                proof {
                    assert(def_views(r@) =~= pre + seq![definput_as_def(ginputs[i as int])]);
                    assert(pre + (seq![definput_as_def(ginputs[i as int])] + spec_defs_of_inputs(
                        ginputs.skip(i as int + 1),
                    )) =~= def_views(r@) + spec_defs_of_inputs(ginputs.skip(i as int + 1)));
                }
            },
            None => {},
        }
        i = i + 1;
    }
    proof {
        assert(ginputs.skip(ginputs.len() as int) =~= Seq::<DefInput>::empty());
        assert(def_views(r@) + Seq::<OldDefView>::empty() =~= def_views(r@));
    }
    r
}

/// A post record to be created: one link facet spanning the whole text.
pub struct PostRecord {
    pub rkey: String,
    pub text: String,
    pub link_uri: String,
    pub byte_end: usize,
    pub created_at: String,
}

/// A thread-gate record forbidding replies on one post.
pub struct ThreadgateRecord {
    pub rkey: String,
    pub post_uri: String,
    pub created_at: String,
}

/// One published label-value definition: its identifier, the one English
/// locale, the fixed presentation policy, and the migration fields that
/// tie it to its post and event.
#[derive(Clone)]
pub struct ServiceDef {
    pub identifier: String,
    pub locale_lang: String,
    pub name: String,
    pub description: String,
    pub severity: String,
    pub blurs: String,
    pub default_setting: String,
    pub adult_only: bool,
    pub post_rkey: Option<String>,
    pub event_id: String,
}

/// The labeler service record's content.
pub struct ServiceRecord {
    pub created_at: String,
    pub label_values: Vec<String>,
    pub defs: Vec<ServiceDef>,
}

/// One repository write of a reconciliation batch.
pub enum Write {
    DeletePost { rkey: String },
    DeleteThreadgate { rkey: String },
    CreatePost { post: PostRecord },
    CreateThreadgate { gate: ThreadgateRecord },
    PutLabelerService { record: ServiceRecord },
}

/// The mathematical shape of a write.
#[verifier::ext_equal]
pub ghost enum WriteView {
    DeletePost { rkey: Seq<char> },
    DeleteThreadgate { rkey: Seq<char> },
    CreatePost {
        rkey: Seq<char>,
        text: Seq<char>,
        link_uri: Seq<char>,
        byte_end: int,
        created_at: Seq<char>,
    },
    CreateThreadgate { rkey: Seq<char>, post_uri: Seq<char>, created_at: Seq<char> },
    PutLabelerService {
        created_at: Seq<char>,
        label_values: Seq<Seq<char>>,
        defs: Seq<ServiceDefView>,
    },
}

/// The mathematical shape of a published definition.
#[verifier::ext_equal]
pub ghost struct ServiceDefView {
    pub identifier: Seq<char>,
    pub locale_lang: Seq<char>,
    pub name: Seq<char>,
    pub description: Seq<char>,
    pub severity: Seq<char>,
    pub blurs: Seq<char>,
    pub default_setting: Seq<char>,
    pub adult_only: bool,
    pub post_rkey: Option<Seq<char>>,
    pub event_id: Seq<char>,
}

impl View for ServiceDef {
    type V = ServiceDefView;

    open spec fn view(&self) -> ServiceDefView {
        ServiceDefView {
            identifier: self.identifier@,
            locale_lang: self.locale_lang@,
            name: self.name@,
            description: self.description@,
            severity: self.severity@,
            blurs: self.blurs@,
            default_setting: self.default_setting@,
            adult_only: self.adult_only,
            post_rkey: match self.post_rkey {
                Some(k) => Some(k@),
                None => None,
            },
            event_id: self.event_id@,
        }
    }
}

impl View for Write {
    type V = WriteView;

    open spec fn view(&self) -> WriteView {
        match self {
            Write::DeletePost { rkey } => WriteView::DeletePost { rkey: rkey@ },
            Write::DeleteThreadgate { rkey } => WriteView::DeleteThreadgate { rkey: rkey@ },
            Write::CreatePost { post } => WriteView::CreatePost {
                rkey: post.rkey@,
                text: post.text@,
                link_uri: post.link_uri@,
                byte_end: post.byte_end as int,
                created_at: post.created_at@,
            },
            Write::CreateThreadgate { gate } => WriteView::CreateThreadgate {
                rkey: gate.rkey@,
                post_uri: gate.post_uri@,
                created_at: gate.created_at@,
            },
            Write::PutLabelerService { record } => WriteView::PutLabelerService {
                created_at: record.created_at@,
                label_values: str_views(record.label_values@),
                defs: sdef_views(record.defs@),
            },
        }
    }
}

/// Whether an old definition's post still exists in the repository: one
/// that points at a vanished record is dropped and recreated.
pub open spec fn def_live(d: OldDefView, existing: Seq<Seq<char>>) -> bool {
    match d.post_rkey {
        Some(rk) => existing.contains(rk),
        None => true,
    }
}

/// The old definitions that survive the repository probe, in order.
pub open spec fn live_defs(defs: Seq<OldDefView>, existing: Seq<Seq<char>>) -> Seq<OldDefView>
    decreases defs.len(),
{
    if defs.len() == 0 {
        Seq::<OldDefView>::empty()
    } else if def_live(defs[0], existing) {
        seq![defs[0]] + live_defs(defs.drop_first(), existing)
    } else {
        live_defs(defs.drop_first(), existing)
    }
}

/// The first definition naming the event whose identifier is also the
/// given one.
pub open spec fn find_def_both(defs: Seq<OldDefView>, id: Seq<char>, ident: Seq<char>) -> Option<
    OldDefView,
>
    decreases defs.len(),
{
    if defs.len() == 0 {
        None
    } else if defs[0].event_id == id && defs[0].identifier == ident {
        Some(defs[0])
    } else {
        find_def_both(defs.drop_first(), id, ident)
    }
}

/// The first definition naming the event.
pub open spec fn find_def_id(defs: Seq<OldDefView>, id: Seq<char>) -> Option<OldDefView>
    decreases defs.len(),
{
    if defs.len() == 0 {
        None
    } else if defs[0].event_id == id {
        Some(defs[0])
    } else {
        find_def_id(defs.drop_first(), id)
    }
}

/// The definition an event adopts, if any: among those naming its id, the
/// one whose identifier equals the freshly computed slug when there is
/// one, else the first. The old identifier is preserved whatever its
/// shape, the legacy numeric form included: every label row already
/// emitted carries it as `val`, so renaming it would orphan those rows
/// and break the negation lookup on delete; and a numeric-form identifier
/// cannot be told apart with certainty from a slug that happens to use
/// letters alone.
pub open spec fn adopt_def(defs: Seq<OldDefView>, e: EventView) -> Option<OldDefView> {
    match find_def_both(defs, e.id, e.label_id) {
        Some(d) => Some(d),
        None => find_def_id(defs, e.id),
    }
}

/// An event with its adopted definition's identifier and record key, or
/// unchanged when no old definition names it.
pub open spec fn adopt_event(defs: Seq<OldDefView>, e: EventView) -> EventView {
    match adopt_def(defs, e) {
        None => e,
        Some(d) => EventView { label_id: d.identifier, rkey: d.post_rkey, ..e },
    }
}

/// Adoption over a whole run's events.
pub open spec fn adopt_fn(defs: Seq<OldDefView>) -> spec_fn(EventView) -> EventView {
    |e: EventView| adopt_event(defs, e)
}

/// All events with their adopted keys.
pub open spec fn adopt_all(defs: Seq<OldDefView>, evs: Seq<EventView>) -> Seq<EventView> {
    evs.map_values(adopt_fn(defs))
}

/// The ids of a run's events.
pub open spec fn event_ids(evs: Seq<EventView>) -> Seq<Seq<char>> {
    evs.map_values(|e: EventView| e.id)
}

/// The deletions a run schedules: for each surviving definition whose
/// event is gone from the listing, its post and its thread-gate, in
/// definition order.
pub open spec fn delete_writes(defs: Seq<OldDefView>, ids: Seq<Seq<char>>) -> Seq<WriteView>
    decreases defs.len(),
{
    if defs.len() == 0 {
        Seq::<WriteView>::empty()
    } else {
        let d = defs[0];
        let rest = delete_writes(defs.drop_first(), ids);
        if !ids.contains(d.event_id) && d.post_rkey is Some {
            seq![
                WriteView::DeletePost { rkey: d.post_rkey.unwrap() },
                WriteView::DeleteThreadgate { rkey: d.post_rkey.unwrap() },
            ] + rest
        } else {
            rest
        }
    }
}

impl Event {
    /// A field-for-field copy.
    pub fn clone_event(&self) -> (r: Event)
        ensures
            r@ == self@,
    {
        let r = Event {
            id: self.id.clone(),
            name: self.name.clone(),
            venue: self.venue.clone(),
            address: match &self.address {
                Some(a) => Some(a.clone()),
                None => None,
            },
            country: match &self.country {
                Some(c) => Some(c.clone()),
                None => None,
            },
            start_date: self.start_date,
            end_date: self.end_date,
            timezone: match &self.timezone {
                Some(t) => Some(t.clone()),
                None => None,
            },
            label_id: self.label_id.clone(),
            rkey: match &self.rkey {
                Some(k) => Some(k.clone()),
                None => None,
            },
        };
        proof {
            assert(r@ =~= self@);
        }
        r
    }
}

/// The views of a vector of strings.
pub open spec fn str_views(s: Seq<String>) -> Seq<Seq<char>> {
    s.map_values(|v: String| v@)
}

/// The views of a vector of definitions.
pub open spec fn def_views(s: Seq<OldDef>) -> Seq<OldDefView> {
    s.map_values(|d: OldDef| d@)
}

/// The views of a vector of published definitions.
pub open spec fn sdef_views(s: Seq<ServiceDef>) -> Seq<ServiceDefView> {
    s.map_values(|d: ServiceDef| d@)
}

/// The views of a vector of writes.
pub open spec fn write_views(s: Seq<Write>) -> Seq<WriteView> {
    s.map_values(|w: Write| w@)
}

/// The views of the correlation pairs.
pub open spec fn pair_views(s: Seq<(String, String)>) -> Seq<(Seq<char>, Seq<char>)> {
    s.map_values(|p: (String, String)| (p.0@, p.1@))
}

fn contains_str(v: &Vec<String>, s: &str) -> (r: bool)
    ensures
        r == str_views(v@).contains(s@),
{
    let mut i: usize = 0;
    while i < v.len()
        invariant
            0 <= i <= v@.len(),
            forall|k: int| 0 <= k < i ==> str_views(v@)[k] != s@,
        decreases v@.len() - i,
    {
        if str_eq(v[i].as_str(), s) {
            proof {
                assert(str_views(v@)[i as int] == s@);
            }
            return true;
        }
        i = i + 1;
    }
    proof {
        assert(!str_views(v@).contains(s@));
    }
    false
}

impl OldDef {
    /// A field-for-field copy.
    pub fn clone_def(&self) -> (r: OldDef)
        ensures
            r@ == self@,
    {
        let r = OldDef {
            identifier: self.identifier.clone(),
            post_rkey: match &self.post_rkey {
                Some(k) => Some(k.clone()),
                None => None,
            },
            event_id: self.event_id.clone(),
        };
        proof {
            assert(r@ =~= self@);
        }
        r
    }
}

/// Keeps the definitions whose posts still exist in the repository.
pub fn filter_live_defs(defs: &Vec<OldDef>, existing: &Vec<String>) -> (r: Vec<OldDef>)
    ensures
        def_views(r@) == live_defs(def_views(defs@), str_views(existing@)),
{
    let mut r: Vec<OldDef> = Vec::new();
    let mut i: usize = 0;
    let ghost all = def_views(defs@);
    let ghost ex = str_views(existing@);
    proof {
        assert(all.skip(0) =~= all);
        assert(Seq::<OldDefView>::empty() + live_defs(all, ex) =~= live_defs(all, ex));
    }
    while i < defs.len()
        invariant
            0 <= i <= defs@.len(),
            all == def_views(defs@),
            ex == str_views(existing@),
            def_views(r@) + live_defs(all.skip(i as int), ex) == live_defs(all, ex),
        decreases defs@.len() - i,
    {
        let ghost pre = def_views(r@);
        proof {
            let rest = all.skip(i as int);
            assert(rest[0] == all[i as int]);
            assert(rest.drop_first() =~= all.skip(i as int + 1));
        }
        let d = &defs[i];
        let live = match &d.post_rkey {
            Some(rk) => contains_str(existing, rk.as_str()),
            None => true,
        };
        if live {
            r.push(d.clone_def());
            proof {
                assert(def_views(r@) =~= pre + seq![all[i as int]]);
                assert(pre + (seq![all[i as int]] + live_defs(all.skip(i as int + 1), ex))
                    =~= def_views(r@) + live_defs(all.skip(i as int + 1), ex));
            }
        }
        i = i + 1;
    }
    proof {
        assert(all.skip(all.len() as int) =~= Seq::<OldDefView>::empty());
        assert(def_views(r@) + Seq::<OldDefView>::empty() =~= def_views(r@));
    }
    r
}

fn find_def_both_exec<'a>(defs: &'a Vec<OldDef>, id: &str, ident: &str) -> (r: Option<&'a OldDef>)
    ensures
        match r {
            Some(d) => find_def_both(def_views(defs@), id@, ident@) == Some(d@),
            None => find_def_both(def_views(defs@), id@, ident@) is None,
        },
{
    let ghost all = def_views(defs@);
    let mut i: usize = 0;
    proof {
        assert(all.skip(0) =~= all);
    }
    while i < defs.len()
        invariant
            0 <= i <= defs@.len(),
            all == def_views(defs@),
            find_def_both(all, id@, ident@) == find_def_both(all.skip(i as int), id@, ident@),
        decreases defs@.len() - i,
    {
        proof {
            let rest = all.skip(i as int);
            assert(rest[0] == all[i as int]);
            assert(rest.drop_first() =~= all.skip(i as int + 1));
        }
        if str_eq(defs[i].event_id.as_str(), id) && str_eq(defs[i].identifier.as_str(), ident) {
            return Some(&defs[i]);
        }
        i = i + 1;
    }
    proof {
        assert(all.skip(all.len() as int) =~= Seq::<OldDefView>::empty());
    }
    None
}

fn find_def_id_exec<'a>(defs: &'a Vec<OldDef>, id: &str) -> (r: Option<&'a OldDef>)
    ensures
        match r {
            Some(d) => find_def_id(def_views(defs@), id@) == Some(d@),
            None => find_def_id(def_views(defs@), id@) is None,
        },
{
    let ghost all = def_views(defs@);
    let mut i: usize = 0;
    proof {
        assert(all.skip(0) =~= all);
    }
    while i < defs.len()
        invariant
            0 <= i <= defs@.len(),
            all == def_views(defs@),
            find_def_id(all, id@) == find_def_id(all.skip(i as int), id@),
        decreases defs@.len() - i,
    {
        proof {
            let rest = all.skip(i as int);
            assert(rest[0] == all[i as int]);
            assert(rest.drop_first() =~= all.skip(i as int + 1));
        }
        if str_eq(defs[i].event_id.as_str(), id) {
            return Some(&defs[i]);
        }
        i = i + 1;
    }
    proof {
        assert(all.skip(all.len() as int) =~= Seq::<OldDefView>::empty());
    }
    None
}

/// Adopts the surviving definitions into the events: each event that an
/// old definition names keeps that definition's identifier and record
/// key.
pub fn adopt_events(evs: Vec<Event>, defs: &Vec<OldDef>) -> (r: Vec<Event>)
    ensures
        views_of(r@) == adopt_all(def_views(defs@), views_of(evs@)),
        forall|i: int|
            0 <= i < r@.len() ==> event_dates_ok((#[trigger] r@[i]).start_date, r@[i].end_date)
                == event_dates_ok(evs@[i].start_date, evs@[i].end_date),
{
    let ghost all = views_of(evs@);
    let ghost dv = def_views(defs@);
    let mut r: Vec<Event> = Vec::new();
    let mut i: usize = 0;
    while i < evs.len()
        invariant
            0 <= i <= evs@.len(),
            all == views_of(evs@),
            dv == def_views(defs@),
            r@.len() == i,
            forall|k: int| 0 <= k < i ==> (#[trigger] r@[k])@ == adopt_event(dv, all[k]),
            forall|k: int|
                0 <= k < i ==> (#[trigger] r@[k]).start_date == evs@[k].start_date && r@[k].end_date
                    == evs@[k].end_date,
        decreases evs@.len() - i,
    {
        let e = &evs[i];
        let adopted = match find_def_both_exec(defs, e.id.as_str(), e.label_id.as_str()) {
            Some(d) => Some(d),
            None => find_def_id_exec(defs, e.id.as_str()),
        };
        let ne = match adopted {
            Some(d) => {
                let mut ne = e.clone_event();
                ne.label_id = d.identifier.clone();
                ne.rkey = match &d.post_rkey {
                    Some(k) => Some(k.clone()),
                    None => None,
                };
                proof {
                    assert(ne@ =~= adopt_event(dv, all[i as int]));
                }
                ne
            },
            None => {
                let ne = e.clone_event();
                proof {
                    assert(ne@ =~= adopt_event(dv, all[i as int]));
                }
                ne
            },
        };
        r.push(ne);
        i = i + 1;
    }
    proof {
        assert(views_of(r@) =~= adopt_all(dv, all));
    }
    r
}

/// Schedules the deletions: for each surviving definition whose event no
/// longer stands in the listing, its post and thread-gate go.
pub fn delete_writes_for(defs: &Vec<OldDef>, evs: &Vec<Event>) -> (r: Vec<Write>)
    ensures
        write_views(r@) == delete_writes(def_views(defs@), event_ids(views_of(evs@))),
{
    let ghost dv = def_views(defs@);
    let ghost ids = event_ids(views_of(evs@));
    let mut r: Vec<Write> = Vec::new();
    let mut i: usize = 0;
    proof {
        assert(dv.skip(0) =~= dv);
        assert(Seq::<WriteView>::empty() + delete_writes(dv, ids) =~= delete_writes(dv, ids));
    }
    while i < defs.len()
        invariant
            0 <= i <= defs@.len(),
            dv == def_views(defs@),
            ids == event_ids(views_of(evs@)),
            write_views(r@) + delete_writes(dv.skip(i as int), ids) == delete_writes(dv, ids),
        decreases defs@.len() - i,
    {
        let ghost pre = write_views(r@);
        proof {
            let rest = dv.skip(i as int);
            assert(rest[0] == dv[i as int]);
            assert(rest.drop_first() =~= dv.skip(i as int + 1));
        }
        let d = &defs[i];
        let mut found = false;
        let mut j: usize = 0;
        while j < evs.len()
            invariant
                0 <= j <= evs@.len(),
                ids == event_ids(views_of(evs@)),
                found ==> ids.contains(d@.event_id),
                !found ==> forall|k: int| 0 <= k < j ==> ids[k] != d@.event_id,
            decreases evs@.len() - j,
        {
            if str_eq(evs[j].id.as_str(), d.event_id.as_str()) {
                proof {
                    assert(ids[j as int] == d@.event_id);
                }
                found = true;
            }
            j = j + 1;
        }
        proof {
            if !found {
                assert(!ids.contains(d@.event_id));
            }
        }
        if !found {
            match &d.post_rkey {
                Some(rk) => {
                    r.push(Write::DeletePost { rkey: rk.clone() });
                    r.push(Write::DeleteThreadgate { rkey: rk.clone() });
                    proof {
                        assert(write_views(r@) =~= pre + seq![
                            WriteView::DeletePost { rkey: dv[i as int].post_rkey.unwrap() },
                            WriteView::DeleteThreadgate { rkey: dv[i as int].post_rkey.unwrap() },
                        ]);
                        assert(pre + (seq![
                            WriteView::DeletePost { rkey: dv[i as int].post_rkey.unwrap() },
                            WriteView::DeleteThreadgate { rkey: dv[i as int].post_rkey.unwrap() },
                        ] + delete_writes(dv.skip(i as int + 1), ids)) =~= write_views(r@)
                            + delete_writes(dv.skip(i as int + 1), ids));
                    }
                },
                None => {},
            }
        }
        i = i + 1;
    }
    proof {
        assert(dv.skip(dv.len() as int) =~= Seq::<OldDefView>::empty());
        assert(write_views(r@) + Seq::<WriteView>::empty() =~= write_views(r@));
    }
    r
}

/// One decimal digit as a character.
pub open spec fn dig(n: int) -> char {
    (((n % 10) + 48) as u8) as char
}

/// A two-digit zero-padded number.
pub open spec fn dec2(n: int) -> Seq<char> {
    seq![dig(n / 10), dig(n)]
}

/// A four-digit zero-padded number.
pub open spec fn dec4(n: int) -> Seq<char> {
    seq![dig(n / 1000), dig(n / 100), dig(n / 10), dig(n)]
}

/// A date's serialized form: year, month and day, zero-padded and
/// hyphen-separated.
pub open spec fn date_str(d: Date) -> Seq<char> {
    dec4(d.year as int) + seq!['-'] + dec2(d.month as int) + seq!['-'] + dec2(d.day as int)
}

fn push_dig(out: &mut String, n: i32)
    requires
        0 <= n,
    ensures
        final(out)@ == old(out)@.push(dig(n as int)),
{
    let d: u8 = (n % 10) as u8 + 48;
    crate::strutil::push_char(out, d as char);
}

fn date_string(d: &Date) -> (r: String)
    requires
        0 <= d.year <= 9999,
    ensures
        r@ == date_str(*d),
{
    let mut out = String::new();
    push_dig(&mut out, d.year / 1000);
    push_dig(&mut out, d.year / 100);
    push_dig(&mut out, d.year / 10);
    push_dig(&mut out, d.year);
    crate::strutil::push_char(&mut out, '-');
    push_dig(&mut out, d.month as i32 / 10);
    push_dig(&mut out, d.month as i32);
    crate::strutil::push_char(&mut out, '-');
    push_dig(&mut out, d.day as i32 / 10);
    push_dig(&mut out, d.day as i32);
    proof {
        assert(out@ =~= date_str(*d));
    }
    out
}

/// The human-readable definition text: the event's dates and its place.
pub open spec fn desc_of(e: EventView) -> Seq<char> {
    "\u{1f4c5} "@ + date_str(e.start_date) + " \u{2013} "@ + date_str(e.end_date)
        + "\n\u{1f4cd} "@ + e.venue + (match e.address {
        Some(a) => ", "@ + a,
        None => Seq::<char>::empty(),
    })
}

fn description_for(e: &Event) -> (r: String)
    requires
        0 <= e.start_date.year <= 9999,
        0 <= e.end_date.year <= 9999,
    ensures
        r@ == desc_of(e@),
{
    let mut out = String::new();
    out.append("\u{1f4c5} ");
    let sd = date_string(&e.start_date);
    out.append(sd.as_str());
    out.append(" \u{2013} ");
    let ed = date_string(&e.end_date);
    out.append(ed.as_str());
    out.append("\n\u{1f4cd} ");
    out.append(e.venue.as_str());
    match &e.address {
        Some(a) => {
            out.append(", ");
            out.append(a.as_str());
        },
        None => {},
    }
    proof {
        assert(out@ =~= desc_of(e@));
    }
    out
}

/// The events with every missing record key freshly allocated: the `k`-th
/// allocation takes the timestamp `now + k` milliseconds.
pub open spec fn alloc_events(evs: Seq<EventView>, now_us: int, k: int) -> Seq<EventView>
    decreases evs.len(),
{
    if evs.len() == 0 {
        Seq::<EventView>::empty()
    } else if evs[0].rkey is Some {
        seq![evs[0]] + alloc_events(evs.drop_first(), now_us, k)
    } else {
        seq![EventView { rkey: Some(tid_of(now_us + k * 1000)), ..evs[0] }] + alloc_events(
            evs.drop_first(),
            now_us,
            k + 1,
        )
    }
}

/// The UTF-8 byte length of a text.
pub open spec fn utf8_len(s: Seq<char>) -> int {
    vstd::utf8::encode_utf8(s).len() as int
}

/// The create writes of a run: a post and a thread-gate for each event
/// without a record key, in creation order; the post carries one link
/// facet over its whole text.
pub open spec fn create_writes_spec(
    evs: Seq<EventView>,
    now_us: int,
    k: int,
    ui: Seq<char>,
    did: Seq<char>,
) -> Seq<WriteView>
    decreases evs.len(),
{
    if evs.len() == 0 {
        Seq::<WriteView>::empty()
    } else if evs[0].rkey is Some {
        create_writes_spec(evs.drop_first(), now_us, k, ui, did)
    } else {
        let e = evs[0];
        let rkey = tid_of(now_us + k * 1000);
        seq![
            WriteView::CreatePost {
                rkey: rkey,
                text: e.name,
                link_uri: ui + seq!['/'] + e.id,
                byte_end: utf8_len(e.name),
                created_at: crate::event::rfc3339_of(now_us + k * 1000),
            },
            WriteView::CreateThreadgate {
                rkey: rkey,
                post_uri: "at://"@ + did + seq!['/'] + crate::firehose::post_collection()
                    + seq!['/'] + rkey,
                created_at: crate::event::rfc3339_of(now_us),
            },
        ] + create_writes_spec(evs.drop_first(), now_us, k + 1, ui, did)
    }
}

/// Allocates record keys for the events that lack one and schedules their
/// posts and thread-gates.
pub fn build_creations(evs: Vec<Event>, now_us: i64, ui_endpoint: &str, labeler_did: &str) -> (r: (
    Vec<Event>,
    Vec<Write>,
))
    requires
        0 <= now_us,
        now_us + 1000 * evs@.len() < 0x20000000000000,
    ensures
        r.0@.len() == evs@.len(),
        views_of(r.0@) == alloc_events(views_of(evs@), now_us as int, 0),
        write_views(r.1@) == create_writes_spec(
            views_of(evs@),
            now_us as int,
            0,
            ui_endpoint@,
            labeler_did@,
        ),
        forall|i: int| 0 <= i < r.0@.len() ==> (#[trigger] r.0@[i])@.rkey is Some,
        forall|i: int|
            0 <= i < r.0@.len() ==> (#[trigger] r.0@[i]).start_date == evs@[i].start_date
                && r.0@[i].end_date == evs@[i].end_date && r.0@[i]@.id == evs@[i]@.id,
{
    let ghost all = views_of(evs@);
    let mut out: Vec<Event> = Vec::new();
    let mut writes: Vec<Write> = Vec::new();
    let mut i: usize = 0;
    let mut k: usize = 0;
    proof {
        assert(all.skip(0) =~= all);
        assert(Seq::<EventView>::empty() + alloc_events(all, now_us as int, 0) =~= alloc_events(
            all,
            now_us as int,
            0,
        ));
        assert(Seq::<WriteView>::empty() + create_writes_spec(
            all,
            now_us as int,
            0,
            ui_endpoint@,
            labeler_did@,
        ) =~= create_writes_spec(all, now_us as int, 0, ui_endpoint@, labeler_did@));
    }
    while i < evs.len()
        invariant
            0 <= i <= evs@.len(),
            0 <= k <= i,
            all == views_of(evs@),
            now_us + 1000 * evs@.len() < 0x20000000000000,
            0 <= now_us,
            out@.len() == i,
            views_of(out@) + alloc_events(all.skip(i as int), now_us as int, k as int)
                == alloc_events(all, now_us as int, 0),
            write_views(writes@) + create_writes_spec(
                all.skip(i as int),
                now_us as int,
                k as int,
                ui_endpoint@,
                labeler_did@,
            ) == create_writes_spec(all, now_us as int, 0, ui_endpoint@, labeler_did@),
            forall|m: int| 0 <= m < i ==> (#[trigger] out@[m])@.rkey is Some,
            forall|m: int|
                0 <= m < i ==> (#[trigger] out@[m]).start_date == evs@[m].start_date
                    && out@[m].end_date == evs@[m].end_date && out@[m]@.id == evs@[m]@.id,
        decreases evs@.len() - i,
    {
        let ghost preo = views_of(out@);
        let ghost prew = write_views(writes@);
        proof {
            reveal_strlit("/");
            assert("/"@ =~= seq!['/']);
            let rest = all.skip(i as int);
            assert(rest[0] == all[i as int]);
            assert(rest.drop_first() =~= all.skip(i as int + 1));
        }
        let e = &evs[i];
        match &e.rkey {
            Some(_) => {
                out.push(e.clone_event());
                proof {
                    assert(views_of(out@) =~= preo + seq![all[i as int]]);
                    assert(preo + (seq![all[i as int]] + alloc_events(
                        all.skip(i as int + 1),
                        now_us as int,
                        k as int,
                    )) =~= views_of(out@) + alloc_events(
                        all.skip(i as int + 1),
                        now_us as int,
                        k as int,
                    ));
                }
            },
            None => {
                let t: i64 = now_us + (k as i64) * 1000;
                let rkey = tid_from_micros(t);
                let created_at = match crate::event::rfc3339_micros(t) {
                    Some(c) => c,
                    None => {
                        proof {
                            assert(false);
                        }
                        String::new()
                    },
                };
                let now_str = match crate::event::rfc3339_micros(now_us) {
                    Some(c) => c,
                    None => {
                        proof {
                            assert(false);
                        }
                        String::new()
                    },
                };
                let mut link = ui_endpoint.to_owned();
                link.append("/");
                link.append(e.id.as_str());
                let mut post_uri = "at://".to_owned();
                post_uri.append(labeler_did);
                post_uri.append("/");
                post_uri.append("app.bsky.feed.post");
                post_uri.append("/");
                post_uri.append(rkey.as_str());
                let post = PostRecord {
                    rkey: rkey.clone(),
                    text: e.name.clone(),
                    link_uri: link,
                    byte_end: e.name.as_str().as_bytes().len(),
                    created_at,
                };
                let gate = ThreadgateRecord {
                    rkey: rkey.clone(),
                    post_uri,
                    created_at: now_str,
                };
                writes.push(Write::CreatePost { post });
                writes.push(Write::CreateThreadgate { gate });
                let mut ne = e.clone_event();
                ne.rkey = Some(rkey);
                out.push(ne);
                proof {
                    assert(ne@ =~= (EventView {
                        rkey: Some(tid_of(now_us + (k as int) * 1000)),
                        ..all[i as int]
                    }));
                    assert(views_of(out@) =~= preo + seq![ne@]);
                    assert(preo + (seq![ne@] + alloc_events(
                        all.skip(i as int + 1),
                        now_us as int,
                        k as int + 1,
                    )) =~= views_of(out@) + alloc_events(
                        all.skip(i as int + 1),
                        now_us as int,
                        k as int + 1,
                    ));
                    assert(write_views(writes@) =~= prew + seq![
                        WriteView::CreatePost {
                            rkey: tid_of(now_us + (k as int) * 1000),
                            text: all[i as int].name,
                            link_uri: ui_endpoint@ + seq!['/'] + all[i as int].id,
                            byte_end: utf8_len(all[i as int].name),
                            created_at: crate::event::rfc3339_of(now_us + (k as int) * 1000),
                        },
                        WriteView::CreateThreadgate {
                            rkey: tid_of(now_us + (k as int) * 1000),
                            post_uri: "at://"@ + labeler_did@ + seq!['/']
                                + crate::firehose::post_collection() + seq!['/'] + tid_of(
                                now_us + (k as int) * 1000,
                            ),
                            created_at: crate::event::rfc3339_of(now_us as int),
                        },
                    ]);
                    assert(prew + (seq![
                        WriteView::CreatePost {
                            rkey: tid_of(now_us + (k as int) * 1000),
                            text: all[i as int].name,
                            link_uri: ui_endpoint@ + seq!['/'] + all[i as int].id,
                            byte_end: utf8_len(all[i as int].name),
                            created_at: crate::event::rfc3339_of(now_us + (k as int) * 1000),
                        },
                        WriteView::CreateThreadgate {
                            rkey: tid_of(now_us + (k as int) * 1000),
                            post_uri: "at://"@ + labeler_did@ + seq!['/']
                                + crate::firehose::post_collection() + seq!['/'] + tid_of(
                                now_us + (k as int) * 1000,
                            ),
                            created_at: crate::event::rfc3339_of(now_us as int),
                        },
                    ] + create_writes_spec(
                        all.skip(i as int + 1),
                        now_us as int,
                        k as int + 1,
                        ui_endpoint@,
                        labeler_did@,
                    )) =~= write_views(writes@) + create_writes_spec(
                        all.skip(i as int + 1),
                        now_us as int,
                        k as int + 1,
                        ui_endpoint@,
                        labeler_did@,
                    ));
                }
                k = k + 1;
            },
        }
        i = i + 1;
    }
    proof {
        assert(all.skip(all.len() as int) =~= Seq::<EventView>::empty());
        assert(views_of(out@) + Seq::<EventView>::empty() =~= views_of(out@));
        assert(write_views(writes@) + Seq::<WriteView>::empty() =~= write_views(writes@));
    }
    (out, writes)
}

/// The published definition of one event: its identifier and English
/// locale, informational severity with no blurring and a warn default,
/// never adult-only.
pub open spec fn service_def_of(e: EventView) -> ServiceDefView {
    ServiceDefView {
        identifier: e.label_id,
        locale_lang: "en"@,
        name: e.name,
        description: desc_of(e),
        severity: "inform"@,
        blurs: "none"@,
        default_setting: "warn"@,
        adult_only: false,
        post_rkey: e.rkey,
        event_id: e.id,
    }
}

/// The published definitions of a run's events, in creation order.
pub open spec fn service_defs_of(evs: Seq<EventView>) -> Seq<ServiceDefView> {
    evs.map_values(|e: EventView| service_def_of(e))
}

/// The label values the service record declares: each event's identifier.
pub open spec fn label_values_of(evs: Seq<EventView>) -> Seq<Seq<char>> {
    evs.map_values(|e: EventView| e.label_id)
}

/// Builds the service record's content for the run's events.
pub fn build_service_record(evs: &Vec<Event>, now_us: i64) -> (r: ServiceRecord)
    requires
        0 <= now_us <= 253402300799999999,
        forall|i: int|
            0 <= i < evs@.len() ==> event_dates_ok(
                (#[trigger] evs@[i]).start_date,
                evs@[i].end_date,
            ),
    ensures
        r.created_at@ == crate::event::rfc3339_of(now_us as int),
        str_views(r.label_values@) == label_values_of(views_of(evs@)),
        sdef_views(r.defs@) == service_defs_of(views_of(evs@)),
{
    let ghost all = views_of(evs@);
    let created_at = match crate::event::rfc3339_micros(now_us) {
        Some(c) => c,
        None => {
            proof {
                assert(false);
            }
            String::new()
        },
    };
    let mut label_values: Vec<String> = Vec::new();
    let mut defs: Vec<ServiceDef> = Vec::new();
    let mut i: usize = 0;
    while i < evs.len()
        invariant
            0 <= i <= evs@.len(),
            all == views_of(evs@),
            forall|m: int|
                0 <= m < evs@.len() ==> event_dates_ok(
                    (#[trigger] evs@[m]).start_date,
                    evs@[m].end_date,
                ),
            label_values@.len() == i,
            defs@.len() == i,
            forall|m: int| 0 <= m < i ==> (#[trigger] label_values@[m])@ == all[m].label_id,
            forall|m: int| 0 <= m < i ==> (#[trigger] defs@[m])@ == service_def_of(all[m]),
        decreases evs@.len() - i,
    {
        let e = &evs[i];
        label_values.push(e.label_id.clone());
        let description = description_for(e);
        let def = ServiceDef {
            identifier: e.label_id.clone(),
            locale_lang: "en".to_owned(),
            name: e.name.clone(),
            description,
            severity: "inform".to_owned(),
            blurs: "none".to_owned(),
            default_setting: "warn".to_owned(),
            adult_only: false,
            post_rkey: match &e.rkey {
                Some(k) => Some(k.clone()),
                None => None,
            },
            event_id: e.id.clone(),
        };
        proof {
            assert(def@ =~= service_def_of(all[i as int]));
        }
        defs.push(def);
        i = i + 1;
    }
    proof {
        assert(str_views(label_values@) =~= label_values_of(all));
        assert(sdef_views(defs@) =~= service_defs_of(all));
    }
    ServiceRecord { created_at, label_values, defs }
}

/// The correlation pairs of a run's events: each published record key to
/// its event id.
pub open spec fn pairs_of(evs: Seq<EventView>) -> Seq<(Seq<char>, Seq<char>)> {
    evs.map_values(|e: EventView| (e.rkey.unwrap(), e.id))
}

/// Whether a correlation pair is its record key's last claim: a later
/// pair with the same key shadows it, as insertion into a map keyed by
/// record key would have it.
pub open spec fn pair_last_of_rkey(ps: Seq<(Seq<char>, Seq<char>)>, i: int) -> bool {
    forall|j: int| i < j < ps.len() ==> (#[trigger] ps[j]).0 != ps[i].0
}

/// The pairs from position `i` on with duplicate record keys collapsed,
/// the last claim winning.
pub open spec fn dedup_pairs_from(ps: Seq<(Seq<char>, Seq<char>)>, i: int) -> Seq<
    (Seq<char>, Seq<char>),
>
    decreases ps.len() - i when 0 <= i <= ps.len()
{
    if i >= ps.len() {
        Seq::<(Seq<char>, Seq<char>)>::empty()
    } else if pair_last_of_rkey(ps, i) {
        seq![ps[i]] + dedup_pairs_from(ps, i + 1)
    } else {
        dedup_pairs_from(ps, i + 1)
    }
}

/// The pairs with duplicate record keys collapsed.
pub open spec fn dedup_pairs(ps: Seq<(Seq<char>, Seq<char>)>) -> Seq<(Seq<char>, Seq<char>)> {
    dedup_pairs_from(ps, 0)
}

proof fn lemma_dedup_member(ps: Seq<(Seq<char>, Seq<char>)>, i: int, a: int)
    requires
        0 <= i <= ps.len(),
        0 <= a < dedup_pairs_from(ps, i).len(),
    ensures
        exists|m: int|
            i <= m < ps.len() && pair_last_of_rkey(ps, m) && dedup_pairs_from(ps, i)[a] == ps[m],
    decreases ps.len() - i,
{
    if i < ps.len() {
        if pair_last_of_rkey(ps, i) {
            if a == 0 {
                assert(dedup_pairs_from(ps, i)[a] == ps[i]);
            } else {
                lemma_dedup_member(ps, i + 1, a - 1);
                let m = choose|m: int|
                    i + 1 <= m < ps.len() && pair_last_of_rkey(ps, m) && dedup_pairs_from(
                        ps,
                        i + 1,
                    )[a - 1] == ps[m];
                assert(dedup_pairs_from(ps, i)[a] == ps[m]);
            }
        } else {
            lemma_dedup_member(ps, i + 1, a);
        }
    }
}

/// Collapsed pairs carry distinct record keys: the map's keys are unique.
pub proof fn lemma_dedup_pairs_distinct(ps: Seq<(Seq<char>, Seq<char>)>, i: int)
    requires
        0 <= i <= ps.len(),
    ensures
        forall|a: int, b: int|
            0 <= a < b < dedup_pairs_from(ps, i).len() ==> (#[trigger] dedup_pairs_from(
                ps,
                i,
            )[a]).0 != (#[trigger] dedup_pairs_from(ps, i)[b]).0,
    decreases ps.len() - i,
{
    if i < ps.len() {
        lemma_dedup_pairs_distinct(ps, i + 1);
        let d = dedup_pairs_from(ps, i);
        let rest = dedup_pairs_from(ps, i + 1);
        if pair_last_of_rkey(ps, i) {
            assert forall|b: int| 0 <= b < rest.len() implies (#[trigger] rest[b]).0
                != ps[i].0 by {
                lemma_dedup_member(ps, i + 1, b);
                let m = choose|m: int|
                    i + 1 <= m < ps.len() && pair_last_of_rkey(ps, m) && dedup_pairs_from(
                        ps,
                        i + 1,
                    )[b] == ps[m];
                assert(ps[m].0 != ps[i].0);
            }
            assert forall|a: int, b: int| 0 <= a < b < d.len() implies (#[trigger] d[a]).0 != (
            #[trigger] d[b]).0 by {
                assert(d[b] == rest[b - 1]);
                if a > 0 {
                    assert(d[a] == rest[a - 1]);
                }
            }
        }
    }
}

/// A reconciliation's outcome: the batched repository writes and the new
/// correlation map.
pub struct Plan {
    pub writes: Vec<Write>,
    pub map: crate::state::CorrelationMap,
}

/// The full batch a run settles on, from already ingested and sorted
/// events: deletions of vanished events, creations for new ones, and the
/// replacement service record; and the new correlation map.
pub fn reconcile_plan(
    sorted: Vec<Event>,
    old_defs: &Vec<OldDef>,
    existing_rkeys: &Vec<String>,
    now_us: i64,
    ui_endpoint: &str,
    labeler_did: &str,
) -> (r: Plan)
    requires
        0 <= now_us,
        now_us + 1000 * sorted@.len() < 0x20000000000000,
        forall|i: int|
            0 <= i < sorted@.len() ==> event_dates_ok(
                (#[trigger] sorted@[i]).start_date,
                sorted@[i].end_date,
            ),
    ensures
        ({
            let live = live_defs(def_views(old_defs@), str_views(existing_rkeys@));
            let adopted = adopt_all(live, views_of(sorted@));
            let finals = alloc_events(adopted, now_us as int, 0);
            &&& write_views(r.writes@) == delete_writes(live, event_ids(adopted))
                + create_writes_spec(adopted, now_us as int, 0, ui_endpoint@, labeler_did@) + seq![
                WriteView::PutLabelerService {
                    created_at: crate::event::rfc3339_of(now_us as int),
                    label_values: label_values_of(finals),
                    defs: service_defs_of(finals),
                },
            ]
            &&& views_of(r.map.events@) == finals
            &&& pair_views(r.map.rkeys_to_ids@) == dedup_pairs(pairs_of(finals))
            &&& forall|a: int, b: int|
                0 <= a < b < r.map.rkeys_to_ids@.len() ==> (#[trigger] r.map.rkeys_to_ids@[a]).0@
                    != (#[trigger] r.map.rkeys_to_ids@[b]).0@
            &&& crate::state::map_wf(r.map)
        }),
{
    let live = filter_live_defs(old_defs, existing_rkeys);
    let adopted = adopt_events(sorted, &live);
    let deletes = delete_writes_for(&live, &adopted);
    let ghost adoptedv = views_of(adopted@);
    proof {
        assert(event_ids(adoptedv) =~= event_ids(views_of(adopted@)));
    }
    let ghost sortedv = views_of(sorted@);
    let created = build_creations(adopted, now_us, ui_endpoint, labeler_did);
    let finals = created.0;
    let creates = created.1;
    proof {
        assert forall|m: int| 0 <= m < finals@.len() implies event_dates_ok(
            (#[trigger] finals@[m]).start_date,
            finals@[m].end_date,
        ) by {
            assert(finals@[m].start_date == adoptedv[m].start_date);
            assert(event_dates_ok(sorted@[m].start_date, sorted@[m].end_date));
        }
    }
    let service = build_service_record(&finals, now_us);
    let mut writes = deletes;
    let mut creates = creates;
    writes.append(&mut creates);
    writes.push(Write::PutLabelerService { record: service });
    let mut pairs: Vec<(String, String)> = Vec::new();
    let mut i: usize = 0;
    let ghost fv = views_of(finals@);
    while i < finals.len()
        invariant
            0 <= i <= finals@.len(),
            fv == views_of(finals@),
            forall|m: int| 0 <= m < finals@.len() ==> (#[trigger] fv[m]).rkey is Some,
            pairs@.len() == i,
            forall|m: int|
                0 <= m < i ==> (#[trigger] pairs@[m]).0@ == fv[m].rkey.unwrap() && pairs@[m].1@
                    == fv[m].id,
        decreases finals@.len() - i,
    {
        let e = &finals[i];
        match &e.rkey {
            Some(k) => {
                pairs.push((k.clone(), e.id.clone()));
            },
            None => {
                proof {
                    assert(fv[i as int].rkey is Some);
                    assert(e@ == fv[i as int]);
                    assert(false);
                }
            },
        }
        i = i + 1;
    }
    let ghost pv = pairs_of(fv);
    proof {
        assert(pair_views(pairs@) =~= pv);
        assert(Seq::<(Seq<char>, Seq<char>)>::empty() + dedup_pairs(pv) =~= dedup_pairs(pv));
    }
    let mut uniq: Vec<(String, String)> = Vec::new();
    let mut i2: usize = 0;
    while i2 < pairs.len()
        invariant
            0 <= i2 <= pairs@.len(),
            pair_views(pairs@) == pv,
            pv.len() == pairs@.len(),
            pair_views(uniq@) + dedup_pairs_from(pv, i2 as int) == dedup_pairs(pv),
        decreases pairs@.len() - i2,
    {
        let ghost pre = pair_views(uniq@);
        let mut is_last = true;
        let mut j: usize = i2 + 1;
        while j < pairs.len()
            invariant
                i2 < j <= pairs@.len(),
                pair_views(pairs@) == pv,
                pv.len() == pairs@.len(),
                is_last ==> forall|k: int| i2 < k < j ==> (#[trigger] pv[k]).0 != pv[i2 as int].0,
                !is_last ==> !pair_last_of_rkey(pv, i2 as int),
            decreases pairs@.len() - j,
        {
            if str_eq(pairs[j].0.as_str(), pairs[i2].0.as_str()) {
                proof {
                    assert(pv[j as int].0 == pv[i2 as int].0);
                }
                is_last = false;
            }
            j = j + 1;
        }
        if is_last {
            uniq.push((pairs[i2].0.clone(), pairs[i2].1.clone()));
            proof {
                assert(pair_last_of_rkey(pv, i2 as int));
                assert(pair_views(uniq@) =~= pre + seq![pv[i2 as int]]);
                assert(pre + (seq![pv[i2 as int]] + dedup_pairs_from(pv, i2 as int + 1))
                    =~= pair_views(uniq@) + dedup_pairs_from(pv, i2 as int + 1));
            }
        } else {
            proof {
                assert(!pair_last_of_rkey(pv, i2 as int));
            }
        }
        i2 = i2 + 1;
    }
    let map = crate::state::CorrelationMap { rkeys_to_ids: uniq, events: finals };
    proof {
        assert(pair_views(map.rkeys_to_ids@) + Seq::<(Seq<char>, Seq<char>)>::empty()
            =~= pair_views(map.rkeys_to_ids@));
        lemma_dedup_pairs_distinct(pv, 0);
        assert forall|a: int, b: int|
            0 <= a < b < map.rkeys_to_ids@.len() implies (#[trigger] map.rkeys_to_ids@[a]).0@ != (
        #[trigger] map.rkeys_to_ids@[b]).0@ by {
            assert(pair_views(map.rkeys_to_ids@)[a] == dedup_pairs(pv)[a]);
            assert(pair_views(map.rkeys_to_ids@)[b] == dedup_pairs(pv)[b]);
        }
        assert forall|m: int| 0 <= m < map.rkeys_to_ids@.len() implies crate::state::lookup_event(
            map.events@,
            (#[trigger] map.rkeys_to_ids@[m]).1@,
        ) is Some by {
            lemma_dedup_member(pv, 0, m);
            let mm = choose|mm: int|
                0 <= mm < pv.len() && pair_last_of_rkey(pv, mm) && dedup_pairs_from(pv, 0)[m]
                    == pv[mm];
            assert(pair_views(map.rkeys_to_ids@)[m] == pv[mm]);
            assert(map.rkeys_to_ids@[m].1@ == map.events@[mm].id@);
            crate::state::lemma_lookup_event_some(map.events@, mm);
        }
        assert(write_views(writes@) =~= delete_writes(
            live_defs(def_views(old_defs@), str_views(existing_rkeys@)),
            event_ids(adoptedv),
        ) + create_writes_spec(adoptedv, now_us as int, 0, ui_endpoint@, labeler_did@) + seq![
            WriteView::PutLabelerService {
                created_at: crate::event::rfc3339_of(now_us as int),
                label_values: label_values_of(fv),
                defs: service_defs_of(fv),
            },
        ]);
    }
    Plan { writes, map }
}

/// The definitions a published service record carries, as the next run
/// will read them back: each event's identifier, record key and id.
pub open spec fn defs_of_events(evs: Seq<EventView>) -> Seq<OldDefView> {
    evs.map_values(
        |e: EventView| OldDefView { identifier: e.label_id, post_rkey: e.rkey, event_id: e.id },
    )
}

proof fn lemma_alloc_shape(evs: Seq<EventView>, now_us: int, k: int)
    ensures
        alloc_events(evs, now_us, k).len() == evs.len(),
        forall|i: int|
            0 <= i < evs.len() ==> (#[trigger] alloc_events(evs, now_us, k)[i]).rkey is Some
                && alloc_events(evs, now_us, k)[i] == (EventView {
                rkey: alloc_events(evs, now_us, k)[i].rkey,
                ..evs[i]
            }),
    decreases evs.len(),
{
    if evs.len() > 0 {
        lemma_alloc_shape(evs.drop_first(), now_us, k);
        lemma_alloc_shape(evs.drop_first(), now_us, k + 1);
        assert forall|i: int| 0 <= i < evs.len() implies (#[trigger] alloc_events(
            evs,
            now_us,
            k,
        )[i]).rkey is Some && alloc_events(evs, now_us, k)[i] == (EventView {
            rkey: alloc_events(evs, now_us, k)[i].rkey,
            ..evs[i]
        }) by {
            if i > 0 {
                assert(evs.drop_first()[i - 1] == evs[i]);
            }
        }
    }
}

proof fn lemma_alloc_identity(evs: Seq<EventView>, now_us: int, k: int)
    requires
        forall|i: int| 0 <= i < evs.len() ==> (#[trigger] evs[i]).rkey is Some,
    ensures
        alloc_events(evs, now_us, k) == evs,
    decreases evs.len(),
{
    if evs.len() > 0 {
        assert(evs[0].rkey is Some);
        assert forall|i: int| 0 <= i < evs.drop_first().len() implies (#[trigger] evs.drop_first()[i]).rkey is Some by {
            assert(evs.drop_first()[i] == evs[i + 1]);
        }
        lemma_alloc_identity(evs.drop_first(), now_us, k);
        assert(alloc_events(evs, now_us, k) =~= evs);
    }
}

proof fn lemma_live_identity(defs: Seq<OldDefView>, existing: Seq<Seq<char>>)
    requires
        forall|i: int| 0 <= i < defs.len() ==> def_live(#[trigger] defs[i], existing),
    ensures
        live_defs(defs, existing) == defs,
    decreases defs.len(),
{
    if defs.len() > 0 {
        assert(def_live(defs[0], existing));
        assert forall|i: int| 0 <= i < defs.drop_first().len() implies def_live(
            #[trigger] defs.drop_first()[i],
            existing,
        ) by {
            assert(defs.drop_first()[i] == defs[i + 1]);
        }
        lemma_live_identity(defs.drop_first(), existing);
        assert(live_defs(defs, existing) =~= defs);
    }
}

proof fn lemma_delete_writes_empty(defs: Seq<OldDefView>, ids: Seq<Seq<char>>)
    requires
        forall|i: int| 0 <= i < defs.len() ==> ids.contains((#[trigger] defs[i]).event_id),
    ensures
        delete_writes(defs, ids) == Seq::<WriteView>::empty(),
    decreases defs.len(),
{
    if defs.len() > 0 {
        assert(ids.contains(defs[0].event_id));
        assert forall|i: int| 0 <= i < defs.drop_first().len() implies ids.contains(
            (#[trigger] defs.drop_first()[i]).event_id,
        ) by {
            assert(defs.drop_first()[i] == defs[i + 1]);
        }
        lemma_delete_writes_empty(defs.drop_first(), ids);
    }
}

proof fn lemma_create_writes_empty(
    evs: Seq<EventView>,
    now_us: int,
    k: int,
    ui: Seq<char>,
    did: Seq<char>,
)
    requires
        forall|i: int| 0 <= i < evs.len() ==> (#[trigger] evs[i]).rkey is Some,
    ensures
        create_writes_spec(evs, now_us, k, ui, did) == Seq::<WriteView>::empty(),
    decreases evs.len(),
{
    if evs.len() > 0 {
        assert(evs[0].rkey is Some);
        assert forall|i: int| 0 <= i < evs.drop_first().len() implies (#[trigger] evs.drop_first()[i]).rkey is Some by {
            assert(evs.drop_first()[i] == evs[i + 1]);
        }
        lemma_create_writes_empty(evs.drop_first(), now_us, k, ui, did);
    }
}

proof fn lemma_find_id_none(defs: Seq<OldDefView>, id: Seq<char>)
    requires
        forall|j: int| 0 <= j < defs.len() ==> (#[trigger] defs[j]).event_id != id,
    ensures
        find_def_id(defs, id) is None,
    decreases defs.len(),
{
    if defs.len() > 0 {
        assert(defs[0].event_id != id);
        assert forall|j: int| 0 <= j < defs.drop_first().len() implies (#[trigger] defs.drop_first()[j]).event_id != id by {
            assert(defs.drop_first()[j] == defs[j + 1]);
        }
        lemma_find_id_none(defs.drop_first(), id);
    }
}

proof fn lemma_find_both_none(defs: Seq<OldDefView>, id: Seq<char>, ident: Seq<char>)
    requires
        forall|j: int| 0 <= j < defs.len() ==> (#[trigger] defs[j]).event_id != id,
    ensures
        find_def_both(defs, id, ident) is None,
    decreases defs.len(),
{
    if defs.len() > 0 {
        assert(defs[0].event_id != id);
        assert forall|j: int| 0 <= j < defs.drop_first().len() implies (#[trigger] defs.drop_first()[j]).event_id != id by {
            assert(defs.drop_first()[j] == defs[j + 1]);
        }
        lemma_find_both_none(defs.drop_first(), id, ident);
    }
}

proof fn lemma_find_unique(defs: Seq<OldDefView>, i: int, ident: Seq<char>)
    requires
        0 <= i < defs.len(),
        forall|a: int, b: int|
            0 <= a < b < defs.len() ==> (#[trigger] defs[a]).event_id != (
            #[trigger] defs[b]).event_id,
    ensures
        find_def_id(defs, defs[i].event_id) == Some(defs[i]),
        find_def_both(defs, defs[i].event_id, ident) == if defs[i].identifier == ident {
            Some(defs[i])
        } else {
            None
        },
    decreases defs.len(),
{
    let id = defs[i].event_id;
    if i == 0 {
        assert forall|j: int| 0 <= j < defs.drop_first().len() implies (#[trigger] defs.drop_first()[j]).event_id != id by {
            assert(defs.drop_first()[j] == defs[j + 1]);
        }
        lemma_find_id_none(defs.drop_first(), id);
        lemma_find_both_none(defs.drop_first(), id, ident);
    } else {
        assert(defs[0].event_id != id);
        assert forall|a: int, b: int|
            0 <= a < b < defs.drop_first().len() implies (#[trigger] defs.drop_first()[a]).event_id
            != (#[trigger] defs.drop_first()[b]).event_id by {
            assert(defs.drop_first()[a] == defs[a + 1]);
            assert(defs.drop_first()[b] == defs[b + 1]);
        }
        assert(defs.drop_first()[i - 1] == defs[i]);
        lemma_find_unique(defs.drop_first(), i - 1, ident);
    }
}

/// Reconciling twice is idempotent: with the same listing, the service
/// record that the first run published, and a repository holding
/// everything it created, the second run schedules no creation and no
/// deletion, and settles on the same events — so the same correlation map
/// and the same service-record content, its creation time aside.
pub proof fn lemma_reconcile_idempotent(
    sorted: Seq<EventView>,
    live1: Seq<OldDefView>,
    existing2: Seq<Seq<char>>,
    now1: int,
    now2: int,
    ui: Seq<char>,
    did: Seq<char>,
)
    requires
        forall|a: int, b: int|
            0 <= a < b < sorted.len() ==> (#[trigger] sorted[a]).id != (#[trigger] sorted[b]).id,
        forall|i: int|
            0 <= i < sorted.len() ==> existing2.contains(
                (#[trigger] alloc_events(adopt_all(live1, sorted), now1, 0)[i]).rkey.unwrap(),
            ),
    ensures
        ({
            let finals1 = alloc_events(adopt_all(live1, sorted), now1, 0);
            let live2 = live_defs(defs_of_events(finals1), existing2);
            let adopted2 = adopt_all(live2, sorted);
            &&& adopted2 == finals1
            &&& alloc_events(adopted2, now2, 0) == finals1
            &&& delete_writes(live2, event_ids(adopted2)) == Seq::<WriteView>::empty()
            &&& create_writes_spec(adopted2, now2, 0, ui, did) == Seq::<WriteView>::empty()
        }),
{
    let adopted1 = adopt_all(live1, sorted);
    let finals1 = alloc_events(adopted1, now1, 0);
    let defs2 = defs_of_events(finals1);
    lemma_alloc_shape(adopted1, now1, 0);
    assert(adopted1.len() == sorted.len());
    assert(finals1.len() == sorted.len());

    // Every published definition is live: its record key exists.
    assert forall|i: int| 0 <= i < defs2.len() implies def_live(#[trigger] defs2[i], existing2) by {
        assert(defs2[i].post_rkey == finals1[i].rkey);
        assert(finals1[i].rkey is Some);
    }
    lemma_live_identity(defs2, existing2);
    let live2 = live_defs(defs2, existing2);
    assert(live2 == defs2);

    // Events keep their ids through adoption and allocation.
    assert forall|i: int| 0 <= i < sorted.len() implies (#[trigger] finals1[i]).id == sorted[i].id
        && (#[trigger] adopted1[i]).id == sorted[i].id by {
        assert(adopted1[i] == adopt_event(live1, sorted[i]));
    }

    // Each event adopts exactly its own published definition back.
    let adopted2 = adopt_all(live2, sorted);
    assert forall|i: int| 0 <= i < sorted.len() implies (#[trigger] adopted2[i]) == finals1[i] by {
        assert(adopted2[i] == adopt_event(defs2, sorted[i]));
        assert forall|a: int, b: int|
            0 <= a < b < defs2.len() implies (#[trigger] defs2[a]).event_id != (
            #[trigger] defs2[b]).event_id by {
            assert(defs2[a].event_id == sorted[a].id);
            assert(defs2[b].event_id == sorted[b].id);
        }
        assert(defs2[i].event_id == sorted[i].id);
        lemma_find_unique(defs2, i, sorted[i].label_id);
        assert(adopt_def(defs2, sorted[i]) == Some(defs2[i]));
        assert(adopted2[i] =~= finals1[i]);
    }
    assert(adopted2 =~= finals1);

    // All record keys stand, so nothing is created.
    assert forall|i: int| 0 <= i < adopted2.len() implies (#[trigger] adopted2[i]).rkey
        is Some by {
        assert(adopted2[i] == finals1[i]);
    }
    lemma_alloc_identity(adopted2, now2, 0);
    lemma_create_writes_empty(adopted2, now2, 0, ui, did);

    // Every definition's event still stands, so nothing is deleted.
    let ids = event_ids(adopted2);
    assert forall|i: int| 0 <= i < live2.len() implies ids.contains(
        (#[trigger] live2[i]).event_id,
    ) by {
        assert(ids[i] == adopted2[i].id);
        assert(live2[i].event_id == sorted[i].id);
        assert(ids[i] == sorted[i].id);
    }
    lemma_delete_writes_empty(live2, ids);
}

} // verus!
