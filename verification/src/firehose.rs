//! The firehose consumer's logic: the decoded event stream, the at-uri
//! reading that correlates a like with one of the labeler's posts, and the
//! decisions taken on each commit — which label to emit, and when to
//! checkpoint the cursor. The WebSocket itself is driven outside; every
//! decision here is a function of plain values.

use vstd::prelude::*;
use vstd::string::StrSliceExecFns;
use crate::event::{
    rfc3339_micros, rfc3339_of, spec_end_time, spec_grace_period, Event as CatalogEvent,
};
use crate::label::{Label, LabelView};
use crate::labellog::{
    log_wf, spec_find_current, spec_max_seq, EmitError, LabelLog,
};
use crate::state::{lookup_event, lookup_id, map_wf, CorrelationMap};
use crate::strutil::str_eq;

verus! {

/// One decoded firehose event.
pub struct Event {
    pub did: String,
    pub time_us: u64,
    pub kind: EventKind,
}

/// What the event reports.
pub enum EventKind {
    Commit { commit: Commit },
    Identity { identity: Identity },
    Account { account: Account },
}

/// A repository commit.
pub struct Commit {
    pub rev: String,
    pub collection: String,
    pub rkey: String,
    pub operation: CommitOperation,
}

/// What the commit did to its record.
pub enum CommitOperation {
    Create { record: RecordBody, cid: String },
    Update { record: RecordBody, cid: String },
    Delete {},
}

/// The record carried by a create or update, reduced to what the
/// consumer reads: a like's subject, or something else.
pub enum RecordBody {
    Like { subject_uri: String },
    Other,
}

/// An identity event.
pub struct Identity {
    pub did: String,
    pub handle: Option<String>,
    pub seq: u64,
    pub time: String,
}

/// An account event.
pub struct Account {
    pub active: bool,
    pub did: String,
    pub seq: u64,
    pub time: String,
    pub status: Option<AccountStatus>,
}

/// An account's standing.
pub enum AccountStatus {
    Deactivated,
    Deleted,
    Suspended,
    TakenDown,
}

/// The index of the first `/` in `s` at or after `from`; the length when
/// there is none.
pub open spec fn first_slash(s: Seq<char>, from: int) -> int
    decreases s.len() - from when 0 <= from <= s.len()
{
    if from >= s.len() {
        s.len() as int
    } else if s[from] == '/' {
        from
    } else {
        first_slash(s, from + 1)
    }
}

/// How an at-uri decomposes: `at://<did>/<collection>/<rkey>`, the record
/// key keeping any further slashes.
pub open spec fn spec_parse_at_uri(s: Seq<char>) -> Option<(Seq<char>, Seq<char>, Seq<char>)> {
    if s.len() < 5 || s.take(5) != seq!['a', 't', ':', '/', '/'] {
        None
    } else {
        let i1 = first_slash(s, 5);
        let i2 = first_slash(s, i1 + 1);
        if i1 >= s.len() || i2 >= s.len() {
            None
        } else {
            Some(
                (s.subrange(5, i1), s.subrange(i1 + 1, i2), s.subrange(i2 + 1, s.len() as int)),
            )
        }
    }
}

fn find_slash(v: &Vec<char>, from: usize) -> (r: usize)
    requires
        from <= v@.len(),
    ensures
        r == first_slash(v@, from as int),
        from <= r <= v@.len(),
        r < v@.len() ==> v@[r as int] == '/',
{
    let mut i = from;
    while i < v.len()
        invariant
            from <= i <= v@.len(),
            first_slash(v@, from as int) == first_slash(v@, i as int),
        decreases v@.len() - i,
    {
        if v[i] == '/' {
            return i;
        }
        i = i + 1;
    }
    i
}

/// Splits an at-uri into its repository, collection and record key, the
/// key keeping any further slashes; `None` when the scheme or either
/// separator is missing.
pub fn parse_at_uri(s: &str) -> (r: Option<(String, String, String)>)
    ensures
        match r {
            Some(p) => spec_parse_at_uri(s@) == Some((p.0@, p.1@, p.2@)),
            None => spec_parse_at_uri(s@) is None,
        },
{
    let v = crate::strutil::chars_vec(s);
    if v.len() < 5 {
        return None;
    }
    if !(v[0] == 'a' && v[1] == 't' && v[2] == ':' && v[3] == '/' && v[4] == '/') {
        proof {
            assert(s@.take(5) != seq!['a', 't', ':', '/', '/']);
        }
        return None;
    }
    proof {
        assert(s@.take(5) =~= seq!['a', 't', ':', '/', '/']);
    }
    let i1 = find_slash(&v, 5);
    if i1 >= v.len() {
        return None;
    }
    let i2 = find_slash(&v, i1 + 1);
    if i2 >= v.len() {
        return None;
    }
    let mut did: Vec<char> = Vec::new();
    let mut k: usize = 5;
    while k < i1
        invariant
            5 <= k <= i1 <= v@.len(),
            did@ == v@.subrange(5, k as int),
        decreases i1 - k,
    {
        did.push(v[k]);
        proof {
            assert(did@ =~= v@.subrange(5, k as int + 1));
        }
        k = k + 1;
    }
    let mut coll: Vec<char> = Vec::new();
    let mut k2: usize = i1 + 1;
    while k2 < i2
        invariant
            i1 + 1 <= k2 <= i2 <= v@.len(),
            coll@ == v@.subrange(i1 as int + 1, k2 as int),
        decreases i2 - k2,
    {
        coll.push(v[k2]);
        proof {
            assert(coll@ =~= v@.subrange(i1 as int + 1, k2 as int + 1));
        }
        k2 = k2 + 1;
    }
    let mut rkey: Vec<char> = Vec::new();
    let mut k3: usize = i2 + 1;
    while k3 < v.len()
        invariant
            i2 + 1 <= k3 <= v@.len(),
            rkey@ == v@.subrange(i2 as int + 1, k3 as int),
        decreases v@.len() - k3,
    {
        rkey.push(v[k3]);
        proof {
            assert(rkey@ =~= v@.subrange(i2 as int + 1, k3 as int + 1));
        }
        k3 = k3 + 1;
    }
    Some(
        (
            crate::strutil::string_from_chars(&did),
            crate::strutil::string_from_chars(&coll),
            crate::strutil::string_from_chars(&rkey),
        ),
    )
}

/// The collection the labeler's own posts live in.
pub open spec fn post_collection() -> Seq<char> {
    "app.bsky.feed.post"@
}

/// Which event a like correlates to: the subject must be a post of the
/// labeler's own repository whose record key the map knows.
pub open spec fn spec_like_decision(
    m: CorrelationMap,
    labeler_did: Seq<char>,
    subject_uri: Seq<char>,
) -> Option<LikeChoice> {
    match spec_parse_at_uri(subject_uri) {
        None => None,
        Some((did, coll, rkey)) => {
            if did != labeler_did || coll != post_collection() {
                None
            } else {
                match lookup_id(m.rkeys_to_ids@, rkey) {
                    None => None,
                    Some(id) => match lookup_event(m.events@, id) {
                        None => None,
                        Some(ev) => Some(LikeChoice { id, event: ev }),
                    },
                }
            }
        },
    }
}

/// What a like correlates to.
pub ghost struct LikeChoice {
    pub id: Seq<char>,
    pub event: CatalogEvent,
}

/// The positive label a matched like gives rise to.
pub open spec fn spec_like_label(
    ev: CatalogEvent,
    labeler_did: Seq<char>,
    author_did: Seq<char>,
    time_us: int,
    exp_us: int,
) -> LabelView {
    LabelView {
        val: ev.label_id@,
        uri: author_did,
        src: labeler_did,
        cts: rfc3339_of(time_us),
        exp: Some(rfc3339_of(exp_us)),
        neg: None,
        ver: Some(1),
        sig: None,
    }
}

/// The negation label a like's deletion gives rise to.
pub open spec fn spec_negation_label(
    val: Seq<char>,
    labeler_did: Seq<char>,
    author_did: Seq<char>,
    time_us: int,
) -> LabelView {
    LabelView {
        val: val,
        uri: author_did,
        src: labeler_did,
        cts: rfc3339_of(time_us),
        exp: None,
        neg: Some(true),
        ver: Some(1),
        sig: None,
    }
}

/// The positive label a like gives rise to, when its subject is one of
/// the labeler's own posts, its record key is correlated to an event, and
/// the expiry instant is representable: the event's identifier on the
/// liker, expiring seven days after the event's end.
pub fn like_label_for(
    m: &CorrelationMap,
    labeler_did: &str,
    time_us: u64,
    subject_uri: &str,
    author_did: &str,
) -> (r: Option<Label>)
    requires
        map_wf(*m),
        time_us <= 253402300799999999,
    ensures
        spec_like_decision(*m, labeler_did@, subject_uri@) is None ==> r is None,
        ({
            let choice = spec_like_decision(*m, labeler_did@, subject_uri@);
            choice matches Some(c) && (spec_end_time(c.event.end_date, c.event.timezone_view())
                matches Some(t) && 0 <= t && t + spec_grace_period() <= 253402300799999999)
                ==> r is Some
        }),
        r matches Some(label) ==> {
            let choice = spec_like_decision(*m, labeler_did@, subject_uri@);
            let ev = choice.unwrap().event;
            let exp_us = spec_end_time(ev.end_date, ev.timezone_view()).unwrap()
                + spec_grace_period();
            &&& choice is Some
            &&& spec_end_time(ev.end_date, ev.timezone_view()) is Some
            &&& label@ == spec_like_label(ev, labeler_did@, author_did@, time_us as int, exp_us)
        },
{
    let parsed = match parse_at_uri(subject_uri) {
        Some(p) => p,
        None => {
            return None;
        },
    };
    if !str_eq(parsed.0.as_str(), labeler_did) {
        return None;
    }
    if !str_eq(parsed.1.as_str(), "app.bsky.feed.post") {
        return None;
    }
    let id = match m.id_for_rkey(parsed.2.as_str()) {
        Some(id) => id,
        None => {
            return None;
        },
    };
    let ev = match m.event_for_id(id.as_str()) {
        Some(ev) => ev,
        None => {
            return None;
        },
    };
    proof {
        crate::state::lemma_lookup_event_wf(*m, id@);
    }
    let end = match ev.end_time() {
        Some(t) => t,
        None => {
            return None;
        },
    };
    if end > i64::MAX - 604800000000 {
        return None;
    }
    let exp_us: i64 = end + 604800000000;
    let cts = match rfc3339_micros(time_us as i64) {
        Some(c) => c,
        None => {
            return None;
        },
    };
    let exp = match rfc3339_micros(exp_us) {
        Some(e) => e,
        None => {
            return None;
        },
    };
    let label = Label {
        val: ev.label_id.clone(),
        uri: author_did.to_owned(),
        src: labeler_did.to_owned(),
        cts,
        exp: Some(exp),
        neg: None,
        ver: Some(1),
        sig: None,
    };
    proof {
        assert(label@ =~= spec_like_label(
            spec_like_decision(*m, labeler_did@, subject_uri@).unwrap().event,
            labeler_did@,
            author_did@,
            time_us as int,
            exp_us as int,
        ));
    }
    Some(label)
}

/// The negation label that reverses the current label `val` on a liker.
pub fn negation_label_for(val: &str, labeler_did: &str, time_us: u64, author_did: &str) -> (r:
    Label)
    requires
        time_us <= 253402300799999999,
    ensures
        r@ == spec_negation_label(val@, labeler_did@, author_did@, time_us as int),
{
    let cts = match rfc3339_micros(time_us as i64) {
        Some(c) => c,
        None => {
            proof {
                assert(false);
            }
            String::new()
        },
    };
    let label = Label {
        val: val.to_owned(),
        uri: author_did.to_owned(),
        src: labeler_did.to_owned(),
        cts,
        exp: None,
        neg: Some(true),
        ver: Some(1),
        sig: None,
    };
    proof {
        assert(label@ =~= spec_negation_label(val@, labeler_did@, author_did@, time_us as int));
    }
    label
}

/// Handles `commit.create` of a like: when the like's subject is one of
/// the labeler's own posts and its record key is correlated to an event,
/// exactly one positive label row is appended; anything else leaves the
/// log untouched. Emission is owed whenever the like matches, its expiry
/// is representable, and the key is a valid private scalar.
pub fn handle_like_create(
    m: &CorrelationMap,
    log: &mut LabelLog,
    key: &Vec<u8>,
    labeler_did: &str,
    time_us: u64,
    subject_uri: &str,
    author_did: &str,
    like_rkey: &str,
) -> (r: Result<Option<i64>, EmitError>)
    requires
        map_wf(*m),
        log_wf(old(log)@),
        spec_max_seq(old(log)@) < i64::MAX,
        time_us <= 253402300799999999,
    ensures
        log_wf(final(log)@),
        spec_like_decision(*m, labeler_did@, subject_uri@) is None ==> r == Ok::<
            Option<i64>,
            EmitError,
        >(None) && final(log)@ == old(log)@,
        r matches Ok(None) ==> final(log)@ == old(log)@,
        r matches Err(_) ==> final(log)@ == old(log)@ && !crate::label::key_ok_of(key@),
        ({
            let choice = spec_like_decision(*m, labeler_did@, subject_uri@);
            choice matches Some(c) && (spec_end_time(c.event.end_date, c.event.timezone_view())
                matches Some(t) && 0 <= t && t + spec_grace_period() <= 253402300799999999)
                ==> !(r matches Ok(None))
        }),
        ({
            let choice = spec_like_decision(*m, labeler_did@, subject_uri@);
            choice matches Some(c) && (spec_end_time(c.event.end_date, c.event.timezone_view())
                matches Some(t) && 0 <= t && t + spec_grace_period() <= 253402300799999999)
                && crate::label::key_ok_of(key@) ==> r matches Ok(Some(_))
        }),
        r matches Ok(Some(seq)) ==> {
            let choice = spec_like_decision(*m, labeler_did@, subject_uri@);
            let ev = choice.unwrap().event;
            &&& choice is Some
            &&& seq == spec_max_seq(old(log)@) + 1
            &&& final(log)@.len() == old(log)@.len() + 1
            &&& final(log)@.subrange(0, old(log)@.len() as int) == old(log)@
            &&& {
                let row = final(log)@.last();
                let exp_us = spec_end_time(ev.end_date, ev.timezone_view()).unwrap()
                    + spec_grace_period();
                &&& row.seq == seq
                &&& row.val == ev.label_id@
                &&& row.uri == author_did@
                &&& !row.neg
                &&& row.like_rkey == Some(like_rkey@)
                &&& row.payload == crate::label::spec_signed_payload(
                    key@,
                    spec_like_label(ev, labeler_did@, author_did@, time_us as int, exp_us),
                )
            }
        },
{
    let label = match like_label_for(m, labeler_did, time_us, subject_uri, author_did) {
        Some(label) => label,
        None => {
            return Ok(None);
        },
    };
    match log.emit(key, &label, like_rkey) {
        Ok(seq) => Ok(Some(seq)),
        Err(e) => Err(e),
    }
}

/// Handles `commit.delete` of a like: the most recent non-negated row for
/// that like is negated by a fresh row carrying the same `val` and `uri`;
/// a like that never produced a current label leaves the log untouched.
/// Emission is owed whenever such a row exists and the key is a valid
/// private scalar.
pub fn handle_like_delete(
    log: &mut LabelLog,
    key: &Vec<u8>,
    labeler_did: &str,
    time_us: u64,
    author_did: &str,
    like_rkey: &str,
) -> (r: Result<Option<i64>, EmitError>)
    requires
        log_wf(old(log)@),
        spec_max_seq(old(log)@) < i64::MAX,
        time_us <= 253402300799999999,
    ensures
        log_wf(final(log)@),
        ((r matches Ok(None)) <==> spec_find_current(old(log)@, like_rkey@, author_did@)
            is None),
        r matches Ok(None) ==> final(log)@ == old(log)@,
        r matches Err(_) ==> final(log)@ == old(log)@ && !crate::label::key_ok_of(key@),
        spec_find_current(old(log)@, like_rkey@, author_did@) is Some && crate::label::key_ok_of(
            key@,
        ) ==> r matches Ok(Some(_)),
        r matches Ok(Some(seq)) ==> {
            let cur = spec_find_current(old(log)@, like_rkey@, author_did@);
            &&& cur is Some
            &&& seq == spec_max_seq(old(log)@) + 1
            &&& final(log)@.len() == old(log)@.len() + 1
            &&& final(log)@.subrange(0, old(log)@.len() as int) == old(log)@
            &&& {
                let row = final(log)@.last();
                &&& row.seq == seq
                &&& row.val == cur.unwrap()
                &&& row.uri == author_did@
                &&& row.neg
                &&& row.like_rkey == Some(like_rkey@)
                &&& row.payload == crate::label::spec_signed_payload(
                    key@,
                    spec_negation_label(cur.unwrap(), labeler_did@, author_did@, time_us as int),
                )
            }
        },
{
    let val = match log.find_current_val(like_rkey, author_did) {
        Some(v) => v,
        None => {
            return Ok(None);
        },
    };
    let label = negation_label_for(val.as_str(), labeler_did, time_us, author_did);
    match log.emit(key, &label, like_rkey) {
        Ok(seq) => Ok(Some(seq)),
        Err(e) => Err(e),
    }
}

/// Whether the firehose cursor is due for a checkpoint: at most one
/// checkpoint per interval.
pub fn should_checkpoint_cursor(now_us: u64, last_committed_us: u64, every_us: u64) -> (r: bool)
    ensures
        r == (now_us >= last_committed_us + every_us),
{
    if now_us < last_committed_us {
        false
    } else {
        now_us - last_committed_us >= every_us
    }
}

/// What a zstd frame holds under a decoder dictionary; `None` when the
/// frame is not valid against it.
pub uninterp spec fn zstd_dict_decode_of(dict: Seq<u8>, frame: Seq<u8>) -> Option<Seq<u8>>;

/// Relies on `zstd`'s streaming decoder with a prepared dictionary: the
/// decoded bytes are a function of the dictionary and the frame alone.
#[verifier::external_body]
pub fn decompress_frame(dict: &Vec<u8>, frame: &Vec<u8>) -> (r: Option<Vec<u8>>)
    ensures
        match r {
            Some(b) => zstd_dict_decode_of(dict@, frame@) == Some(b@),
            None => zstd_dict_decode_of(dict@, frame@) is None,
        },
{
    let prepared = zstd::dict::DecoderDictionary::copy(dict);
    let cursor = std::io::Cursor::new(frame);
    let mut decoder = zstd::stream::Decoder::with_prepared_dictionary(cursor, &prepared).ok()?;
    let mut out = Vec::new();
    std::io::Read::read_to_end(&mut decoder, &mut out).ok()?;
    Some(out)
}

} // verus!
