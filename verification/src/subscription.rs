//! The subscription stream: a log-tail protocol over framed binary
//! messages. A subscriber names the last sequence number it has seen; the
//! server replays everything above it, or refuses a cursor from the future.

use vstd::prelude::*;
use crate::cbor::{
    cbor_array_head, cbor_int, cbor_map_head, cbor_text, write_array_head, write_int,
    write_map_head, write_text,
};
use crate::labellog::{spec_max_seq, spec_tail, LabelLog};

verus! {

/// The error names a subscriber can be sent before the stream closes.
pub enum EventStreamError {
    /// The cursor lies beyond every assigned sequence number.
    FutureCursor,
}

impl EventStreamError {
    /// The error's wire name.
    pub fn as_str(&self) -> (r: &str)
        ensures
            r@ == spec_error_name(*self),
    {
        proof {
            reveal_strlit("FutureCursor");
        }
        match self {
            Self::FutureCursor => "FutureCursor",
        }
    }
}

/// The wire name of each stream error.
pub open spec fn spec_error_name(e: EventStreamError) -> Seq<char> {
    "FutureCursor"@
}

/// One outbound frame: either a batch of one label row, or a terminal
/// error.
pub enum Message<'a> {
    /// A label row: its sequence number and its signed payload.
    Labels { seq: i64, labels: &'a [u8] },
    /// A terminal error frame.
    Error { error: EventStreamError },
}

/// The bytes of a label frame: a two-entry header map, then a two-entry
/// body map whose `labels` array holds the already-encoded payload.
pub open spec fn spec_labels_frame(seq: int, labels: Seq<u8>) -> Seq<u8> {
    cbor_map_head(2) + cbor_text("t"@) + cbor_text("#labels"@) + cbor_text("op"@) + cbor_int(1)
        + cbor_map_head(2) + cbor_text("seq"@) + cbor_int(seq) + cbor_text("labels"@)
        + cbor_array_head(1) + labels
}

/// The bytes of an error frame.
pub open spec fn spec_error_frame(e: EventStreamError) -> Seq<u8> {
    cbor_map_head(1) + cbor_text("op"@) + cbor_int(-1) + cbor_map_head(1) + cbor_text("error"@)
        + cbor_text(spec_error_name(e))
}

/// What `encode_message` produces for each message.
pub open spec fn spec_encode_message(m: Message<'_>) -> Seq<u8> {
    match m {
        Message::Labels { seq, labels } => spec_labels_frame(seq as int, labels@),
        Message::Error { error } => spec_error_frame(error),
    }
}

/// Encodes one frame: the concatenation of a canonically encoded header
/// map and body map.
pub fn encode_message(msg: Message<'_>) -> (r: Vec<u8>)
    ensures
        r@ == spec_encode_message(msg),
{
    let mut out: Vec<u8> = Vec::new();
    match msg {
        Message::Labels { seq, labels } => {
            write_map_head(&mut out, 2);
            write_text(&mut out, "t");
            write_text(&mut out, "#labels");
            write_text(&mut out, "op");
            write_int(&mut out, 1);
            write_map_head(&mut out, 2);
            write_text(&mut out, "seq");
            write_int(&mut out, seq);
            write_text(&mut out, "labels");
            write_array_head(&mut out, 1);
            out.extend_from_slice(labels);
            proof {
                assert(out@ =~= spec_labels_frame(seq as int, labels@));
            }
        },
        Message::Error { error } => {
            write_map_head(&mut out, 1);
            write_text(&mut out, "op");
            write_int(&mut out, -1);
            write_map_head(&mut out, 1);
            write_text(&mut out, "error");
            let name = error.as_str();
            write_text(&mut out, name);
            proof {
                assert(out@ =~= spec_error_frame(error));
            }
        },
    }
    out
}

/// Where a new subscription starts: at its cursor when it names one that
/// is already assigned, at the present maximum when it names none, and
/// nowhere when the cursor lies in the future.
pub fn subscription_start(max_seq: i64, cursor: Option<i64>) -> (r: Result<i64, EventStreamError>)
    ensures
        match cursor {
            Some(c) => {
                if c > max_seq {
                    r matches Err(e) && e is FutureCursor
                } else {
                    r == Ok::<i64, EventStreamError>(c)
                }
            },
            None => r == Ok::<i64, EventStreamError>(max_seq),
        },
{
    match cursor {
        Some(c) => {
            if c > max_seq {
                Err(EventStreamError::FutureCursor)
            } else {
                Ok(c)
            }
        },
        None => Ok(max_seq),
    }
}

/// Drains everything above `since` from the log, in order, each row framed
/// for the wire; returns the frames and the last sequence number sent
/// (`since` when there was nothing to send).
pub fn drain_frames(log: &LabelLog, since: i64) -> (r: (Vec<Vec<u8>>, i64))
    ensures
        ({
            let tail = spec_tail(log@, since as int);
            &&& r.0@.len() == tail.len()
            &&& forall|i: int|
                0 <= i < tail.len() ==> (#[trigger] r.0@[i])@ == spec_labels_frame(
                    tail[i].seq,
                    tail[i].payload,
                )
            &&& r.1 == if tail.len() == 0 {
                since as int
            } else {
                tail.last().seq
            }
        }),
{
    let rows = log.rows_after(since);
    let mut frames: Vec<Vec<u8>> = Vec::new();
    let mut last: i64 = since;
    let mut i: usize = 0;
    let ghost tail = spec_tail(log@, since as int);
    while i < rows.len()
        invariant
            0 <= i <= rows@.len(),
            rows@.len() == tail.len(),
            forall|k: int|
                0 <= k < tail.len() ==> (#[trigger] rows@[k]).0 == tail[k].seq && rows@[k].1@
                    == tail[k].payload,
            frames@.len() == i,
            forall|k: int|
                0 <= k < i ==> (#[trigger] frames@[k])@ == spec_labels_frame(
                    tail[k].seq,
                    tail[k].payload,
                ),
            last == if i == 0 {
                since as int
            } else {
                tail[i - 1].seq
            },
        decreases rows@.len() - i,
    {
        let row = &rows[i];
        let frame = encode_message(Message::Labels { seq: row.0, labels: row.1.as_slice() });
        frames.push(frame);
        last = row.0;
        i = i + 1;
    }
    (frames, last)
}

/// A future cursor has nothing behind it: when the cursor exceeds the
/// log's maximum, no row at all stands above it, so a subscriber holding
/// one is sent the error frame and never a row.
pub proof fn lemma_future_cursor_rejected(log: Seq<crate::labellog::RowView>, cursor: i64)
    requires
        crate::labellog::log_wf(log),
        cursor as int > spec_max_seq(log),
    ensures
        spec_tail(log, cursor as int).len() == 0,
{
    lemma_tail_of_max_empty(log, cursor as int);
}

proof fn lemma_tail_of_max_empty(log: Seq<crate::labellog::RowView>, m: int)
    requires
        crate::labellog::log_wf(log),
        m >= spec_max_seq(log),
    ensures
        spec_tail(log, m).len() == 0,
    decreases log.len(),
{
    reveal(Seq::filter);
    if log.len() > 0 {
        let body = log.drop_last();
        assert(crate::labellog::log_wf(body));
        if body.len() > 0 {
            crate::labellog::lemma_max_seq_bound(log, log.len() - 2);
            assert(body.last() == log[log.len() - 2]);
        }
        lemma_tail_of_max_empty(body, m);
        assert(!(crate::labellog::above_cursor(m)(log.last())));
    }
}

} // verus!
