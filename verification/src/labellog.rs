//! The label log: the append-only table of signed labels. Every insert is
//! assigned a sequence number strictly greater than all earlier ones, and
//! subscribers replay any tail of the log by sequence number.

use vstd::prelude::*;
use crate::label::{key_ok_of, sign_to_payload, spec_signed_payload, Label, SignError};
use crate::strutil::str_eq;

verus! {

/// One row of the label log.
pub struct LabelRow {
    pub seq: i64,
    pub val: String,
    pub uri: String,
    pub neg: bool,
    pub payload: Vec<u8>,
    pub like_rkey: Option<String>,
}

/// The mathematical shape of a row.
#[verifier::ext_equal]
pub ghost struct RowView {
    pub seq: int,
    pub val: Seq<char>,
    pub uri: Seq<char>,
    pub neg: bool,
    pub payload: Seq<u8>,
    pub like_rkey: Option<Seq<char>>,
}

impl View for LabelRow {
    type V = RowView;

    open spec fn view(&self) -> RowView {
        RowView {
            seq: self.seq as int,
            val: self.val@,
            uri: self.uri@,
            neg: self.neg,
            payload: self.payload@,
            like_rkey: match self.like_rkey {
                Some(k) => Some(k@),
                None => None,
            },
        }
    }
}

/// The in-memory model of the log table.
pub struct LabelLog {
    pub rows: Vec<LabelRow>,
}

impl View for LabelLog {
    type V = Seq<RowView>;

    open spec fn view(&self) -> Seq<RowView> {
        self.rows@.map_values(|r: LabelRow| r@)
    }
}

/// Sequence numbers are positive and strictly increasing in insertion
/// order.
pub open spec fn log_wf(rows: Seq<RowView>) -> bool {
    &&& forall|i: int| 0 <= i < rows.len() ==> (#[trigger] rows[i].seq) >= 1
    &&& forall|i: int, j: int|
        0 <= i < j < rows.len() ==> (#[trigger] rows[i].seq) < (#[trigger] rows[j].seq)
}

/// The largest assigned sequence number; zero on an empty log.
pub open spec fn spec_max_seq(rows: Seq<RowView>) -> int {
    if rows.len() == 0 {
        0
    } else {
        rows.last().seq
    }
}

/// Sequence numbers are monotone: of any two rows, the one inserted later
/// carries the strictly larger number.
pub proof fn lemma_monotone_seq(rows: Seq<RowView>, i: int, j: int)
    requires
        log_wf(rows),
        0 <= i < j < rows.len(),
    ensures
        rows[i].seq < rows[j].seq,
{
}

/// Every assigned sequence number is at most the maximum.
pub proof fn lemma_max_seq_bound(rows: Seq<RowView>, i: int)
    requires
        log_wf(rows),
        0 <= i < rows.len(),
    ensures
        rows[i].seq <= spec_max_seq(rows),
{
    if i < rows.len() - 1 {
        lemma_monotone_seq(rows, i, rows.len() - 1);
    }
}

/// Why an emission was refused.
#[derive(Debug)]
pub enum EmitError {
    /// Signing failed.
    Sign(SignError),
}

impl LabelLog {
    /// An empty log.
    pub fn new() -> (r: LabelLog)
        ensures
            r@ == Seq::<RowView>::empty(),
            log_wf(r@),
    {
        let r = LabelLog { rows: Vec::new() };
        proof {
            assert(r@ =~= Seq::<RowView>::empty());
        }
        r
    }

    /// The largest assigned sequence number, zero when no label was ever
    /// emitted.
    pub fn max_seq(&self) -> (r: i64)
        requires
            log_wf(self@),
        ensures
            r == spec_max_seq(self@),
    {
        if self.rows.len() == 0 {
            0
        } else {
            self.rows[self.rows.len() - 1].seq
        }
    }

    /// Signs `label` and appends it with the next sequence number, which is
    /// returned: strictly greater than every previously assigned one.
    /// Succeeds exactly when the label is unsigned and the key is a valid
    /// private scalar; on failure the log is unchanged.
    pub fn emit(&mut self, key: &Vec<u8>, label: &Label, like_rkey: &str) -> (r: Result<
        i64,
        EmitError,
    >)
        requires
            log_wf(old(self)@),
            spec_max_seq(old(self)@) < i64::MAX,
        ensures
            log_wf(final(self)@),
            (label@.sig is Some <==> (r matches Err(EmitError::Sign(e)) && e is AlreadySigned)),
            (r is Ok <==> (label@.sig is None && key_ok_of(key@))),
            r matches Err(_) ==> final(self)@ == old(self)@,
            r matches Ok(seq) ==> {
                &&& seq == spec_max_seq(old(self)@) + 1
                &&& forall|i: int|
                    0 <= i < old(self)@.len() ==> (#[trigger] old(self)@[i].seq) < seq
                &&& final(self)@.len() == old(self)@.len() + 1
                &&& final(self)@.subrange(0, old(self)@.len() as int) == old(self)@
                &&& {
                    let row = final(self)@.last();
                    &&& row.seq == seq
                    &&& row.val == label@.val
                    &&& row.uri == label@.uri
                    &&& row.neg == (label@.neg matches Some(true))
                    &&& row.like_rkey == Some(like_rkey@)
                    &&& row.payload == spec_signed_payload(key@, label@)
                }
            },
    {
        let payload = match sign_to_payload(key, label) {
            Ok(p) => p,
            Err(e) => {
                return Err(EmitError::Sign(e));
            },
        };
        let seq: i64 = self.max_seq() + 1;
        let neg = match &label.neg {
            Some(n) => *n,
            None => false,
        };
        let row = LabelRow {
            seq,
            val: label.val.clone(),
            uri: label.uri.clone(),
            neg,
            payload,
            like_rkey: Some(like_rkey.to_owned()),
        };
        proof {
            assert forall|i: int| 0 <= i < old(self)@.len() implies (#[trigger] old(
                self,
            )@[i].seq) <= spec_max_seq(old(self)@) by {
                lemma_max_seq_bound(old(self)@, i);
            }
        }
        self.rows.push(row);
        proof {
            assert(self@ =~= old(self)@.push(row@));
            assert(self@.subrange(0, old(self)@.len() as int) =~= old(self)@);
        }
        Ok(seq)
    }

    /// The `val` of the most recent non-negated row whose `like_rkey` and
    /// `uri` match, if any: the label a deletion must negate.
    pub fn find_current_val(&self, like_rkey: &str, uri: &str) -> (r: Option<String>)
        ensures
            match r {
                Some(v) => spec_find_current(self@, like_rkey@, uri@) == Some(v@),
                None => spec_find_current(self@, like_rkey@, uri@) is None,
            },
    {
        let mut i: usize = self.rows.len();
        proof {
            assert(self@.subrange(0, self@.len() as int) =~= self@);
        }
        while i > 0
            invariant
                0 <= i <= self@.len(),
                self@.len() == self.rows@.len(),
                spec_find_current(self@, like_rkey@, uri@) == spec_find_current(
                    self@.subrange(0, i as int),
                    like_rkey@,
                    uri@,
                ),
            decreases i,
        {
            i = i - 1;
            let row = &self.rows[i];
            let matches_key = match &row.like_rkey {
                Some(k) => str_eq(k.as_str(), like_rkey),
                None => false,
            };
            if matches_key && str_eq(row.uri.as_str(), uri) && !row.neg {
                proof {
                    let pre = self@.subrange(0, i as int + 1);
                    assert(pre.last() == self@[i as int]);
                }
                return Some(row.val.clone());
            }
            proof {
                let pre = self@.subrange(0, i as int + 1);
                assert(pre.last() == self@[i as int]);
                assert(pre.drop_last() =~= self@.subrange(0, i as int));
            }
        }
        proof {
            assert(self@.subrange(0, 0) =~= Seq::<RowView>::empty());
        }
        None
    }

    /// All rows with a sequence number above `cursor`, in log order, as
    /// `(seq, payload)` pairs: the tail a subscriber replays.
    pub fn rows_after(&self, cursor: i64) -> (r: Vec<(i64, Vec<u8>)>)
        ensures
            r@.len() == spec_tail(self@, cursor as int).len(),
            forall|i: int|
                0 <= i < r@.len() ==> (#[trigger] r@[i]).0 == spec_tail(self@, cursor as int)[i].seq
                    && r@[i].1@ == spec_tail(self@, cursor as int)[i].payload,
    {
        let mut r: Vec<(i64, Vec<u8>)> = Vec::new();
        let mut i: usize = 0;
        while i < self.rows.len()
            invariant
                0 <= i <= self@.len(),
                self@.len() == self.rows@.len(),
                r@.len() == spec_tail(self@.subrange(0, i as int), cursor as int).len(),
                forall|k: int|
                    0 <= k < r@.len() ==> (#[trigger] r@[k]).0 == spec_tail(
                        self@.subrange(0, i as int),
                        cursor as int,
                    )[k].seq && r@[k].1@ == spec_tail(
                        self@.subrange(0, i as int),
                        cursor as int,
                    )[k].payload,
            decreases self@.len() - i,
        {
            let ghost pre = self@.subrange(0, i as int);
            let row = &self.rows[i];
            if row.seq > cursor {
                r.push((row.seq, row.payload.clone()));
            }
            proof {
                let now = self@.subrange(0, i as int + 1);
                assert(now =~= pre.push(self@[i as int]));
                seq_filter_push(pre, above_cursor(cursor as int), self@[i as int]);
            }
            i = i + 1;
        }
        proof {
            assert(self@.subrange(0, self@.len() as int) =~= self@);
        }
        r
    }
}

/// Holds of the rows a subscriber at `cursor` must still receive.
pub open spec fn above_cursor(cursor: int) -> spec_fn(RowView) -> bool {
    |r: RowView| r.seq > cursor
}

/// The rows a subscriber at `cursor` must still receive: exactly those with
/// a larger sequence number, in log order.
pub open spec fn spec_tail(rows: Seq<RowView>, cursor: int) -> Seq<RowView> {
    rows.filter(above_cursor(cursor))
}

/// The most recent non-negated row with the given `like_rkey` and `uri`.
pub open spec fn spec_find_current(rows: Seq<RowView>, like_rkey: Seq<char>, uri: Seq<char>)
    -> Option<Seq<char>>
    decreases rows.len(),
{
    if rows.len() == 0 {
        None
    } else {
        let r = rows.last();
        if r.like_rkey == Some(like_rkey) && r.uri == uri && !r.neg {
            Some(r.val)
        } else {
            spec_find_current(rows.drop_last(), like_rkey, uri)
        }
    }
}

proof fn seq_filter_push(s: Seq<RowView>, pred: spec_fn(RowView) -> bool, x: RowView)
    ensures
        s.push(x).filter(pred) == if pred(x) {
            s.filter(pred).push(x)
        } else {
            s.filter(pred)
        },
{
    reveal(Seq::filter);
    assert(s.push(x).drop_last() =~= s);
    assert(s.push(x).last() == x);
}

/// Replay misses nothing: every row above the cursor stands in the tail,
/// and the tail keeps the log's order.
pub proof fn lemma_replay_complete(rows: Seq<RowView>, cursor: int, i: int)
    requires
        0 <= i < rows.len(),
        rows[i].seq > cursor,
    ensures
        spec_tail(rows, cursor).contains(rows[i]),
        log_wf(rows) ==> log_wf(spec_tail(rows, cursor)),
{
    rows.lemma_filter_contains(above_cursor(cursor), i);
    if log_wf(rows) {
        lemma_tail_wf(rows, cursor);
    }
}

proof fn lemma_filter_elem_of(s: Seq<RowView>, pred: spec_fn(RowView) -> bool, k: int)
    requires
        0 <= k < s.filter(pred).len(),
    ensures
        exists|m: int| 0 <= m < s.len() && s[m] == s.filter(pred)[k],
    decreases s.len(),
{
    reveal(Seq::filter);
    let f = s.filter(pred);
    let body = s.drop_last();
    if pred(s.last()) {
        if k == f.len() - 1 {
            assert(s[s.len() - 1] == f[k]);
        } else {
            lemma_filter_elem_of(body, pred, k);
            let m = choose|m: int| 0 <= m < body.len() && body[m] == body.filter(pred)[k];
            assert(s[m] == f[k]);
        }
    } else {
        lemma_filter_elem_of(body, pred, k);
        let m = choose|m: int| 0 <= m < body.len() && body[m] == body.filter(pred)[k];
        assert(s[m] == f[k]);
    }
}

/// The tail of a well-formed log is itself well-formed: replay hands rows
/// out in strictly increasing sequence order.
pub proof fn lemma_tail_wf(rows: Seq<RowView>, cursor: int)
    requires
        log_wf(rows),
    ensures
        log_wf(spec_tail(rows, cursor)),
    decreases rows.len(),
{
    reveal(Seq::filter);
    let pred = above_cursor(cursor);
    if rows.len() > 0 {
        let body = rows.drop_last();
        assert(log_wf(body));
        lemma_tail_wf(body, cursor);
        let fb = spec_tail(body, cursor);
        assert forall|k: int| 0 <= k < fb.len() implies (#[trigger] fb[k]).seq < rows.last().seq
            && fb[k].seq >= 1 by {
            lemma_filter_elem_of(body, pred, k);
            let m = choose|m: int| 0 <= m < body.len() && body[m] == fb[k];
            assert(rows[m] == body[m]);
            assert(rows[m].seq < rows[rows.len() - 1].seq);
        }
        if pred(rows.last()) {
            assert(spec_tail(rows, cursor) == fb.push(rows.last()));
            assert(log_wf(fb.push(rows.last())));
        } else {
            assert(spec_tail(rows, cursor) == fb);
        }
    }
}

/// Emitting after a replay hands the subscriber exactly the newly appended
/// rows: filtering distributes over appending.
pub proof fn lemma_replay_append(rows: Seq<RowView>, added: Seq<RowView>, cursor: int)
    ensures
        spec_tail(rows + added, cursor) == spec_tail(rows, cursor) + spec_tail(added, cursor),
{
    Seq::filter_distributes_over_add(rows, added, |r: RowView| r.seq > cursor);
}

} // verus!
