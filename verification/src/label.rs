//! The label record: a signed assertion attaching a tag to a subject. Holds
//! the canonical encoding (deterministic CBOR, sorted keys, definite
//! lengths) and the signing step over that encoding with `sig` absent.

use vstd::prelude::*;
use vstd::utf8::is_ascii_chars;
use crate::cbor::{
    cbor_bool, cbor_bytes, cbor_int, cbor_map_head, cbor_text, lemma_read_bool_at,
    lemma_read_bytes_at, lemma_read_head_at, lemma_read_int_at, lemma_read_text_at,
    read_bool_item, read_bytes_item, read_int_item, read_text_item, spec_read_head, write_bool,
    write_bytes, write_int, write_map_head, write_text,
};

verus! {

/// A label: tag `val` on subject `uri`, issued by `src` at `cts`, with
/// optional expiry, negation flag, version and signature. Timestamps are
/// carried in their serialized form.
pub struct Label {
    pub val: String,
    pub uri: String,
    pub src: String,
    pub cts: String,
    pub exp: Option<String>,
    pub neg: Option<bool>,
    pub ver: Option<i64>,
    pub sig: Option<Vec<u8>>,
}

/// The mathematical shape of a label.
#[verifier::ext_equal]
pub ghost struct LabelView {
    pub val: Seq<char>,
    pub uri: Seq<char>,
    pub src: Seq<char>,
    pub cts: Seq<char>,
    pub exp: Option<Seq<char>>,
    pub neg: Option<bool>,
    pub ver: Option<int>,
    pub sig: Option<Seq<u8>>,
}

impl View for Label {
    type V = LabelView;

    open spec fn view(&self) -> LabelView {
        LabelView {
            val: self.val@,
            uri: self.uri@,
            src: self.src@,
            cts: self.cts@,
            exp: match self.exp {
                Some(e) => Some(e@),
                None => None,
            },
            neg: self.neg,
            ver: match self.ver {
                Some(v) => Some(v as int),
                None => None,
            },
            sig: match self.sig {
                Some(s) => Some(s@),
                None => None,
            },
        }
    }
}

/// `l` with its signature replaced.
pub open spec fn with_sig(l: LabelView, sig: Seq<u8>) -> LabelView {
    LabelView { sig: Some(sig), ..l }
}

/// How many map entries the canonical encoding has: the four required
/// fields and one per present optional field.
pub open spec fn label_entry_count(l: LabelView) -> nat {
    (4 + (if l.exp is Some {
        1int
    } else {
        0int
    }) + (if l.neg is Some {
        1int
    } else {
        0int
    }) + (if l.sig is Some {
        1int
    } else {
        0int
    }) + (if l.ver is Some {
        1int
    } else {
        0int
    })) as nat
}

/// The `cts` map entry.
pub open spec fn entry_cts(l: LabelView) -> Seq<u8> {
    cbor_text(seq!['c', 't', 's']) + cbor_text(l.cts)
}

/// The `exp` map entry, empty when the field is absent.
pub open spec fn entry_exp(l: LabelView) -> Seq<u8> {
    if l.exp is Some {
        cbor_text(seq!['e', 'x', 'p']) + cbor_text(l.exp.unwrap())
    } else {
        Seq::<u8>::empty()
    }
}

/// The `neg` map entry, empty when the field is absent.
pub open spec fn entry_neg(l: LabelView) -> Seq<u8> {
    if l.neg is Some {
        cbor_text(seq!['n', 'e', 'g']) + cbor_bool(l.neg.unwrap())
    } else {
        Seq::<u8>::empty()
    }
}

/// The `sig` map entry, empty when the field is absent.
pub open spec fn entry_sig(l: LabelView) -> Seq<u8> {
    if l.sig is Some {
        cbor_text(seq!['s', 'i', 'g']) + cbor_bytes(l.sig.unwrap())
    } else {
        Seq::<u8>::empty()
    }
}

/// The `src` map entry.
pub open spec fn entry_src(l: LabelView) -> Seq<u8> {
    cbor_text(seq!['s', 'r', 'c']) + cbor_text(l.src)
}

/// The `uri` map entry.
pub open spec fn entry_uri(l: LabelView) -> Seq<u8> {
    cbor_text(seq!['u', 'r', 'i']) + cbor_text(l.uri)
}

/// The `val` map entry.
pub open spec fn entry_val(l: LabelView) -> Seq<u8> {
    cbor_text(seq!['v', 'a', 'l']) + cbor_text(l.val)
}

/// The `ver` map entry, empty when the field is absent.
pub open spec fn entry_ver(l: LabelView) -> Seq<u8> {
    if l.ver is Some {
        cbor_text(seq!['v', 'e', 'r']) + cbor_int(l.ver.unwrap())
    } else {
        Seq::<u8>::empty()
    }
}

/// The canonical encoding of a label: one definite-length map whose keys
/// stand in byte order, absent fields left out entirely.
pub open spec fn spec_encode_label(l: LabelView) -> Seq<u8> {
    cbor_map_head(label_entry_count(l)) + entry_cts(l) + entry_exp(l) + entry_neg(l)
        + entry_sig(l) + entry_src(l) + entry_uri(l) + entry_val(l) + entry_ver(l)
}

/// Encodes a label canonically: the same label always yields the same
/// bytes.
#[verifier::rlimit(60)]
pub fn encode_label(l: &Label) -> (r: Vec<u8>)
    ensures
        r@ == spec_encode_label(l@),
{
    proof {
        reveal_strlit("cts");
        reveal_strlit("exp");
        reveal_strlit("neg");
        reveal_strlit("sig");
        reveal_strlit("src");
        reveal_strlit("uri");
        reveal_strlit("val");
        reveal_strlit("ver");
        assert("cts"@ =~= seq!['c', 't', 's']);
        assert("exp"@ =~= seq!['e', 'x', 'p']);
        assert("neg"@ =~= seq!['n', 'e', 'g']);
        assert("sig"@ =~= seq!['s', 'i', 'g']);
        assert("src"@ =~= seq!['s', 'r', 'c']);
        assert("uri"@ =~= seq!['u', 'r', 'i']);
        assert("val"@ =~= seq!['v', 'a', 'l']);
        assert("ver"@ =~= seq!['v', 'e', 'r']);
    }
    let mut out: Vec<u8> = Vec::new();
    let mut count: u64 = 4;
    if l.exp.is_some() {
        count = count + 1;
    }
    if l.neg.is_some() {
        count = count + 1;
    }
    if l.sig.is_some() {
        count = count + 1;
    }
    if l.ver.is_some() {
        count = count + 1;
    }
    assert(count == label_entry_count(l@));
    write_map_head(&mut out, count);
    let ghost h = cbor_map_head(label_entry_count(l@));
    assert(out@ =~= h);
    write_text(&mut out, "cts");
    write_text(&mut out, l.cts.as_str());
    assert(out@ =~= h + entry_cts(l@));
    match &l.exp {
        Some(exp) => {
            write_text(&mut out, "exp");
            write_text(&mut out, exp.as_str());
        },
        None => {},
    }
    assert(out@ =~= h + entry_cts(l@) + entry_exp(l@));
    match &l.neg {
        Some(neg) => {
            write_text(&mut out, "neg");
            write_bool(&mut out, *neg);
        },
        None => {},
    }
    assert(out@ =~= h + entry_cts(l@) + entry_exp(l@) + entry_neg(l@));
    match &l.sig {
        Some(sig) => {
            write_text(&mut out, "sig");
            write_bytes(&mut out, sig.as_slice());
        },
        None => {},
    }
    assert(out@ =~= h + entry_cts(l@) + entry_exp(l@) + entry_neg(l@) + entry_sig(l@));
    write_text(&mut out, "src");
    write_text(&mut out, l.src.as_str());
    write_text(&mut out, "uri");
    write_text(&mut out, l.uri.as_str());
    write_text(&mut out, "val");
    write_text(&mut out, l.val.as_str());
    assert(out@ =~= h + entry_cts(l@) + entry_exp(l@) + entry_neg(l@) + entry_sig(l@)
        + entry_src(l@) + entry_uri(l@) + entry_val(l@));
    match &l.ver {
        Some(ver) => {
            write_text(&mut out, "ver");
            write_int(&mut out, *ver);
        },
        None => {},
    }
    assert(out@ =~= spec_encode_label(l@));
    out
}

/// Reads a map entry whose key must be `key` and whose value is a text
/// string.
pub open spec fn read_req_text(b: Seq<u8>, i: int, key: Seq<char>) -> Option<(Seq<char>, int)> {
    match read_text_item(b, i) {
        Some((k, j)) => {
            if k == key {
                read_text_item(b, j)
            } else {
                None
            }
        },
        None => None,
    }
}

/// Reads a map entry with key `key` and a text value if it stands at `i`;
/// an entry with another key, or the end of the input, leaves the position
/// unchanged.
pub open spec fn read_opt_text(b: Seq<u8>, i: int, key: Seq<char>) -> Option<
    (Option<Seq<char>>, int),
> {
    match read_text_item(b, i) {
        Some((k, j)) => {
            if k == key {
                match read_text_item(b, j) {
                    Some((v, j2)) => Some((Some(v), j2)),
                    None => None,
                }
            } else {
                Some((None, i))
            }
        },
        None => Some((None, i)),
    }
}

/// As `read_opt_text`, for a boolean value.
pub open spec fn read_opt_bool(b: Seq<u8>, i: int, key: Seq<char>) -> Option<
    (Option<bool>, int),
> {
    match read_text_item(b, i) {
        Some((k, j)) => {
            if k == key {
                match read_bool_item(b, j) {
                    Some((v, j2)) => Some((Some(v), j2)),
                    None => None,
                }
            } else {
                Some((None, i))
            }
        },
        None => Some((None, i)),
    }
}

/// As `read_opt_text`, for a byte-string value.
pub open spec fn read_opt_bytes(b: Seq<u8>, i: int, key: Seq<char>) -> Option<
    (Option<Seq<u8>>, int),
> {
    match read_text_item(b, i) {
        Some((k, j)) => {
            if k == key {
                match read_bytes_item(b, j) {
                    Some((v, j2)) => Some((Some(v), j2)),
                    None => None,
                }
            } else {
                Some((None, i))
            }
        },
        None => Some((None, i)),
    }
}

/// As `read_opt_text`, for an integer value.
pub open spec fn read_opt_int(b: Seq<u8>, i: int, key: Seq<char>) -> Option<
    (Option<int>, int),
> {
    match read_text_item(b, i) {
        Some((k, j)) => {
            if k == key {
                match read_int_item(b, j) {
                    Some((v, j2)) => Some((Some(v), j2)),
                    None => None,
                }
            } else {
                Some((None, i))
            }
        },
        None => Some((None, i)),
    }
}

/// Reads the front of a label map: the map head, `cts`, and the optional
/// `exp`, `neg` and `sig` entries. Returns the fields and the position after
/// them.
pub open spec fn dec_front(b: Seq<u8>) -> Option<
    (Seq<char>, Option<Seq<char>>, Option<bool>, Option<Seq<u8>>, int),
> {
    match spec_read_head(b, 0) {
        Some((major, count, i0)) => {
            if major != 5 {
                None
            } else {
                match read_req_text(b, i0, seq!['c', 't', 's']) {
                    Some((cts, i1)) => {
                        match read_opt_text(b, i1, seq!['e', 'x', 'p']) {
                            Some((exp, i2)) => {
                                match read_opt_bool(b, i2, seq!['n', 'e', 'g']) {
                                    Some((neg, i3)) => {
                                        match read_opt_bytes(b, i3, seq!['s', 'i', 'g']) {
                                            Some((sig, i4)) => Some((cts, exp, neg, sig, i4)),
                                            None => None,
                                        }
                                    },
                                    None => None,
                                }
                            },
                            None => None,
                        }
                    },
                    None => None,
                }
            }
        },
        None => None,
    }
}

/// Reads the back of a label map: `src`, `uri`, `val` and the optional
/// `ver` entry.
pub open spec fn dec_back(b: Seq<u8>, i: int) -> Option<
    (Seq<char>, Seq<char>, Seq<char>, Option<int>, int),
> {
    match read_req_text(b, i, seq!['s', 'r', 'c']) {
        Some((src, i5)) => {
            match read_req_text(b, i5, seq!['u', 'r', 'i']) {
                Some((uri, i6)) => {
                    match read_req_text(b, i6, seq!['v', 'a', 'l']) {
                        Some((val, i7)) => {
                            match read_opt_int(b, i7, seq!['v', 'e', 'r']) {
                                Some((ver, i8)) => Some((src, uri, val, ver, i8)),
                                None => None,
                            }
                        },
                        None => None,
                    }
                },
                None => None,
            }
        },
        None => None,
    }
}

/// Decodes a canonically encoded label; inverse to `spec_encode_label`.
pub open spec fn spec_decode_label(b: Seq<u8>) -> Option<LabelView> {
    match dec_front(b) {
        Some((cts, exp, neg, sig, i4)) => {
            match dec_back(b, i4) {
                Some((src, uri, val, ver, i8)) => {
                    if i8 == b.len() {
                        Some(LabelView { val, uri, src, cts, exp, neg, ver, sig })
                    } else {
                        None
                    }
                },
                None => None,
            }
        },
        None => None,
    }
}

/// The machine bounds under which a label can be canonically encoded: every
/// field fits the length arguments of its encoding.
pub open spec fn label_encodable(l: LabelView) -> bool {
    &&& vstd::utf8::encode_utf8(l.cts).len() < 0x10000000000000000
    &&& vstd::utf8::encode_utf8(l.src).len() < 0x10000000000000000
    &&& vstd::utf8::encode_utf8(l.uri).len() < 0x10000000000000000
    &&& vstd::utf8::encode_utf8(l.val).len() < 0x10000000000000000
    &&& (l.exp matches Some(e) ==> vstd::utf8::encode_utf8(e).len() < 0x10000000000000000)
    &&& (l.sig matches Some(s) ==> s.len() < 0x10000000000000000)
    &&& (l.ver matches Some(v) ==> -0x8000000000000000 <= v < 0x8000000000000000)
}

/// Encoding is deterministic: structurally equal labels have byte-identical
/// canonical encodings.
pub proof fn lemma_encode_label_deterministic(a: LabelView, b: LabelView)
    requires
        a == b,
    ensures
        spec_encode_label(a) == spec_encode_label(b),
{
}

/// Positions of the entries inside the canonical encoding: `pos_k(l)` is
/// where the entry after the first `k` parts begins.
pub open spec fn pos0(l: LabelView) -> int {
    cbor_map_head(label_entry_count(l)).len() as int
}

pub open spec fn pos1(l: LabelView) -> int {
    pos0(l) + entry_cts(l).len()
}

pub open spec fn pos2(l: LabelView) -> int {
    pos1(l) + entry_exp(l).len()
}

pub open spec fn pos3(l: LabelView) -> int {
    pos2(l) + entry_neg(l).len()
}

/// The position right after the `sig` entry in the canonical encoding.
pub open spec fn front_len(l: LabelView) -> int {
    pos3(l) + entry_sig(l).len()
}

pub open spec fn pos5(l: LabelView) -> int {
    front_len(l) + entry_src(l).len()
}

pub open spec fn pos6(l: LabelView) -> int {
    pos5(l) + entry_uri(l).len()
}

pub open spec fn pos7(l: LabelView) -> int {
    pos6(l) + entry_val(l).len()
}


proof fn seq_regroup(a: Seq<u8>, b: Seq<u8>, c: Seq<u8>)
    ensures
        a + b + c == a + (b + c),
{
    assert(a + b + c =~= a + (b + c));
}

proof fn seq_empty_right(a: Seq<u8>)
    ensures
        a + Seq::<u8>::empty() == a,
{
    assert(a + Seq::<u8>::empty() =~= a);
}

#[verifier::rlimit(100)]
#[verifier::spinoff_prover]
proof fn lemma_head_at_start(l: LabelView)
    ensures
        spec_read_head(spec_encode_label(l), 0) == Some(
            (5nat, label_entry_count(l), pos0(l)),
        ),
{
    let b = spec_encode_label(l);
    let h = cbor_map_head(label_entry_count(l));
    let rest = entry_cts(l) + entry_exp(l) + entry_neg(l) + entry_sig(l) + entry_src(l)
        + entry_uri(l) + entry_val(l) + entry_ver(l);
    assert(b =~= Seq::<u8>::empty() + h + rest);
    lemma_read_head_at(Seq::<u8>::empty(), 5, label_entry_count(l), rest);
}

#[verifier::rlimit(100)]
#[verifier::spinoff_prover]
proof fn lemma_key_cts(l: LabelView)
    requires
        label_encodable(l),
    ensures
        read_req_text(spec_encode_label(l), pos0(l), seq!['c', 't', 's']) == Some(
            (l.cts, pos1(l)),
        ),
{
    let ctsk = seq!['c', 't', 's'];
    assert(is_ascii_chars(ctsk));
    vstd::utf8::is_ascii_chars_encode_utf8(ctsk);
    let b = spec_encode_label(l);
    let h = cbor_map_head(label_entry_count(l));
    let e1 = entry_cts(l);
    let e2 = entry_exp(l);
    let e3 = entry_neg(l);
    let e4 = entry_sig(l);
    let e5 = entry_src(l);
    let e6 = entry_uri(l);
    let e7 = entry_val(l);
    let e8 = entry_ver(l);
    let ct = cbor_text(ctsk);
    let v = cbor_text(l.cts);
    let rr7 = e8;
    let rr6 = e7 + rr7;
    let rr5 = e6 + rr6;
    let rr4 = e5 + rr5;
    let rr3 = e4 + rr4;
    let rr2 = e3 + rr3;
    let rr1 = e2 + rr2;
    seq_regroup(h + e1 + e2 + e3 + e4 + e5 + e6, e7, rr7);
    seq_regroup(h + e1 + e2 + e3 + e4 + e5, e6, rr6);
    seq_regroup(h + e1 + e2 + e3 + e4, e5, rr5);
    seq_regroup(h + e1 + e2 + e3, e4, rr4);
    seq_regroup(h + e1 + e2, e3, rr3);
    seq_regroup(h + e1, e2, rr2);
    assert(b == h + e1 + rr1);
    assert(e1 == ct + v);
    seq_regroup(h, ct, v);
    seq_regroup(h + ct, v, rr1);
    assert(b == h + ct + (v + rr1));
    lemma_read_text_at(h, ctsk, v + rr1);
    assert(b == (h + ct) + v + rr1);
    lemma_read_text_at(h + ct, l.cts, rr1);
}

#[verifier::rlimit(100)]
#[verifier::spinoff_prover]
proof fn lemma_key_exp(l: LabelView)
    requires
        label_encodable(l),
        l.exp is Some,
    ensures
        read_text_item(spec_encode_label(l), pos1(l)) matches Some((k, j)) && k == seq!['e', 'x',
            'p'] && read_text_item(spec_encode_label(l), j) == Some((l.exp.unwrap(), pos2(l))),
{
    let expk = seq!['e', 'x', 'p'];
    assert(is_ascii_chars(expk));
    vstd::utf8::is_ascii_chars_encode_utf8(expk);
    let b = spec_encode_label(l);
    let h = cbor_map_head(label_entry_count(l));
    let e1 = entry_cts(l);
    let e2 = entry_exp(l);
    let e3 = entry_neg(l);
    let e4 = entry_sig(l);
    let e5 = entry_src(l);
    let e6 = entry_uri(l);
    let e7 = entry_val(l);
    let e8 = entry_ver(l);
    let ct = cbor_text(expk);
    let v = cbor_text(l.exp.unwrap());
    let rr6 = e8;
    let rr5 = e7 + rr6;
    let rr4 = e6 + rr5;
    let rr3 = e5 + rr4;
    let rr2 = e4 + rr3;
    let rr1 = e3 + rr2;
    seq_regroup(h + e1 + e2 + e3 + e4 + e5 + e6, e7, rr6);
    seq_regroup(h + e1 + e2 + e3 + e4 + e5, e6, rr5);
    seq_regroup(h + e1 + e2 + e3 + e4, e5, rr4);
    seq_regroup(h + e1 + e2 + e3, e4, rr3);
    seq_regroup(h + e1 + e2, e3, rr2);
    assert(b == h + e1 + e2 + rr1);
    assert(e2 == ct + v);
    seq_regroup(h + e1, ct, v);
    seq_regroup(h + e1 + ct, v, rr1);
    assert(b == h + e1 + ct + (v + rr1));
    lemma_read_text_at(h + e1, expk, v + rr1);
    assert(b == (h + e1 + ct) + v + rr1);
    lemma_read_text_at(h + e1 + ct, l.exp.unwrap(), rr1);
}

#[verifier::rlimit(100)]
#[verifier::spinoff_prover]
proof fn lemma_key_neg(l: LabelView)
    requires
        label_encodable(l),
        l.neg is Some,
    ensures
        read_text_item(spec_encode_label(l), pos2(l)) matches Some((k, j)) && k == seq!['n', 'e',
            'g'] && read_bool_item(spec_encode_label(l), j) == Some((l.neg.unwrap(), pos3(l))),
{
    let negk = seq!['n', 'e', 'g'];
    assert(is_ascii_chars(negk));
    vstd::utf8::is_ascii_chars_encode_utf8(negk);
    let b = spec_encode_label(l);
    let h = cbor_map_head(label_entry_count(l));
    let e1 = entry_cts(l);
    let e2 = entry_exp(l);
    let e3 = entry_neg(l);
    let e4 = entry_sig(l);
    let e5 = entry_src(l);
    let e6 = entry_uri(l);
    let e7 = entry_val(l);
    let e8 = entry_ver(l);
    let ct = cbor_text(negk);
    let v = cbor_bool(l.neg.unwrap());
    let rr5 = e8;
    let rr4 = e7 + rr5;
    let rr3 = e6 + rr4;
    let rr2 = e5 + rr3;
    let rr1 = e4 + rr2;
    seq_regroup(h + e1 + e2 + e3 + e4 + e5 + e6, e7, rr5);
    seq_regroup(h + e1 + e2 + e3 + e4 + e5, e6, rr4);
    seq_regroup(h + e1 + e2 + e3 + e4, e5, rr3);
    seq_regroup(h + e1 + e2 + e3, e4, rr2);
    assert(b == h + e1 + e2 + e3 + rr1);
    assert(e3 == ct + v);
    seq_regroup(h + e1 + e2, ct, v);
    seq_regroup(h + e1 + e2 + ct, v, rr1);
    assert(b == h + e1 + e2 + ct + (v + rr1));
    lemma_read_text_at(h + e1 + e2, negk, v + rr1);
    assert(b == (h + e1 + e2 + ct) + v + rr1);
    lemma_read_bool_at(h + e1 + e2 + ct, l.neg.unwrap(), rr1);
}

#[verifier::rlimit(100)]
#[verifier::spinoff_prover]
proof fn lemma_key_sig(l: LabelView)
    requires
        label_encodable(l),
        l.sig is Some,
    ensures
        read_text_item(spec_encode_label(l), pos3(l)) matches Some((k, j)) && k == seq!['s', 'i',
            'g'] && read_bytes_item(spec_encode_label(l), j) == Some((l.sig.unwrap(), front_len(l))),
{
    let sigk = seq!['s', 'i', 'g'];
    assert(is_ascii_chars(sigk));
    vstd::utf8::is_ascii_chars_encode_utf8(sigk);
    let b = spec_encode_label(l);
    let h = cbor_map_head(label_entry_count(l));
    let e1 = entry_cts(l);
    let e2 = entry_exp(l);
    let e3 = entry_neg(l);
    let e4 = entry_sig(l);
    let e5 = entry_src(l);
    let e6 = entry_uri(l);
    let e7 = entry_val(l);
    let e8 = entry_ver(l);
    let ct = cbor_text(sigk);
    let v = cbor_bytes(l.sig.unwrap());
    let rr4 = e8;
    let rr3 = e7 + rr4;
    let rr2 = e6 + rr3;
    let rr1 = e5 + rr2;
    seq_regroup(h + e1 + e2 + e3 + e4 + e5 + e6, e7, rr4);
    seq_regroup(h + e1 + e2 + e3 + e4 + e5, e6, rr3);
    seq_regroup(h + e1 + e2 + e3 + e4, e5, rr2);
    assert(b == h + e1 + e2 + e3 + e4 + rr1);
    assert(e4 == ct + v);
    seq_regroup(h + e1 + e2 + e3, ct, v);
    seq_regroup(h + e1 + e2 + e3 + ct, v, rr1);
    assert(b == h + e1 + e2 + e3 + ct + (v + rr1));
    lemma_read_text_at(h + e1 + e2 + e3, sigk, v + rr1);
    assert(b == (h + e1 + e2 + e3 + ct) + v + rr1);
    lemma_read_bytes_at(h + e1 + e2 + e3 + ct, l.sig.unwrap(), rr1);
}

#[verifier::rlimit(100)]
#[verifier::spinoff_prover]
proof fn lemma_key_src(l: LabelView)
    requires
        label_encodable(l),
    ensures
        read_text_item(spec_encode_label(l), front_len(l)) matches Some((k, j)) && k == seq!['s',
            'r', 'c'] && read_text_item(spec_encode_label(l), j) == Some((l.src, pos5(l))),
{
    let srck = seq!['s', 'r', 'c'];
    assert(is_ascii_chars(srck));
    vstd::utf8::is_ascii_chars_encode_utf8(srck);
    let b = spec_encode_label(l);
    let h = cbor_map_head(label_entry_count(l));
    let e1 = entry_cts(l);
    let e2 = entry_exp(l);
    let e3 = entry_neg(l);
    let e4 = entry_sig(l);
    let e5 = entry_src(l);
    let e6 = entry_uri(l);
    let e7 = entry_val(l);
    let e8 = entry_ver(l);
    let ct = cbor_text(srck);
    let v = cbor_text(l.src);
    let rr3 = e8;
    let rr2 = e7 + rr3;
    let rr1 = e6 + rr2;
    seq_regroup(h + e1 + e2 + e3 + e4 + e5 + e6, e7, rr3);
    seq_regroup(h + e1 + e2 + e3 + e4 + e5, e6, rr2);
    assert(b == h + e1 + e2 + e3 + e4 + e5 + rr1);
    assert(e5 == ct + v);
    seq_regroup(h + e1 + e2 + e3 + e4, ct, v);
    seq_regroup(h + e1 + e2 + e3 + e4 + ct, v, rr1);
    assert(b == h + e1 + e2 + e3 + e4 + ct + (v + rr1));
    lemma_read_text_at(h + e1 + e2 + e3 + e4, srck, v + rr1);
    assert(b == (h + e1 + e2 + e3 + e4 + ct) + v + rr1);
    lemma_read_text_at(h + e1 + e2 + e3 + e4 + ct, l.src, rr1);
}

#[verifier::rlimit(100)]
#[verifier::spinoff_prover]
proof fn lemma_key_uri(l: LabelView)
    requires
        label_encodable(l),
    ensures
        read_req_text(spec_encode_label(l), pos5(l), seq!['u', 'r', 'i']) == Some(
            (l.uri, pos6(l)),
        ),
{
    let urik = seq!['u', 'r', 'i'];
    assert(is_ascii_chars(urik));
    vstd::utf8::is_ascii_chars_encode_utf8(urik);
    let b = spec_encode_label(l);
    let h = cbor_map_head(label_entry_count(l));
    let e1 = entry_cts(l);
    let e2 = entry_exp(l);
    let e3 = entry_neg(l);
    let e4 = entry_sig(l);
    let e5 = entry_src(l);
    let e6 = entry_uri(l);
    let e7 = entry_val(l);
    let e8 = entry_ver(l);
    let ct = cbor_text(urik);
    let v = cbor_text(l.uri);
    let rr2 = e8;
    let rr1 = e7 + rr2;
    seq_regroup(h + e1 + e2 + e3 + e4 + e5 + e6, e7, rr2);
    assert(b == h + e1 + e2 + e3 + e4 + e5 + e6 + rr1);
    assert(e6 == ct + v);
    seq_regroup(h + e1 + e2 + e3 + e4 + e5, ct, v);
    seq_regroup(h + e1 + e2 + e3 + e4 + e5 + ct, v, rr1);
    assert(b == h + e1 + e2 + e3 + e4 + e5 + ct + (v + rr1));
    lemma_read_text_at(h + e1 + e2 + e3 + e4 + e5, urik, v + rr1);
    assert(b == (h + e1 + e2 + e3 + e4 + e5 + ct) + v + rr1);
    lemma_read_text_at(h + e1 + e2 + e3 + e4 + e5 + ct, l.uri, rr1);
}

#[verifier::rlimit(100)]
#[verifier::spinoff_prover]
proof fn lemma_key_val(l: LabelView)
    requires
        label_encodable(l),
    ensures
        read_req_text(spec_encode_label(l), pos6(l), seq!['v', 'a', 'l']) == Some(
            (l.val, pos7(l)),
        ),
{
    let valk = seq!['v', 'a', 'l'];
    assert(is_ascii_chars(valk));
    vstd::utf8::is_ascii_chars_encode_utf8(valk);
    let b = spec_encode_label(l);
    let h = cbor_map_head(label_entry_count(l));
    let e1 = entry_cts(l);
    let e2 = entry_exp(l);
    let e3 = entry_neg(l);
    let e4 = entry_sig(l);
    let e5 = entry_src(l);
    let e6 = entry_uri(l);
    let e7 = entry_val(l);
    let e8 = entry_ver(l);
    let ct = cbor_text(valk);
    let v = cbor_text(l.val);
    let rr1 = e8;
    assert(b == h + e1 + e2 + e3 + e4 + e5 + e6 + e7 + rr1);
    assert(e7 == ct + v);
    seq_regroup(h + e1 + e2 + e3 + e4 + e5 + e6, ct, v);
    seq_regroup(h + e1 + e2 + e3 + e4 + e5 + e6 + ct, v, rr1);
    assert(b == h + e1 + e2 + e3 + e4 + e5 + e6 + ct + (v + rr1));
    lemma_read_text_at(h + e1 + e2 + e3 + e4 + e5 + e6, valk, v + rr1);
    assert(b == (h + e1 + e2 + e3 + e4 + e5 + e6 + ct) + v + rr1);
    lemma_read_text_at(h + e1 + e2 + e3 + e4 + e5 + e6 + ct, l.val, rr1);
}

#[verifier::rlimit(100)]
#[verifier::spinoff_prover]
proof fn lemma_key_ver(l: LabelView)
    requires
        label_encodable(l),
        l.ver is Some,
    ensures
        read_text_item(spec_encode_label(l), pos7(l)) matches Some((k, j)) && k == seq!['v', 'e',
            'r'] && read_int_item(spec_encode_label(l), j) == Some(
            (l.ver.unwrap(), spec_encode_label(l).len() as int),
        ),
{
    let verk = seq!['v', 'e', 'r'];
    assert(is_ascii_chars(verk));
    vstd::utf8::is_ascii_chars_encode_utf8(verk);
    let b = spec_encode_label(l);
    let h = cbor_map_head(label_entry_count(l));
    let e1 = entry_cts(l);
    let e2 = entry_exp(l);
    let e3 = entry_neg(l);
    let e4 = entry_sig(l);
    let e5 = entry_src(l);
    let e6 = entry_uri(l);
    let e7 = entry_val(l);
    let e8 = entry_ver(l);
    let ct = cbor_text(verk);
    let v = cbor_int(l.ver.unwrap());
    assert(b == h + e1 + e2 + e3 + e4 + e5 + e6 + e7 + e8);
    assert(e8 == ct + v);
    seq_regroup(h + e1 + e2 + e3 + e4 + e5 + e6 + e7, ct, v);
    seq_empty_right(h + e1 + e2 + e3 + e4 + e5 + e6 + e7 + ct + v);
    assert(b == h + e1 + e2 + e3 + e4 + e5 + e6 + e7 + ct + v);
    lemma_read_text_at(h + e1 + e2 + e3 + e4 + e5 + e6 + e7, verk, v);
    assert(b == (h + e1 + e2 + e3 + e4 + e5 + e6 + e7 + ct) + v + Seq::<u8>::empty());
    lemma_read_int_at(h + e1 + e2 + e3 + e4 + e5 + e6 + e7 + ct, l.ver.unwrap(), Seq::<u8>::empty());
    assert(b.len() == (h + e1 + e2 + e3 + e4 + e5 + e6 + e7 + ct).len() + v.len());
}

#[verifier::rlimit(100)]
#[verifier::spinoff_prover]
proof fn lemma_opt_exp(l: LabelView)
    requires
        label_encodable(l),
    ensures
        read_opt_text(spec_encode_label(l), pos1(l), seq!['e', 'x', 'p']) == Some(
            (l.exp, pos2(l)),
        ),
{
    let b = spec_encode_label(l);
    let expk = seq!['e', 'x', 'p'];
    if l.exp is Some {
        lemma_key_exp(l);
    } else {
        assert(pos2(l) == pos1(l));
        if l.neg is Some {
            lemma_key_neg(l);
            assert(read_text_item(b, pos1(l)).unwrap().0 != expk);
        } else if l.sig is Some {
            assert(pos3(l) == pos2(l));
            lemma_key_sig(l);
            assert(read_text_item(b, pos1(l)).unwrap().0 != expk);
        } else {
            assert(front_len(l) == pos2(l));
            lemma_key_src(l);
            assert(read_text_item(b, pos1(l)).unwrap().0 != expk);
        }
    }
}

#[verifier::rlimit(100)]
#[verifier::spinoff_prover]
proof fn lemma_opt_neg(l: LabelView)
    requires
        label_encodable(l),
    ensures
        read_opt_bool(spec_encode_label(l), pos2(l), seq!['n', 'e', 'g']) == Some(
            (l.neg, pos3(l)),
        ),
{
    let b = spec_encode_label(l);
    let negk = seq!['n', 'e', 'g'];
    if l.neg is Some {
        lemma_key_neg(l);
    } else {
        assert(pos3(l) == pos2(l));
        if l.sig is Some {
            lemma_key_sig(l);
            assert(read_text_item(b, pos2(l)).unwrap().0 != negk);
        } else {
            assert(front_len(l) == pos3(l));
            lemma_key_src(l);
            assert(read_text_item(b, pos2(l)).unwrap().0 != negk);
        }
    }
}

#[verifier::rlimit(100)]
#[verifier::spinoff_prover]
proof fn lemma_opt_sig(l: LabelView)
    requires
        label_encodable(l),
    ensures
        read_opt_bytes(spec_encode_label(l), pos3(l), seq!['s', 'i', 'g']) == Some(
            (l.sig, front_len(l)),
        ),
{
    let b = spec_encode_label(l);
    let sigk = seq!['s', 'i', 'g'];
    if l.sig is Some {
        lemma_key_sig(l);
    } else {
        assert(front_len(l) == pos3(l));
        lemma_key_src(l);
        assert(read_text_item(b, pos3(l)).unwrap().0 != sigk);
    }
}

#[verifier::rlimit(100)]
#[verifier::spinoff_prover]
proof fn lemma_opt_ver(l: LabelView)
    requires
        label_encodable(l),
    ensures
        read_opt_int(spec_encode_label(l), pos7(l), seq!['v', 'e', 'r']) == Some(
            (l.ver, spec_encode_label(l).len() as int),
        ),
{
    let b = spec_encode_label(l);
    if l.ver is Some {
        lemma_key_ver(l);
    } else {
        assert(entry_ver(l).len() == 0);
        assert(pos7(l) == b.len());
        assert(read_text_item(b, pos7(l)) is None);
    }
}

#[verifier::rlimit(100)]
#[verifier::spinoff_prover]
proof fn lemma_dec_front(l: LabelView)
    requires
        label_encodable(l),
    ensures
        dec_front(spec_encode_label(l)) == Some((l.cts, l.exp, l.neg, l.sig, front_len(l))),
{
    lemma_head_at_start(l);
    lemma_key_cts(l);
    lemma_opt_exp(l);
    lemma_opt_neg(l);
    lemma_opt_sig(l);
}

#[verifier::rlimit(100)]
#[verifier::spinoff_prover]
proof fn lemma_dec_back(l: LabelView)
    requires
        label_encodable(l),
    ensures
        dec_back(spec_encode_label(l), front_len(l)) == Some(
            (l.src, l.uri, l.val, l.ver, spec_encode_label(l).len() as int),
        ),
{
    lemma_key_src(l);
    lemma_key_uri(l);
    lemma_key_val(l);
    lemma_opt_ver(l);
}

/// Decoding inverts encoding: the canonical payload of a label reads back
/// as a structurally equal label.
pub proof fn lemma_decode_encode_label(l: LabelView)
    requires
        label_encodable(l),
    ensures
        spec_decode_label(spec_encode_label(l)) == Some(l),
{
    lemma_dec_front(l);
    lemma_dec_back(l);
    let b = spec_encode_label(l);
    assert(spec_decode_label(b) matches Some(d) && d =~= l);
}

#[verifier::external_type_specification]
#[verifier::external_body]
pub struct ExAtriumCryptoError(atrium_crypto::Error);

/// Why signing was refused.
#[derive(Debug)]
pub enum SignError {
    /// The label already carries a signature.
    AlreadySigned,
    /// The underlying ECDSA step failed.
    Crypto(atrium_crypto::Error),
}

/// Whether the raw key bytes form a valid secp256k1 private scalar:
/// exactly then can they sign.
pub uninterp spec fn key_ok_of(key: Seq<u8>) -> bool;

/// The ECDSA secp256k1 signature of a message under a key, in the raw
/// 64-byte low-S form. Signing is deterministic (an RFC 6979 ephemeral
/// scalar), so the signature is a function of the key and the message
/// alone.
pub uninterp spec fn sig_of(key: Seq<u8>, msg: Seq<u8>) -> Seq<u8>;

/// Relies on `atrium_crypto::keypair::Secp256k1Keypair`: `import` succeeds
/// exactly when the raw bytes form a valid private scalar, and `sign`
/// produces the deterministic RFC 6979 ECDSA signature over the message,
/// in the raw 64-byte low-S form.
#[verifier::external_body]
fn sign_bytes(key: &Vec<u8>, msg: &Vec<u8>) -> (r: Result<Vec<u8>, atrium_crypto::Error>)
    ensures
        r is Ok <==> key_ok_of(key@),
        r matches Ok(sig) ==> sig@ == sig_of(key@, msg@) && sig@.len() == 64,
{
    let keypair = atrium_crypto::keypair::Secp256k1Keypair::import(key)?;
    keypair.sign(msg)
}

/// The canonical signed payload of an unsigned label under a key: the
/// encoding of the label carrying the signature of its unsigned encoding.
pub open spec fn spec_signed_payload(key: Seq<u8>, l: LabelView) -> Seq<u8> {
    spec_encode_label(with_sig(l, sig_of(key, spec_encode_label(l))))
}

/// Signs a label: refuses one already signed; otherwise signs the canonical
/// encoding with `sig` absent, and returns the canonical encoding of the
/// label with the 64-byte signature filled in. Succeeds exactly when the
/// label is unsigned and the key is a valid private scalar.
pub fn sign_to_payload(key: &Vec<u8>, label: &Label) -> (r: Result<
    Vec<u8>,
    SignError,
>)
    ensures
        label@.sig is Some <==> (r matches Err(e) && e is AlreadySigned),
        r is Ok <==> (label@.sig is None && key_ok_of(key@)),
        r matches Ok(payload) ==> payload@ == spec_signed_payload(key@, label@) && sig_of(
            key@,
            spec_encode_label(label@),
        ).len() == 64,
{
    if label.sig.is_some() {
        return Err(SignError::AlreadySigned);
    }
    let unsigned = encode_label(label);
    let sig = match sign_bytes(key, &unsigned) {
        Ok(sig) => sig,
        Err(e) => {
            return Err(SignError::Crypto(e));
        },
    };
    let signed = Label {
        val: label.val.clone(),
        uri: label.uri.clone(),
        src: label.src.clone(),
        cts: label.cts.clone(),
        exp: match &label.exp {
            Some(e) => Some(e.clone()),
            None => None,
        },
        neg: label.neg,
        ver: label.ver,
        sig: Some(sig),
    };
    let payload = encode_label(&signed);
    proof {
        assert(signed@ =~= with_sig(label@, sig_of(key@, spec_encode_label(label@))));
    }
    Ok(payload)
}

} // verus!
