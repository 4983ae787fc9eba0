//! Canonical CBOR primitives: definite lengths, shortest argument encoding,
//! and big-endian length bytes. Labels and subscription frames are encoded
//! with these and nothing else.

use vstd::prelude::*;
use vstd::string::StringSliceAdditionalSpecFns;

verus! {

/// The head of a CBOR item: three major-type bits and the shortest encoding
/// of the argument `n`.
pub open spec fn cbor_head(major: nat, n: nat) -> Seq<u8> {
    if n < 24 {
        seq![(major * 32 + n) as u8]
    } else if n < 256 {
        seq![(major * 32 + 24) as u8, n as u8]
    } else if n < 65536 {
        seq![(major * 32 + 25) as u8, (n / 256) as u8, (n % 256) as u8]
    } else if n < 4294967296 {
        seq![
            (major * 32 + 26) as u8,
            (n / 16777216) as u8,
            ((n / 65536) % 256) as u8,
            ((n / 256) % 256) as u8,
            (n % 256) as u8,
        ]
    } else {
        seq![
            (major * 32 + 27) as u8,
            (n / 72057594037927936) as u8,
            ((n / 281474976710656) % 256) as u8,
            ((n / 1099511627776) % 256) as u8,
            ((n / 4294967296) % 256) as u8,
            ((n / 16777216) % 256) as u8,
            ((n / 65536) % 256) as u8,
            ((n / 256) % 256) as u8,
            (n % 256) as u8,
        ]
    }
}

/// A signed integer item: major type 0 for `v >= 0`, else major type 1 over
/// `-1 - v`.
pub open spec fn cbor_int(v: int) -> Seq<u8> {
    if v >= 0 {
        cbor_head(0, v as nat)
    } else {
        cbor_head(1, (-1 - v) as nat)
    }
}

/// A text-string item: the UTF-8 bytes of `s` behind their length.
pub open spec fn cbor_text(s: Seq<char>) -> Seq<u8> {
    cbor_head(3, vstd::utf8::encode_utf8(s).len()) + vstd::utf8::encode_utf8(s)
}

/// A byte-string item.
pub open spec fn cbor_bytes(b: Seq<u8>) -> Seq<u8> {
    cbor_head(2, b.len()) + b
}

/// A boolean item.
pub open spec fn cbor_bool(b: bool) -> Seq<u8> {
    if b {
        seq![0xf5u8]
    } else {
        seq![0xf4u8]
    }
}

/// The head of a definite-length map of `n` pairs.
pub open spec fn cbor_map_head(n: nat) -> Seq<u8> {
    cbor_head(5, n)
}

/// The head of a definite-length array of `n` items.
pub open spec fn cbor_array_head(n: nat) -> Seq<u8> {
    cbor_head(4, n)
}

/// Appends the head for `major` with argument `n`.
pub fn write_head(out: &mut Vec<u8>, major: u8, n: u64)
    requires
        major < 8,
    ensures
        final(out)@ == old(out)@ + cbor_head(major as nat, n as nat),
{
    let m: u8 = major * 32;
    if n < 24 {
        out.push(m + n as u8);
        proof {
            assert(out@ =~= old(out)@ + cbor_head(major as nat, n as nat));
        }
    } else if n < 256 {
        out.push(m + 24);
        out.push((n % 256) as u8);
        proof {
            assert(out@ =~= old(out)@ + cbor_head(major as nat, n as nat));
        }
    } else if n < 65536 {
        out.push(m + 25);
        out.push(((n / 256) % 256) as u8);
        out.push((n % 256) as u8);
        proof {
            assert(out@ =~= old(out)@ + cbor_head(major as nat, n as nat));
        }
    } else if n < 4294967296 {
        out.push(m + 26);
        out.push(((n / 16777216) % 256) as u8);
        out.push(((n / 65536) % 256) as u8);
        out.push(((n / 256) % 256) as u8);
        out.push((n % 256) as u8);
        proof {
            assert(out@ =~= old(out)@ + cbor_head(major as nat, n as nat));
        }
    } else {
        out.push(m + 27);
        out.push(((n / 72057594037927936) % 256) as u8);
        out.push(((n / 281474976710656) % 256) as u8);
        out.push(((n / 1099511627776) % 256) as u8);
        out.push(((n / 4294967296) % 256) as u8);
        out.push(((n / 16777216) % 256) as u8);
        out.push(((n / 65536) % 256) as u8);
        out.push(((n / 256) % 256) as u8);
        out.push((n % 256) as u8);
        proof {
            assert(out@ =~= old(out)@ + cbor_head(major as nat, n as nat));
        }
    }
}

/// Appends a signed integer item.
pub fn write_int(out: &mut Vec<u8>, v: i64)
    ensures
        final(out)@ == old(out)@ + cbor_int(v as int),
{
    if v >= 0 {
        write_head(out, 0, v as u64);
    } else {
        write_head(out, 1, (-1 - v) as u64);
    }
}

/// Appends a text-string item.
pub fn write_text(out: &mut Vec<u8>, s: &str)
    ensures
        final(out)@ == old(out)@ + cbor_text(s@),
{
    let b = s.as_bytes();
    write_head(out, 3, b.len() as u64);
    out.extend_from_slice(b);
    proof {
        assert(out@ =~= old(out)@ + cbor_text(s@));
    }
}

/// Appends a byte-string item.
pub fn write_bytes(out: &mut Vec<u8>, b: &[u8])
    ensures
        final(out)@ == old(out)@ + cbor_bytes(b@),
{
    write_head(out, 2, b.len() as u64);
    out.extend_from_slice(b);
    proof {
        assert(out@ =~= old(out)@ + cbor_bytes(b@));
    }
}

/// Appends a boolean item.
pub fn write_bool(out: &mut Vec<u8>, b: bool)
    ensures
        final(out)@ == old(out)@ + cbor_bool(b),
{
    if b {
        out.push(0xf5);
    } else {
        out.push(0xf4);
    }
    proof {
        assert(out@ =~= old(out)@ + cbor_bool(b));
    }
}

/// Appends the head of a definite-length map of `n` pairs.
pub fn write_map_head(out: &mut Vec<u8>, n: u64)
    ensures
        final(out)@ == old(out)@ + cbor_map_head(n as nat),
{
    write_head(out, 5, n);
}

/// Appends the head of a definite-length array of `n` items.
pub fn write_array_head(out: &mut Vec<u8>, n: u64)
    ensures
        final(out)@ == old(out)@ + cbor_array_head(n as nat),
{
    write_head(out, 4, n);
}

/// The big-endian value of the `k` bytes that start at `i`.
pub open spec fn be_val(b: Seq<u8>, i: int, k: nat) -> nat
    decreases k,
{
    if k == 0 {
        0
    } else {
        be_val(b, i, (k - 1) as nat) * 256 + (b[i + k - 1] as nat)
    }
}

/// Reads one head at position `i`: the major type, the argument, and the
/// position after the head.
pub open spec fn spec_read_head(b: Seq<u8>, i: int) -> Option<(nat, nat, int)> {
    if i < 0 || i >= b.len() {
        None
    } else {
        let major = (b[i] as nat) / 32;
        let low = (b[i] as nat) % 32;
        if low < 24 {
            Some((major, low, i + 1))
        } else if low == 24 {
            if i + 1 < b.len() {
                Some((major, be_val(b, i + 1, 1), i + 2))
            } else {
                None
            }
        } else if low == 25 {
            if i + 2 < b.len() {
                Some((major, be_val(b, i + 1, 2), i + 3))
            } else {
                None
            }
        } else if low == 26 {
            if i + 4 < b.len() {
                Some((major, be_val(b, i + 1, 4), i + 5))
            } else {
                None
            }
        } else if low == 27 {
            if i + 8 < b.len() {
                Some((major, be_val(b, i + 1, 8), i + 9))
            } else {
                None
            }
        } else {
            None
        }
    }
}

/// Reads one text-string item: its characters and the position after it.
pub open spec fn read_text_item(b: Seq<u8>, i: int) -> Option<(Seq<char>, int)> {
    match spec_read_head(b, i) {
        Some((major, n, j)) => {
            if major == 3 && j + n <= b.len() {
                let bytes = b.subrange(j, j + n);
                if vstd::utf8::valid_utf8(bytes) {
                    Some((vstd::utf8::decode_utf8(bytes), j + n))
                } else {
                    None
                }
            } else {
                None
            }
        },
        None => None,
    }
}

/// Reads one byte-string item: its bytes and the position after it.
pub open spec fn read_bytes_item(b: Seq<u8>, i: int) -> Option<(Seq<u8>, int)> {
    match spec_read_head(b, i) {
        Some((major, n, j)) => {
            if major == 2 && j + n <= b.len() {
                Some((b.subrange(j, j + n), j + n))
            } else {
                None
            }
        },
        None => None,
    }
}

/// Reads one boolean item.
pub open spec fn read_bool_item(b: Seq<u8>, i: int) -> Option<(bool, int)> {
    if 0 <= i < b.len() {
        if b[i] == 0xf4u8 {
            Some((false, i + 1))
        } else if b[i] == 0xf5u8 {
            Some((true, i + 1))
        } else {
            None
        }
    } else {
        None
    }
}

/// Reads one signed-integer item.
pub open spec fn read_int_item(b: Seq<u8>, i: int) -> Option<(int, int)> {
    match spec_read_head(b, i) {
        Some((major, n, j)) => {
            if major == 0 {
                Some((n as int, j))
            } else if major == 1 {
                Some((-1 - n, j))
            } else {
                None
            }
        },
        None => None,
    }
}

proof fn lemma_horner_step(n: int, p: int)
    requires
        n >= 0,
        p >= 1,
    ensures
        n / p == (n / (p * 256)) * 256 + (n / p) % 256,
{
    vstd::arithmetic::div_mod::lemma_fundamental_div_mod(n / p, 256);
    vstd::arithmetic::div_mod::lemma_div_denominator(n, p, 256);
}

/// Reading a head written at the end of `pre` yields exactly the major type
/// and argument that were written, whatever follows.
pub proof fn lemma_read_head_at(pre: Seq<u8>, major: nat, n: nat, rest: Seq<u8>)
    requires
        major < 8,
        n < 0x10000000000000000,
    ensures
        spec_read_head(pre + cbor_head(major, n) + rest, pre.len() as int) == Some(
            (major, n, (pre.len() + cbor_head(major, n).len()) as int),
        ),
{
    reveal_with_fuel(be_val, 10);
    let b = pre + cbor_head(major, n) + rest;
    let h = cbor_head(major, n);
    let i = pre.len() as int;
    assert(forall|k: int| 0 <= k < h.len() ==> b[i + k] == h[k]);
    if n < 24 {
        assert(b[i] as nat == major * 32 + n);
        assert((major * 32 + n) / 32 == major && (major * 32 + n) % 32 == n) by (nonlinear_arith)
            requires
                major < 8,
                n < 24,
        ;
    } else if n < 256 {
        assert(b[i] as nat == major * 32 + 24);
        assert((major * 32 + 24) / 32 == major && (major * 32 + 24) % 32 == 24)
            by (nonlinear_arith)
            requires
                major < 8,
        ;
        assert(b[i + 1] as nat == n);
        assert(be_val(b, i + 1, 1) == n);
    } else if n < 65536 {
        assert(b[i] as nat == major * 32 + 25);
        assert((major * 32 + 25) / 32 == major && (major * 32 + 25) % 32 == 25)
            by (nonlinear_arith)
            requires
                major < 8,
        ;
        vstd::arithmetic::div_mod::lemma_fundamental_div_mod(n as int, 256);
        assert(n / 256 < 256) by (nonlinear_arith)
            requires
                n < 65536,
        ;
        assert(b[i + 1] as nat == n / 256 && b[i + 2] as nat == n % 256);
        assert(be_val(b, i + 1, 1) == n / 256);
        assert(be_val(b, i + 1, 2) == n);
    } else if n < 4294967296 {
        assert(b[i] as nat == major * 32 + 26);
        assert((major * 32 + 26) / 32 == major && (major * 32 + 26) % 32 == 26)
            by (nonlinear_arith)
            requires
                major < 8,
        ;
        assert(n / 16777216 < 256) by (nonlinear_arith)
            requires
                n < 4294967296,
        ;
        vstd::arithmetic::div_mod::lemma_fundamental_div_mod(n as int, 256);
        lemma_horner_step(n as int, 256);
        lemma_horner_step(n as int, 65536);
        assert(b[i + 1] as nat == n / 16777216);
        assert(b[i + 2] as nat == (n / 65536) % 256);
        assert(b[i + 3] as nat == (n / 256) % 256);
        assert(b[i + 4] as nat == n % 256);
        assert(be_val(b, i + 1, 1) == n / 16777216);
        assert(be_val(b, i + 1, 2) == n / 65536);
        assert(be_val(b, i + 1, 3) == n / 256);
        assert(be_val(b, i + 1, 4) == n);
    } else {
        assert(b[i] as nat == major * 32 + 27);
        assert((major * 32 + 27) / 32 == major && (major * 32 + 27) % 32 == 27)
            by (nonlinear_arith)
            requires
                major < 8,
        ;
        assert(n / 72057594037927936 < 256) by (nonlinear_arith)
            requires
                n < 0x10000000000000000,
        ;
        vstd::arithmetic::div_mod::lemma_fundamental_div_mod(n as int, 256);
        lemma_horner_step(n as int, 256);
        lemma_horner_step(n as int, 65536);
        lemma_horner_step(n as int, 16777216);
        lemma_horner_step(n as int, 4294967296);
        lemma_horner_step(n as int, 1099511627776);
        lemma_horner_step(n as int, 281474976710656);
        assert(b[i + 1] as nat == n / 72057594037927936);
        assert(b[i + 2] as nat == (n / 281474976710656) % 256);
        assert(b[i + 3] as nat == (n / 1099511627776) % 256);
        assert(b[i + 4] as nat == (n / 4294967296) % 256);
        assert(b[i + 5] as nat == (n / 16777216) % 256);
        assert(b[i + 6] as nat == (n / 65536) % 256);
        assert(b[i + 7] as nat == (n / 256) % 256);
        assert(b[i + 8] as nat == n % 256);
        assert(be_val(b, i + 1, 1) == n / 72057594037927936);
        assert(be_val(b, i + 1, 2) == n / 281474976710656);
        assert(be_val(b, i + 1, 3) == n / 1099511627776);
        assert(be_val(b, i + 1, 4) == n / 4294967296);
        assert(be_val(b, i + 1, 5) == n / 16777216);
        assert(be_val(b, i + 1, 6) == n / 65536);
        assert(be_val(b, i + 1, 7) == n / 256);
        assert(be_val(b, i + 1, 8) == n);
    }
}

/// Reading a text item written at the end of `pre` yields exactly the
/// characters that were written.
pub proof fn lemma_read_text_at(pre: Seq<u8>, s: Seq<char>, rest: Seq<u8>)
    requires
        vstd::utf8::encode_utf8(s).len() < 0x10000000000000000,
    ensures
        read_text_item(pre + cbor_text(s) + rest, pre.len() as int) == Some(
            (s, (pre.len() + cbor_text(s).len()) as int),
        ),
{
    broadcast use vstd::utf8::encode_utf8_valid_utf8;
    broadcast use vstd::utf8::encode_utf8_decode_utf8;

    let u = vstd::utf8::encode_utf8(s);
    let b = pre + cbor_text(s) + rest;
    assert(b =~= pre + cbor_head(3, u.len()) + (u + rest));
    lemma_read_head_at(pre, 3, u.len(), u + rest);
    let j = pre.len() + cbor_head(3, u.len()).len();
    assert(b.subrange(j as int, (j + u.len()) as int) =~= u);
}

/// Reading a byte-string item written at the end of `pre` yields exactly
/// the bytes that were written.
pub proof fn lemma_read_bytes_at(pre: Seq<u8>, v: Seq<u8>, rest: Seq<u8>)
    requires
        v.len() < 0x10000000000000000,
    ensures
        read_bytes_item(pre + cbor_bytes(v) + rest, pre.len() as int) == Some(
            (v, (pre.len() + cbor_bytes(v).len()) as int),
        ),
{
    let b = pre + cbor_bytes(v) + rest;
    assert(b =~= pre + cbor_head(2, v.len()) + (v + rest));
    lemma_read_head_at(pre, 2, v.len(), v + rest);
    let j = pre.len() + cbor_head(2, v.len()).len();
    assert(b.subrange(j as int, (j + v.len()) as int) =~= v);
}

/// Reading a boolean item written at the end of `pre` yields the value that
/// was written.
pub proof fn lemma_read_bool_at(pre: Seq<u8>, v: bool, rest: Seq<u8>)
    ensures
        read_bool_item(pre + cbor_bool(v) + rest, pre.len() as int) == Some(
            (v, (pre.len() + 1) as int),
        ),
{
    let b = pre + cbor_bool(v) + rest;
    assert(b[pre.len() as int] == cbor_bool(v)[0]);
}

/// Reading a signed-integer item written at the end of `pre` yields the
/// value that was written.
pub proof fn lemma_read_int_at(pre: Seq<u8>, v: int, rest: Seq<u8>)
    requires
        -0x8000000000000000 <= v < 0x10000000000000000,
    ensures
        read_int_item(pre + cbor_int(v) + rest, pre.len() as int) == Some(
            (v, (pre.len() + cbor_int(v).len()) as int),
        ),
{
    if v >= 0 {
        lemma_read_head_at(pre, 0, v as nat, rest);
    } else {
        lemma_read_head_at(pre, 1, (-1 - v) as nat, rest);
    }
}

} // verus!
