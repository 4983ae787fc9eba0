//! Bijective base-26 record identifiers: the legacy numeric label-id scheme,
//! accepted at read time for migration but never written.

use vstd::prelude::*;
use vstd::string::StrSliceExecFns;

verus! {

/// The digit value of a lowercase letter, 1 through 26.
pub open spec fn base26_digit(c: char) -> int {
    c as int - 'a' as int + 1
}

/// Every character is a lowercase ASCII letter.
pub open spec fn base26_valid(s: Seq<char>) -> bool {
    forall|i: int| 0 <= i < s.len() ==> 'a' <= #[trigger] s[i] <= 'z'
}

/// The number denoted by a bijective base-26 numeral; the empty string
/// denotes zero.
pub open spec fn base26_value(s: Seq<char>) -> int
    decreases s.len(),
{
    if s.len() == 0 {
        0
    } else {
        base26_value(s.drop_last()) * 26 + base26_digit(s.last())
    }
}

proof fn lemma_base26_value_nonneg(s: Seq<char>)
    requires
        base26_valid(s),
    ensures
        base26_value(s) >= 0,
    decreases s.len(),
{
    if s.len() > 0 {
        assert(base26_valid(s.drop_last()));
        lemma_base26_value_nonneg(s.drop_last());
    }
}

proof fn lemma_base26_value_prefix_le(s: Seq<char>, i: int)
    requires
        base26_valid(s),
        0 <= i <= s.len(),
    ensures
        base26_value(s.subrange(0, i)) <= base26_value(s),
    decreases s.len() - i,
{
    if i < s.len() {
        let t = s.subrange(0, i + 1);
        assert(t.drop_last() =~= s.subrange(0, i));
        assert(base26_valid(s.subrange(0, i)));
        lemma_base26_value_nonneg(s.subrange(0, i));
        assert(base26_value(t) == base26_value(s.subrange(0, i)) * 26 + base26_digit(s[i]));
        assert(base26_value(s.subrange(0, i)) * 26 >= base26_value(s.subrange(0, i))) by (nonlinear_arith)
            requires base26_value(s.subrange(0, i)) >= 0;
        lemma_base26_value_prefix_le(s, i + 1);
    } else {
        assert(s.subrange(0, i) =~= s);
    }
}

/// Parses a bijective base-26 numeral. Returns the denoted number, or `None`
/// when a character is not a lowercase ASCII letter or the number does not
/// fit in a `u64`.
pub fn decode(s: &str) -> (r: Option<u64>)
    ensures
        r matches Some(v) ==> base26_valid(s@) && v == base26_value(s@),
        r is None ==> !base26_valid(s@) || base26_value(s@) > u64::MAX,
{
    let n = s.unicode_len();
    let mut acc: u64 = 0;
    let mut i: usize = 0;
    while i < n
        invariant
            0 <= i <= n,
            n == s@.len(),
            base26_valid(s@.subrange(0, i as int)),
            acc == base26_value(s@.subrange(0, i as int)),
        decreases n - i,
    {
        let c = s.get_char(i);
        if c < 'a' || c > 'z' {
            assert(!base26_valid(s@));
            return None;
        }
        let d: u64 = c as u64 - 'a' as u64 + 1;
        if acc > (u64::MAX - d) / 26 {
            proof {
                let p = s@.subrange(0, i as int);
                let q = s@.subrange(0, i as int + 1);
                assert(q.drop_last() =~= p);
                assert(base26_value(q) == base26_value(p) * 26 + d);
                assert(base26_value(p) * 26 + d > u64::MAX) by (nonlinear_arith)
                    requires
                        base26_value(p) == acc,
                        acc > (u64::MAX - d) / 26,
                        1 <= d <= 26,
                        acc <= u64::MAX;
                if base26_valid(s@) {
                    lemma_base26_value_prefix_le(s@, i as int + 1);
                }
            }
            return None;
        }
        proof {
            let p = s@.subrange(0, i as int);
            let q = s@.subrange(0, i as int + 1);
            assert(q.drop_last() =~= p);
            assert(acc * 26 + d <= u64::MAX) by (nonlinear_arith)
                requires
                    acc <= (u64::MAX - d) / 26,
                    1 <= d <= 26,
                    0 <= acc;
        }
        acc = acc * 26 + d;
        i = i + 1;
    }
    proof {
        assert(s@.subrange(0, n as int) =~= s@);
    }
    Some(acc)
}

/// The bijective base-26 numeral of a number; zero is the empty string.
pub open spec fn spec_encode(n: nat) -> Seq<char>
    decreases n,
{
    if n == 0 {
        Seq::<char>::empty()
    } else {
        spec_encode((((n - 1) / 26)) as nat) + seq![(97 + ((n - 1) % 26)) as u8 as char]
    }
}

/// Writes `num` as a bijective base-26 numeral over `a` through `z`; zero
/// becomes the empty string.
pub fn encode(num: u64) -> (r: String)
    ensures
        r@ == spec_encode(num as nat),
{
    let mut digits: Vec<char> = Vec::new();
    let ghost mut acc = Seq::<char>::empty();
    let mut m = num;
    proof {
        assert(spec_encode(num as nat) =~= spec_encode(num as nat) + acc);
    }
    while m > 0
        invariant
            spec_encode(num as nat) == spec_encode(m as nat) + acc,
            digits@.len() == acc.len(),
            forall|k: int| 0 <= k < digits@.len() ==> digits@[k] == acc[acc.len() - 1 - k],
        decreases m,
    {
        let d: u64 = (m - 1) % 26;
        let c: char = (97 + d as u8) as char;
        digits.push(c);
        m = (m - 1) / 26;
        proof {
            let ghost pm = acc;
            acc = seq![c] + acc;
            assert(spec_encode(num as nat) =~= spec_encode(m as nat) + acc) by {
                assert(spec_encode(num as nat) == spec_encode(m as nat) + seq![c] + pm);
                assert(spec_encode(m as nat) + seq![c] + pm =~= spec_encode(m as nat) + (seq![c]
                    + pm));
            }
        }
    }
    let mut out: Vec<char> = Vec::new();
    let mut i: usize = 0;
    let n = digits.len();
    while i < n
        invariant
            0 <= i <= n,
            n == digits@.len(),
            n == acc.len(),
            forall|k: int| 0 <= k < n ==> digits@[k] == acc[acc.len() - 1 - k],
            out@ == acc.take(i as int),
        decreases n - i,
    {
        out.push(digits[n - 1 - i]);
        proof {
            assert(out@ =~= acc.take(i as int + 1));
        }
        i = i + 1;
    }
    proof {
        assert(acc.take(n as int) =~= acc);
        assert(spec_encode(num as nat) == spec_encode(0) + acc);
        assert(spec_encode(0) + acc =~= acc);
    }
    crate::strutil::string_from_chars(&out)
}

} // verus!
