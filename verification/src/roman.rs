//! Roman numerals. Slugs spell out numbers in a name as lowercase roman
//! numerals; `N` stands for zero.

use vstd::prelude::*;
use vstd::string::StringExecFns;
use vstd::string::StrSliceExecFns;

verus! {

/// The greedy roman spelling of a positive number: the largest symbol value
/// that fits is written first.
pub open spec fn roman_of(n: nat) -> Seq<char>
    decreases n,
{
    if n >= 1000 {
        seq!['M'] + roman_of((n - 1000) as nat)
    } else if n >= 900 {
        seq!['C', 'M'] + roman_of((n - 900) as nat)
    } else if n >= 500 {
        seq!['D'] + roman_of((n - 500) as nat)
    } else if n >= 400 {
        seq!['C', 'D'] + roman_of((n - 400) as nat)
    } else if n >= 100 {
        seq!['C'] + roman_of((n - 100) as nat)
    } else if n >= 90 {
        seq!['X', 'C'] + roman_of((n - 90) as nat)
    } else if n >= 50 {
        seq!['L'] + roman_of((n - 50) as nat)
    } else if n >= 40 {
        seq!['X', 'L'] + roman_of((n - 40) as nat)
    } else if n >= 10 {
        seq!['X'] + roman_of((n - 10) as nat)
    } else if n >= 9 {
        seq!['I', 'X'] + roman_of((n - 9) as nat)
    } else if n >= 5 {
        seq!['V'] + roman_of((n - 5) as nat)
    } else if n >= 4 {
        seq!['I', 'V'] + roman_of((n - 4) as nat)
    } else if n >= 1 {
        seq!['I'] + roman_of((n - 1) as nat)
    } else {
        Seq::<char>::empty()
    }
}

/// The full spelling: zero is written `N`.
pub open spec fn spec_to_roman(n: nat) -> Seq<char> {
    if n == 0 {
        seq!['N']
    } else {
        roman_of(n)
    }
}

/// Writes `num` as an uppercase roman numeral; zero becomes `"N"`.
#[verifier::loop_isolation(false)]
pub fn to_roman(num: u32) -> (r: String)
    ensures
        r@ == spec_to_roman(num as nat),
{
    proof {
        reveal_strlit("N");
        reveal_strlit("M");
        reveal_strlit("CM");
        reveal_strlit("D");
        reveal_strlit("CD");
        reveal_strlit("C");
        reveal_strlit("XC");
        reveal_strlit("L");
        reveal_strlit("XL");
        reveal_strlit("X");
        reveal_strlit("IX");
        reveal_strlit("V");
        reveal_strlit("IV");
        reveal_strlit("I");
    }
    if num == 0 {
        let r = String::from_str("N");
        proof {
            assert(r@ =~= seq!['N']);
        }
        return r;
    }

    let mut n = num;
    let mut result = String::new();
    while n > 0
        invariant
            result@ + roman_of(n as nat) == roman_of(num as nat),
        decreases n,
    {
        let ghost prev = result@;
        let ghost pn = n as nat;
        if n >= 1000 {
            result.append("M");
            n = n - 1000;
            proof {
                assert("M"@ =~= seq!['M']);
            }
        } else if n >= 900 {
            result.append("CM");
            n = n - 900;
            proof {
                assert("CM"@ =~= seq!['C', 'M']);
            }
        } else if n >= 500 {
            result.append("D");
            n = n - 500;
            proof {
                assert("D"@ =~= seq!['D']);
            }
        } else if n >= 400 {
            result.append("CD");
            n = n - 400;
            proof {
                assert("CD"@ =~= seq!['C', 'D']);
            }
        } else if n >= 100 {
            result.append("C");
            n = n - 100;
            proof {
                assert("C"@ =~= seq!['C']);
            }
        } else if n >= 90 {
            result.append("XC");
            n = n - 90;
            proof {
                assert("XC"@ =~= seq!['X', 'C']);
            }
        } else if n >= 50 {
            result.append("L");
            n = n - 50;
            proof {
                assert("L"@ =~= seq!['L']);
            }
        } else if n >= 40 {
            result.append("XL");
            n = n - 40;
            proof {
                assert("XL"@ =~= seq!['X', 'L']);
            }
        } else if n >= 10 {
            result.append("X");
            n = n - 10;
            proof {
                assert("X"@ =~= seq!['X']);
            }
        } else if n >= 9 {
            result.append("IX");
            n = n - 9;
            proof {
                assert("IX"@ =~= seq!['I', 'X']);
            }
        } else if n >= 5 {
            result.append("V");
            n = n - 5;
            proof {
                assert("V"@ =~= seq!['V']);
            }
        } else if n >= 4 {
            result.append("IV");
            n = n - 4;
            proof {
                assert("IV"@ =~= seq!['I', 'V']);
            }
        } else {
            result.append("I");
            n = n - 1;
            proof {
                assert("I"@ =~= seq!['I']);
            }
        }
        proof {
            assert(result@ + roman_of(n as nat) =~= prev + roman_of(pn));
        }
    }
    proof {
        assert(result@ =~= result@ + roman_of(0));
    }
    result
}

/// The value of a single roman symbol, upper or lower case; 0 marks a
/// character that is no roman symbol.
pub open spec fn roman_sym_val(c: char) -> int {
    if c == 'I' || c == 'i' {
        1
    } else if c == 'V' || c == 'v' {
        5
    } else if c == 'X' || c == 'x' {
        10
    } else if c == 'L' || c == 'l' {
        50
    } else if c == 'C' || c == 'c' {
        100
    } else if c == 'D' || c == 'd' {
        500
    } else if c == 'M' || c == 'm' {
        1000
    } else {
        0
    }
}

/// Every character is a roman symbol.
pub open spec fn roman_valid(s: Seq<char>) -> bool {
    forall|i: int| 0 <= i < s.len() ==> roman_sym_val(#[trigger] s[i]) != 0
}

/// The two-symbol-lookahead reading: a symbol smaller than its successor is
/// subtracted from it, anything else is added.
pub open spec fn roman_parse_from(s: Seq<char>, i: int) -> int
    decreases s.len() - i when 0 <= i <= s.len()
{
    if i >= s.len() {
        0
    } else if i + 1 < s.len() && roman_sym_val(s[i + 1]) > roman_sym_val(s[i]) {
        roman_sym_val(s[i + 1]) - roman_sym_val(s[i]) + roman_parse_from(s, i + 2)
    } else {
        roman_sym_val(s[i]) + roman_parse_from(s, i + 1)
    }
}

/// What `from_roman` reads out of a string: `N` or `n` alone means zero; any
/// non-symbol makes the string unreadable.
pub open spec fn spec_from_roman(s: Seq<char>) -> Option<int> {
    if s =~= seq!['N'] || s =~= seq!['n'] {
        Some(0int)
    } else if !roman_valid(s) {
        None
    } else {
        Some(roman_parse_from(s, 0))
    }
}

proof fn lemma_roman_parse_nonneg(s: Seq<char>, i: int)
    requires
        0 <= i <= s.len(),
    ensures
        roman_parse_from(s, i) >= 0,
    decreases s.len() - i,
{
    if i < s.len() {
        if i + 1 < s.len() && roman_sym_val(s[i + 1]) > roman_sym_val(s[i]) {
            lemma_roman_parse_nonneg(s, i + 2);
        } else {
            lemma_roman_parse_nonneg(s, i + 1);
        }
    }
}

fn sym_to_int(c: char) -> (r: u32)
    ensures
        r == roman_sym_val(c),
{
    match c {
        'I' | 'i' => 1,
        'V' | 'v' => 5,
        'X' | 'x' => 10,
        'L' | 'l' => 50,
        'C' | 'c' => 100,
        'D' | 'd' => 500,
        'M' | 'm' => 1000,
        _ => 0,
    }
}

/// Reads a roman numeral, upper or lower case. Returns its value, or `None`
/// when a character is no roman symbol or the value does not fit in a `u32`.
#[verifier::loop_isolation(false)]
pub fn from_roman(s: &str) -> (r: Option<u32>)
    ensures
        r matches Some(v) ==> spec_from_roman(s@) == Some(v as int),
        r is None ==> spec_from_roman(s@) is None || spec_from_roman(s@).unwrap() > u32::MAX,
{
    let n = s.unicode_len();

    if n == 1 {
        let c = s.get_char(0);
        if c == 'N' || c == 'n' {
            proof {
                if c == 'N' {
                    assert(s@ =~= seq!['N']);
                } else {
                    assert(s@ =~= seq!['n']);
                }
            }
            return Some(0);
        }
    }
    proof {
        assert(!(s@ =~= seq!['N']) && !(s@ =~= seq!['n'])) by {
            if s@ =~= seq!['N'] || s@ =~= seq!['n'] {
                assert(s@.len() == 1);
            }
        }
    }

    let mut total: u64 = 0;
    let mut i: usize = 0;
    while i < n
        invariant
            0 <= i <= n,
            n == s@.len(),
            total <= u32::MAX,
            forall|j: int| 0 <= j < i ==> roman_sym_val(#[trigger] s@[j]) != 0,
            roman_valid(s@) ==> total + roman_parse_from(s@, i as int) == roman_parse_from(s@, 0),
        decreases n - i,
    {
        let cur = sym_to_int(s.get_char(i));
        if cur == 0 {
            assert(!roman_valid(s@));
            return None;
        }
        if i + 1 < n {
            let next = sym_to_int(s.get_char(i + 1));
            if next == 0 {
                assert(!roman_valid(s@));
                return None;
            }
            if next > cur {
                total = total + (next - cur) as u64;
                i = i + 2;
            } else {
                total = total + cur as u64;
                i = i + 1;
            }
        } else {
            total = total + cur as u64;
            i = i + 1;
        }
        if total > u32::MAX as u64 {
            proof {
                if roman_valid(s@) {
                    lemma_roman_parse_nonneg(s@, i as int);
                }
            }
            return None;
        }
    }
    Some(total as u32)
}

} // verus!
