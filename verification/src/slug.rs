//! Locale-aware ASCII slugs: the label identifier derived from an event's
//! name. The name is case-folded for its locale, transliterated to ASCII,
//! numbers are spelt as roman numerals, everything else is reduced to
//! lowercase words joined by hyphens.

use vstd::prelude::*;
use vstd::string::StrSliceExecFns;
use crate::roman::spec_to_roman;
use crate::strutil::{chars_vec, string_from_chars};

verus! {

/// The language the most likely spoken in a region, maximized from the
/// region subtag alone.
pub uninterp spec fn lang_for_region_of(region: Seq<char>) -> Seq<char>;

/// NFKC normalization.
pub uninterp spec fn nfkc_of(s: Seq<char>) -> Seq<char>;

/// Locale-aware lowercasing.
pub uninterp spec fn locale_lower_of(s: Seq<char>, lang: Seq<char>) -> Seq<char>;

/// ASCII transliteration.
pub uninterp spec fn deunicode_of(s: Seq<char>) -> Seq<char>;

/// Relies on `icu_locale::LocaleExpander::maximize`: guesses the likeliest
/// language for an ISO-3166 region code; an unparsable region yields the
/// unknown language's expansion.
#[verifier::external_body]
pub fn guess_language_for_region(region: &str) -> (r: String)
    ensures
        r@ == lang_for_region_of(region@),
{
    let mut langid = icu_locale::LanguageIdentifier::UNKNOWN;
    langid.region = region.parse().ok();
    let expander = icu_locale::LocaleExpander::new_common();
    expander.maximize(&mut langid);
    langid.to_string()
}

/// Relies on `icu_normalizer::ComposingNormalizer`: NFKC normalization,
/// a function of the characters alone.
#[verifier::external_body]
fn nfkc(s: &str) -> (r: String)
    ensures
        r@ == nfkc_of(s@),
{
    let normalizer = icu_normalizer::ComposingNormalizer::new_nfkc();
    normalizer.normalize(s).into_owned()
}

/// Relies on `icu_casemap::CaseMapper::lowercase_to_string`: lowercases
/// for the given language; an unparsable language tag falls back to the
/// unknown language.
#[verifier::external_body]
fn locale_lower(s: &str, lang: &str) -> (r: String)
    ensures
        r@ == locale_lower_of(s@, lang@),
{
    let langid: icu_locale::LanguageIdentifier =
        lang.parse().unwrap_or(icu_locale::LanguageIdentifier::UNKNOWN);
    let mapper = icu_casemap::CaseMapper::new();
    mapper.lowercase_to_string(s, &langid).into_owned()
}

/// Relies on `deunicode::deunicode`: ASCII transliteration; the
/// documentation promises an ASCII result.
#[verifier::external_body]
fn deunicode_str(s: &str) -> (r: String)
    ensures
        r@ == deunicode_of(s@),
        vstd::utf8::is_ascii_chars(r@),
{
    deunicode::deunicode(s)
}

/// Lowercases and normalizes for a language: NFKC first, then the
/// locale-aware case fold.
pub fn to_lower(s: &str, lang: &str) -> (r: String)
    ensures
        r@ == locale_lower_of(nfkc_of(s@), lang@),
{
    let n = nfkc(s);
    locale_lower(n.as_str(), lang)
}

/// Every ampersand spelt out as `and`.
pub open spec fn replace_amp(s: Seq<char>) -> Seq<char>
    decreases s.len(),
{
    if s.len() == 0 {
        Seq::<char>::empty()
    } else if s[0] == '&' {
        seq!['a', 'n', 'd'] + replace_amp(s.drop_first())
    } else {
        seq![s[0]] + replace_amp(s.drop_first())
    }
}

fn replace_amp_exec(s: &str) -> (r: String)
    ensures
        r@ == replace_amp(s@),
{
    let v = chars_vec(s);
    let mut out: Vec<char> = Vec::new();
    let mut i: usize = 0;
    proof {
        assert(s@.skip(0) =~= s@);
        assert(Seq::<char>::empty() + replace_amp(s@) =~= replace_amp(s@));
    }
    while i < v.len()
        invariant
            0 <= i <= v@.len(),
            v@ == s@,
            out@ + replace_amp(s@.skip(i as int)) == replace_amp(s@),
        decreases v@.len() - i,
    {
        let ghost pre = out@;
        if v[i] == '&' {
            out.push('a');
            out.push('n');
            out.push('d');
        } else {
            out.push(v[i]);
        }
        proof {
            let rest = s@.skip(i as int);
            assert(rest[0] == s@[i as int]);
            assert(rest.drop_first() =~= s@.skip(i as int + 1));
            if s@[i as int] == '&' {
                assert(out@ =~= pre + seq!['a', 'n', 'd']);
                assert(pre + (seq!['a', 'n', 'd'] + replace_amp(rest.drop_first())) =~= out@
                    + replace_amp(s@.skip(i as int + 1)));
            } else {
                assert(out@ =~= pre + seq![s@[i as int]]);
                assert(pre + (seq![rest[0]] + replace_amp(rest.drop_first())) =~= out@
                    + replace_amp(s@.skip(i as int + 1)));
            }
        }
        i = i + 1;
    }
    proof {
        assert(s@.skip(s@.len() as int) =~= Seq::<char>::empty());
        assert(out@ + Seq::<char>::empty() =~= out@);
    }
    string_from_chars(&out)
}

/// The ASCII lowercase of one character.
pub open spec fn lower_char(c: char) -> char {
    if 'A' <= c <= 'Z' {
        ((c as u8 + 32) as u8) as char
    } else {
        c
    }
}

/// ASCII lowercasing, character by character.
pub open spec fn ascii_lower(s: Seq<char>) -> Seq<char> {
    s.map_values(|c: char| lower_char(c))
}

fn ascii_lower_exec(v: &Vec<char>) -> (r: Vec<char>)
    ensures
        r@ == ascii_lower(v@),
{
    let mut out: Vec<char> = Vec::new();
    let mut i: usize = 0;
    while i < v.len()
        invariant
            0 <= i <= v@.len(),
            out@ == ascii_lower(v@.take(i as int)),
        decreases v@.len() - i,
    {
        let c = v[i];
        if c >= 'A' && c <= 'Z' {
            out.push(((c as u8) + 32) as char);
        } else {
            out.push(c);
        }
        proof {
            assert(out@ =~= ascii_lower(v@.take(i as int + 1)));
        }
        i = i + 1;
    }
    proof {
        assert(v@.take(v@.len() as int) =~= v@);
    }
    out
}

/// The characters a slug may hold between word breaks: lowercase ASCII
/// letters, the space, and the hyphen.
pub open spec fn slug_allowed() -> spec_fn(char) -> bool {
    |c: char| ('a' <= c <= 'z') || c == ' ' || c == '-'
}

fn filter_allowed_exec(v: &Vec<char>) -> (r: Vec<char>)
    ensures
        r@ == v@.filter(slug_allowed()),
{
    let mut out: Vec<char> = Vec::new();
    let mut i: usize = 0;
    while i < v.len()
        invariant
            0 <= i <= v@.len(),
            out@ == v@.take(i as int).filter(slug_allowed()),
        decreases v@.len() - i,
    {
        let ghost pre = v@.take(i as int);
        let c = v[i];
        if (c >= 'a' && c <= 'z') || c == ' ' || c == '-' {
            out.push(c);
        }
        proof {
            assert(v@.take(i as int + 1) =~= pre.push(v@[i as int]));
            seq_filter_push_char(pre, slug_allowed(), v@[i as int]);
        }
        i = i + 1;
    }
    proof {
        assert(v@.take(v@.len() as int) =~= v@);
    }
    out
}

proof fn seq_filter_push_char(s: Seq<char>, pred: spec_fn(char) -> bool, x: char)
    ensures
        s.push(x).filter(pred) == if pred(x) {
            s.filter(pred).push(x)
        } else {
            s.filter(pred)
        },
{
    reveal(Seq::filter);
    assert(s.push(x).drop_last() =~= s);
    assert(s.push(x).last() == x);
}

/// Whitespace collapsed away: maximal runs of non-space characters are
/// kept as words, joined by single hyphens, with nothing at either end.
/// `emitted` says whether a word character was already written, `pending`
/// whether a separator is owed before the next one.
pub open spec fn collapse_from(s: Seq<char>, i: int, emitted: bool, pending: bool) -> Seq<char>
    decreases s.len() - i when 0 <= i <= s.len()
{
    if i >= s.len() {
        Seq::<char>::empty()
    } else if s[i] == ' ' {
        collapse_from(s, i + 1, emitted, emitted)
    } else {
        (if pending {
            seq!['-']
        } else {
            Seq::<char>::empty()
        }) + seq![s[i]] + collapse_from(s, i + 1, true, false)
    }
}

/// Words joined by hyphens.
pub open spec fn collapse(s: Seq<char>) -> Seq<char> {
    collapse_from(s, 0, false, false)
}

/// An ASCII decimal digit.
pub open spec fn is_digit(c: char) -> bool {
    '0' <= c <= '9'
}

/// The number a run of digits spells.
pub open spec fn digits_val(d: Seq<char>) -> int
    decreases d.len(),
{
    if d.len() == 0 {
        0
    } else {
        digits_val(d.drop_last()) * 10 + (d.last() as int - '0' as int)
    }
}

/// What a collected digit run becomes: the number spelt as a lowercase
/// roman numeral between two spaces; an empty run becomes nothing.
pub open spec fn flush_run(run: Seq<char>) -> Seq<char> {
    if run.len() == 0 {
        Seq::<char>::empty()
    } else {
        seq![' '] + ascii_lower(spec_to_roman(digits_val(run) as nat)) + seq![' ']
    }
}

/// The text from position `i` on with every maximal digit run spelt as a
/// roman numeral; `run` holds the digits read just before `i`.
pub open spec fn expand_from(s: Seq<char>, i: int, run: Seq<char>) -> Seq<char>
    decreases s.len() - i when 0 <= i <= s.len()
{
    if i >= s.len() {
        flush_run(run)
    } else if is_digit(s[i]) {
        expand_from(s, i + 1, run.push(s[i]))
    } else {
        flush_run(run) + seq![s[i]] + expand_from(s, i + 1, Seq::<char>::empty())
    }
}

/// Every maximal digit run spelt as a lowercase roman numeral between
/// spaces.
pub open spec fn spec_expand(s: Seq<char>) -> Seq<char> {
    expand_from(s, 0, Seq::<char>::empty())
}

/// Whether every digit run from position `i` on fits a `u32`; `run` holds
/// the digits read just before `i`.
pub open spec fn runs_fit_from(s: Seq<char>, i: int, run: Seq<char>) -> bool
    decreases s.len() - i when 0 <= i <= s.len()
{
    if i >= s.len() {
        digits_val(run) <= u32::MAX
    } else if is_digit(s[i]) {
        runs_fit_from(s, i + 1, run.push(s[i]))
    } else {
        digits_val(run) <= u32::MAX && runs_fit_from(s, i + 1, Seq::<char>::empty())
    }
}

/// Whether every digit run in `s` spells a number that fits a `u32`: only
/// those can be spelt as roman numerals.
pub open spec fn runs_fit(s: Seq<char>) -> bool {
    runs_fit_from(s, 0, Seq::<char>::empty())
}

fn expand_numbers_exec(v: &Vec<char>) -> (r: Option<Vec<char>>)
    ensures
        r is Some <==> runs_fit(v@),
        r matches Some(o) ==> o@ == spec_expand(v@),
{
    let mut out: Vec<char> = Vec::new();
    let mut run: Vec<char> = Vec::new();
    let mut acc: u64 = 0;
    let ghost cap = u32::MAX as u64 + 1;
    let mut i: usize = 0;
    while i < v.len()
        invariant
            0 <= i <= v@.len(),
            runs_fit(v@) == runs_fit_from(v@, i as int, run@),
            spec_expand(v@) == out@ + expand_from(v@, i as int, run@),
            acc == if digits_val(run@) > u32::MAX {
                cap
            } else {
                digits_val(run@)
            },
            cap == u32::MAX as u64 + 1,
        decreases v@.len() - i,
    {
        let ghost prerun = run@;
        let ghost preout = out@;
        let c = v[i];
        if c >= '0' && c <= '9' {
            run.push(c);
            let d: u64 = c as u64 - 48;
            proof {
                assert(run@.drop_last() =~= prerun);
                assert(digits_val(run@) == digits_val(prerun) * 10 + d);
                if digits_val(prerun) > u32::MAX {
                    assert(digits_val(prerun) * 10 >= digits_val(prerun));
                }
            }
            if acc > u32::MAX as u64 {
                // the run already overflows; keep the sentinel
            } else {
                let next = acc * 10 + d;
                if next > u32::MAX as u64 {
                    acc = u32::MAX as u64 + 1;
                } else {
                    acc = next;
                }
            }
        } else {
            if acc > u32::MAX as u64 {
                return None;
            }
            if run.len() > 0 {
                out.push(' ');
                let roman = crate::roman::to_roman(acc as u32);
                let rv = chars_vec(roman.as_str());
                let mut lowered = ascii_lower_exec(&rv);
                out.append(&mut lowered);
                out.push(' ');
                proof {
                    assert(out@ =~= preout + flush_run(prerun));
                }
            } else {
                proof {
                    assert(out@ =~= preout + flush_run(prerun));
                }
            }
            out.push(c);
            run.clear();
            acc = 0;
            proof {
                assert(out@ =~= preout + flush_run(prerun) + seq![v@[i as int]]);
                assert(preout + (flush_run(prerun) + seq![v@[i as int]] + expand_from(
                    v@,
                    i as int + 1,
                    Seq::<char>::empty(),
                )) =~= out@ + expand_from(v@, i as int + 1, Seq::<char>::empty()));
            }
        }
        i = i + 1;
    }
    if acc > u32::MAX as u64 {
        return None;
    }
    if run.len() > 0 {
        let ghost preout = out@;
        let ghost prerun = run@;
        out.push(' ');
        let roman = crate::roman::to_roman(acc as u32);
        let rv = chars_vec(roman.as_str());
        let mut lowered = ascii_lower_exec(&rv);
        out.append(&mut lowered);
        out.push(' ');
        proof {
            assert(out@ =~= preout + flush_run(prerun));
        }
    } else {
        proof {
            assert(out@ =~= out@ + flush_run(run@));
        }
    }
    Some(out)
}

fn collapse_exec(v: &Vec<char>) -> (r: Vec<char>)
    ensures
        r@ == collapse(v@),
{
    let mut out: Vec<char> = Vec::new();
    let mut pending = false;
    let mut i: usize = 0;
    proof {
        assert(Seq::<char>::empty() + collapse(v@) =~= collapse(v@));
    }
    while i < v.len()
        invariant
            0 <= i <= v@.len(),
            collapse(v@) == out@ + collapse_from(v@, i as int, out@.len() > 0, pending),
            pending ==> out@.len() > 0,
        decreases v@.len() - i,
    {
        let ghost pre = out@;
        let ghost was_pending = pending;
        let c = v[i];
        if c == ' ' {
            if out.len() > 0 {
                pending = true;
            }
        } else {
            if pending {
                out.push('-');
                pending = false;
            }
            out.push(c);
            proof {
                let tail = collapse_from(v@, i as int + 1, true, false);
                if was_pending {
                    assert(out@ =~= pre + seq!['-', v@[i as int]]);
                    assert(pre + (seq!['-'] + seq![v@[i as int]] + tail) =~= out@ + tail);
                } else {
                    assert(out@ =~= pre + seq![v@[i as int]]);
                    assert(pre + (Seq::<char>::empty() + seq![v@[i as int]] + tail) =~= out@
                        + tail);
                }
            }
        }
        i = i + 1;
    }
    proof {
        assert(out@ + collapse_from(v@, v@.len() as int, out@.len() > 0, pending) =~= out@);
    }
    out
}

/// The slug of an already case-folded ASCII text: numbers spelt as roman
/// numerals, disallowed characters dropped, words joined by hyphens.
pub open spec fn spec_slug_ascii(s: Seq<char>) -> Seq<char> {
    collapse(spec_expand(ascii_lower(s)).filter(slug_allowed()))
}

/// Slugs a case-folded text. Returns `None` exactly when some digit run
/// spells a number too large for a `u32`.
pub fn slugify_folded(s: &str) -> (r: Option<String>)
    ensures
        r is Some <==> runs_fit(ascii_lower(s@)),
        r matches Some(o) ==> o@ == spec_slug_ascii(s@),
{
    let v = chars_vec(s);
    let lowered = ascii_lower_exec(&v);
    let expanded = match expand_numbers_exec(&lowered) {
        Some(e) => e,
        None => {
            return None;
        },
    };
    let kept = filter_allowed_exec(&expanded);
    let joined = collapse_exec(&kept);
    Some(string_from_chars(&joined))
}

/// The text a name is reduced to before slugging: ampersands spelt out,
/// NFKC-normalized, lowercased for the language, transliterated to ASCII.
pub open spec fn folded_of(s: Seq<char>, lang: Seq<char>) -> Seq<char> {
    deunicode_of(locale_lower_of(nfkc_of(replace_amp(s)), lang))
}

/// The slug of a name under a language.
pub open spec fn spec_slugify(s: Seq<char>, lang: Seq<char>) -> Seq<char> {
    spec_slug_ascii(folded_of(s, lang))
}

/// The label identifier of a name: its locale-aware ASCII slug.
pub fn slugify_for_label(s: &str, lang: &str) -> (r: String)
    requires
        runs_fit(ascii_lower(folded_of(s@, lang@))),
    ensures
        r@ == spec_slugify(s@, lang@),
{
    let amp = replace_amp_exec(s);
    let lowered = to_lower(amp.as_str(), lang);
    let folded = deunicode_str(lowered.as_str());
    match slugify_folded(folded.as_str()) {
        Some(r) => r,
        None => {
            proof {
                assert(false);
            }
            String::new()
        },
    }
}

/// The label identifier of a name, or `None` when a number in the name is
/// too large to spell as a roman numeral.
pub fn try_slugify_for_label(s: &str, lang: &str) -> (r: Option<String>)
    ensures
        r is Some <==> runs_fit(ascii_lower(folded_of(s@, lang@))),
        r matches Some(o) ==> o@ == spec_slugify(s@, lang@),
{
    let amp = replace_amp_exec(s);
    let lowered = to_lower(amp.as_str(), lang);
    let folded = deunicode_str(lowered.as_str());
    match slugify_folded(folded.as_str()) {
        Some(_) => Some(slugify_for_label(s, lang)),
        None => None,
    }
}

} // verus!
