//! PubMed identifiers: normalising what a user typed to the numerical PMID,
//! and the record of an article found for it.

use vstd::prelude::*;
use vstd::string::StrSliceExecFns;
use crate::decimal::{decimal, decimal_string};

verus! {

/// A PubMed article: its full identifier (`PMID:12345`) and title.
#[derive(Debug)]
pub struct PmidDto {
    pub pmid: String,
    pub title: String,
}

impl PmidDto {
    pub fn new(pmid: &str, title: &str) -> (r: Self)
        ensures
            r.pmid@ == pmid@,
            r.title@ == title@,
    {
        PmidDto { pmid: String::from_str(pmid), title: String::from_str(title) }
    }

    /// The record of the article with numerical PMID `num_pmid`.
    pub fn from_numerical_pmid(num_pmid: &str, title: &str) -> (r: Self)
        ensures
            r.pmid@ == "PMID:"@ + num_pmid@,
            r.title@ == title@,
    {
        let mut pmid = String::from_str("PMID:");
        pmid.append(num_pmid);
        PmidDto::new(pmid.as_str(), title)
    }
}

/// What `str::to_uppercase` makes of a text.
pub uninterp spec fn uppercase_of(s: Seq<char>) -> Seq<char>;

/// What `str::trim` makes of a text.
pub uninterp spec fn trimmed_of(s: Seq<char>) -> Seq<char>;

/// Relies on str::to_uppercase: the upper-case text depends on the
/// characters alone.
#[verifier::external_body]
fn to_uppercase(s: &str) -> (r: String)
    ensures
        r@ == uppercase_of(s@),
{
    s.to_uppercase()
}

/// Relies on str::trim: the text without leading and trailing white space
/// depends on the characters alone.
#[verifier::external_body]
fn trim(s: &str) -> (r: &str)
    ensures
        r@ == trimmed_of(s@),
{
    s.trim()
}

/// `s` with every match of `pat` removed, matches taken left to right
/// without overlap.
pub open spec fn without_pattern(s: Seq<char>, pat: Seq<char>) -> Seq<char>
    decreases s.len(),
{
    if s.len() == 0 {
        Seq::empty()
    } else if pat.len() > 0 && s.len() >= pat.len() && s.take(pat.len() as int) == pat {
        without_pattern(s.skip(pat.len() as int), pat)
    } else {
        seq![s[0]] + without_pattern(s.drop_first(), pat)
    }
}

/// Relies on str::replace: replacing every match of `pat`, left to right
/// and without overlap, by the empty string removes them.
#[verifier::external_body]
fn remove_matches(s: &str, pat: &str) -> (r: String)
    requires
        pat@.len() > 0,
    ensures
        r@ == without_pattern(s@, pat@),
{
    s.replace(pat, "")
}

/// Whether `c` is an ASCII decimal digit.
pub open spec fn is_digit(c: char) -> bool {
    48 <= c as u32 <= 57
}

/// The value of a string of decimal digits.
pub open spec fn digits_value(s: Seq<char>) -> nat
    decreases s.len(),
{
    if s.len() == 0 {
        0
    } else {
        digits_value(s.drop_last()) * 10 + (s.last() as u32 - 48) as nat
    }
}

/// `s` without a leading `+`.
pub open spec fn unsigned_part(s: Seq<char>) -> Seq<char> {
    if s.len() > 0 && s[0] == '+' {
        s.drop_first()
    } else {
        s
    }
}

/// Every character of `d` is a decimal digit.
pub open spec fn all_digits(d: Seq<char>) -> bool {
    forall|i: int| 0 <= i < d.len() ==> is_digit(#[trigger] d[i])
}

/// The unsigned 32-bit number that `s` writes: an optional `+`, then one or
/// more decimal digits, with a value that fits.
pub open spec fn parsed_u32(s: Seq<char>) -> Option<u32> {
    let d = unsigned_part(s);
    if d.len() > 0 && all_digits(d) && digits_value(d) <= u32::MAX {
        Some(digits_value(d) as u32)
    } else {
        None
    }
}

proof fn lemma_digits_value_grows(d: Seq<char>, k: int)
    requires
        0 <= k <= d.len(),
        all_digits(d),
    ensures
        digits_value(d.take(k)) <= digits_value(d),
    decreases d.len() - k,
{
    if k < d.len() {
        lemma_digits_value_grows(d, k + 1);
        assert(d.take(k + 1).drop_last() =~= d.take(k));
        assert(is_digit(d[k]));
    } else {
        assert(d.take(k) =~= d);
    }
}

/// The number that `s` writes, as `str::parse::<u32>` reads it.
fn parse_u32(s: &str) -> (r: Option<u32>)
    ensures
        r == parsed_u32(s@),
{
    let n = s.unicode_len();
    let mut start: usize = 0;
    if n > 0 && s.get_char(0) == '+' {
        start = 1;
    }
    let ghost d = unsigned_part(s@);
    if start == n {
        return None;
    }
    let mut acc: u64 = 0;
    let mut i: usize = start;
    while i < n
        invariant
            n == s@.len(),
            start <= i <= n,
            d == s@.skip(start as int),
            d == unsigned_part(s@),
            forall|q: int| 0 <= q < i - start ==> is_digit(#[trigger] d[q]),
            acc == digits_value(d.take(i - start)),
            acc <= u32::MAX,
        decreases n - i,
    {
        let c = s.get_char(i);
        proof {
            assert(d[i - start] == c);
        }
        if !(48 <= c as u32 && c as u32 <= 57) {
            proof {
                assert(!is_digit(d[i - start]));
            }
            return None;
        }
        proof {
            assert(d.take(i - start + 1).drop_last() =~= d.take(i - start));
            assert(d.take(i - start + 1).last() == c);
        }
        acc = acc * 10 + (c as u32 - 48) as u64;
        if acc > u32::MAX as u64 {
            proof {
                assert(acc == digits_value(d.take(i - start + 1)));
                if all_digits(d) {
                    lemma_digits_value_grows(d, i - start + 1);
                }
            }
            return None;
        }
        i = i + 1;
    }
    proof {
        assert(d.take(d.len() as int) =~= d);
    }
    Some(acc as u32)
}

/// The decimal text of the number that `text` writes (as `str::parse::<u32>`
/// reads it), or `None` when it writes none.
pub open spec fn number_text(text: Seq<char>) -> Option<Seq<char>> {
    match parsed_u32(text) {
        Some(n) => Some(decimal(n as nat)),
        None => None,
    }
}

/// The canonical decimal text of the number in `text`: `"+0042"` gives
/// `"42"`; text that is not a 32-bit unsigned number gives `None`.
pub fn canonical_pmid_number(text: &str) -> (r: Option<String>)
    ensures
        match r {
            Some(v) => number_text(text@) == Some(v@),
            None => number_text(text@) is None,
        },
{
    match parse_u32(text) {
        Some(n) => Some(decimal_string(n as usize)),
        None => None,
    }
}

/// The numerical PMID in what a user typed: the text is upper-cased, every
/// `PMID:` is removed, the rest is trimmed and read as a number.
pub open spec fn extracted_pmid(input: Seq<char>) -> Option<Seq<char>> {
    number_text(trimmed_of(without_pattern(uppercase_of(input), "PMID:"@)))
}

/// Retrieves article data for one PubMed identifier.
#[derive(Debug)]
pub struct PubmedRetriever {
    numerical_pmid: String,
}

impl PubmedRetriever {
    /// The numerical PMID this retriever asks for.
    pub closed spec fn pmid_view(&self) -> Seq<char> {
        self.numerical_pmid@
    }

    /// A retriever for the PMID in `pmid` (`PMID: 20802478`, `PMID:20802478`
    /// or `20802478`, with any surrounding white space); an error when the
    /// text holds none.
    pub fn new(pmid: &str) -> (r: Result<Self, String>)
        ensures
            match r {
                Ok(p) => extracted_pmid(pmid@) == Some(p.pmid_view()),
                Err(e) => extracted_pmid(pmid@) is None && e@ == "Could not extract PMID from "@
                    + pmid@,
            },
    {
        match Self::extract_pmid(pmid) {
            Some(num) => Ok(PubmedRetriever { numerical_pmid: num }),
            None => {
                let mut msg = String::from_str("Could not extract PMID from ");
                msg.append(pmid);
                Err(msg)
            },
        }
    }

    /// The numerical part of a PMID as typed by a user.
    pub fn extract_pmid(input: &str) -> (r: Option<String>)
        ensures
            match r {
                Some(v) => extracted_pmid(input@) == Some(v@),
                None => extracted_pmid(input@) is None,
            },
    {
        let upper = to_uppercase(input);
        proof {
            reveal_strlit("PMID:");
        }
        let without = remove_matches(upper.as_str(), "PMID:");
        let trimmed = trim(without.as_str());
        canonical_pmid_number(trimmed)
    }

    /// The numerical PMID, e.g. `20802478`.
    pub fn numerical_pmid(&self) -> (r: &str)
        ensures
            r@ == self.pmid_view(),
    {
        self.numerical_pmid.as_str()
    }
}

} // verus!
