//! Regular-expression matching, through the `regex` crate.
//!
//! What a pattern matches is the crate's business and is not restated here:
//! the two names below stand for what `Regex::captures` and
//! `Regex::captures_iter` return for a pattern and a text, and every parser
//! in `checks` is specified over them.

use vstd::prelude::*;

use crate::text::{chars_of, parse_u32, parse_u32_spec, string_of};

verus! {

/// The capture groups of the leftmost-first match of `pattern` in `text`, as
/// `regex::Regex::captures` reports them (group 0 is the whole match; a group
/// that did not take part is `None`), or `None` when nothing matches.
pub uninterp spec fn first_captures(pattern: Seq<char>, text: Seq<char>) -> Option<
    Seq<Option<Seq<char>>>,
>;

/// The capture groups of every successive non-overlapping match of `pattern`
/// in `text`, in order, as `regex::Regex::captures_iter` yields them.
pub uninterp spec fn all_captures(pattern: Seq<char>, text: Seq<char>) -> Seq<
    Seq<Option<Seq<char>>>,
>;

/// `regex::Regex::new` followed by `Regex::captures`: the groups of the first
/// match of `pattern` in `text`, each as an owned string. The contract claims
/// only that the result is the one `first_captures` names for these two
/// strings; what the pattern means is not restated.
#[verifier::external_body]
pub fn captures(pattern: &str, text: &str) -> (res: Option<Vec<Option<String>>>)
    ensures
        res.deep_view() == first_captures(pattern@, text@),
{
    let re = regex::Regex::new(pattern).ok()?;
    let found = re.captures(text)?;
    Some(found.iter().map(|m| m.map(|m| m.as_str().to_string())).collect())
}

/// `regex::Regex::new` followed by `Regex::captures_iter`, collected: the
/// groups of every match of `pattern` in `text`, in order. The contract claims
/// only that the result is the one `all_captures` names for these two strings.
#[verifier::external_body]
pub fn captures_all(pattern: &str, text: &str) -> (res: Vec<Vec<Option<String>>>)
    ensures
        res.deep_view() == all_captures(pattern@, text@),
{
    match regex::Regex::new(pattern) {
        Ok(re) => re.captures_iter(text).map(|c| {
            c.iter().map(|m| m.map(|m| m.as_str().to_string())).collect()
        }).collect(),
        Err(_) => Vec::new(),
    }
}

/// The first match's groups in a line held as characters.
pub fn line_captures(pattern: &str, line: &[char]) -> (res: Option<Vec<Option<String>>>)
    ensures
        res.deep_view() == first_captures(pattern@, line@),
{
    let s = string_of(line);
    captures(pattern, s.as_str())
}

/// Group `i` of a match, if it took part.
pub open spec fn group_at(c: Seq<Option<Seq<char>>>, i: int) -> Option<Seq<char>> {
    if 0 <= i < c.len() {
        c[i]
    } else {
        None
    }
}

/// The text of group `i`, empty when it did not take part.
pub open spec fn group_text(c: Seq<Option<Seq<char>>>, i: int) -> Seq<char> {
    match group_at(c, i) {
        Some(t) => t,
        None => Seq::empty(),
    }
}

/// A count read from text: `str::parse::<u32>`, or 0 when that fails.
pub open spec fn count_or_zero(t: Seq<char>) -> u32 {
    match parse_u32_spec(t) {
        Some(n) => n,
        None => 0,
    }
}

pub fn group(c: &Vec<Option<String>>, i: usize) -> (g: Option<String>)
    ensures
        g.deep_view() == group_at(c.deep_view(), i as int),
{
    if i < c.len() {
        match &c[i] {
            Some(s) => Some(s.clone()),
            None => None,
        }
    } else {
        None
    }
}

pub fn group_chars(c: &Vec<Option<String>>, i: usize) -> (t: Vec<char>)
    ensures
        t@ == group_text(c.deep_view(), i as int),
{
    match group(c, i) {
        Some(s) => chars_of(s.as_str()),
        None => Vec::new(),
    }
}

pub fn group_string(c: &Vec<Option<String>>, i: usize) -> (t: String)
    ensures
        t@ == group_text(c.deep_view(), i as int),
{
    match group(c, i) {
        Some(s) => s,
        None => String::new(),
    }
}

pub fn group_count(c: &Vec<Option<String>>, i: usize) -> (n: u32)
    ensures
        n == count_or_zero(group_text(c.deep_view(), i as int)),
{
    let t = group_chars(c, i);
    match parse_u32(t.as_slice()) {
        Some(n) => n,
        None => 0,
    }
}

pub fn group_number(c: &Vec<Option<String>>, i: usize) -> (n: Option<u32>)
    ensures
        n == parse_u32_spec(group_text(c.deep_view(), i as int)),
{
    let t = group_chars(c, i);
    parse_u32(t.as_slice())
}

} // verus!

verus! {

/// The plain sum of the counts in group 1 of the first `n` matches whose
/// group 2 (the word after the count) is one of `words`.
pub open spec fn count_where(
    caps: Seq<Seq<Option<Seq<char>>>>,
    n: int,
    words: Set<Seq<char>>,
) -> int
    decreases n,
{
    if n <= 0 {
        0
    } else {
        count_where(caps, n - 1, words) + if words.contains(group_text(caps[n - 1], 2)) {
            count_or_zero(group_text(caps[n - 1], 1)) as int
        } else {
            0
        }
    }
}

pub proof fn lemma_count_where_nonneg(caps: Seq<Seq<Option<Seq<char>>>>, n: int, words: Set<Seq<char>>)
    ensures
        count_where(caps, n, words) >= 0,
    decreases n,
{
    if n > 0 {
        lemma_count_where_nonneg(caps, n - 1, words);
    }
}

/// Adding to a running total kept modulo 2^32 with `wrapping_add` keeps it
/// the true total modulo 2^32.
pub proof fn lemma_wrapping_add_mod(t: int, a: u32, b: u32)
    requires
        t >= 0,
        a as int == t % 0x1_0000_0000,
    ensures
        vstd::wrapping::u32_specs::wrapping_add(a, b) as int == (t + b) % 0x1_0000_0000,
{
    vstd::arithmetic::div_mod::lemma_add_mod_noop(t, b as int, 0x1_0000_0000);
    vstd::arithmetic::div_mod::lemma_small_mod(b as nat, 0x1_0000_0000);
    let s = a + b;
    if s >= 0x1_0000_0000 {
        vstd::arithmetic::div_mod::lemma_mod_sub_multiples_vanish(s, 0x1_0000_0000);
        vstd::arithmetic::div_mod::lemma_small_mod((s - 0x1_0000_0000) as nat, 0x1_0000_0000);
        assert(-0x1_0000_0000 + s == s - 0x1_0000_0000);
    } else {
        vstd::arithmetic::div_mod::lemma_small_mod(s as nat, 0x1_0000_0000);
    }
}

} // verus!
