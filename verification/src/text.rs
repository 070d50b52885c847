//! Character-level text helpers shared by the parsers.
//!
//! Text is handled as a sequence of Unicode scalar values (`Seq<char>` in
//! specifications, `Vec<char>` or `&[char]` in code); a `String` is built once
//! at the end from the characters chosen.

use vstd::prelude::*;

verus! {

/// The characters of `s`, one element each.
pub fn chars_of(s: &str) -> (v: Vec<char>)
    ensures
        v@ == s@,
{
    broadcast use vstd::string::group_string_axioms;

    let mut v: Vec<char> = Vec::new();
    for c in it: s.chars()
        invariant
            v@ == it.seq().take(it.index() as int),
    {
        v.push(c);
    }
    v
}

/// `String::from_iter` over characters: the string made of exactly `cs`.
#[verifier::external_body]
pub fn string_of(cs: &[char]) -> (s: String)
    ensures
        s@ == cs@,
{
    cs.iter().collect()
}

/// The Unicode `White_Space` property, which `char::is_whitespace` tests.
pub open spec fn is_white(c: char) -> bool {
    let n = c as u32;
    ||| 0x9 <= n <= 0xd
    ||| n == 0x20
    ||| n == 0x85
    ||| n == 0xa0
    ||| n == 0x1680
    ||| 0x2000 <= n <= 0x200a
    ||| n == 0x2028
    ||| n == 0x2029
    ||| n == 0x202f
    ||| n == 0x205f
    ||| n == 0x3000
}

pub fn white(c: char) -> (b: bool)
    ensures
        b == is_white(c),
{
    let n = c as u32;
    (0x9 <= n && n <= 0xd) || n == 0x20 || n == 0x85 || n == 0xa0 || n == 0x1680 || (0x2000
        <= n && n <= 0x200a) || n == 0x2028 || n == 0x2029 || n == 0x202f || n == 0x205f || n
        == 0x3000
}

pub fn same_chars(a: &[char], b: &[char]) -> (r: bool)
    ensures
        r == (a@ == b@),
{
    if a.len() != b.len() {
        return false;
    }
    let mut i: usize = 0;
    while i < a.len()
        invariant
            a.len() == b.len(),
            i <= a.len(),
            forall|j: int| 0 <= j < i ==> a@[j] == b@[j],
        decreases a.len() - i,
    {
        if a[i] != b[i] {
            return false;
        }
        i += 1;
    }
    assert(a@ =~= b@);
    true
}

/// Whether `s` holds exactly the characters of `lit`.
pub fn is_text(s: &[char], lit: &str) -> (r: bool)
    ensures
        r == (s@ == lit@),
{
    let l = chars_of(lit);
    same_chars(s, l.as_slice())
}

/// Whether `s` begins with the characters of `lit`.
pub fn starts_with_text(s: &[char], lit: &str) -> (r: bool)
    ensures
        r == has_prefix(s@, lit@),
{
    let l = chars_of(lit);
    starts_with(s, l.as_slice())
}

/// Whether the characters of `lit` occur in `s`.
pub fn contains_text(s: &[char], lit: &str) -> (r: bool)
    ensures
        r == contains(s@, lit@),
{
    let l = chars_of(lit);
    contains_chars(s, l.as_slice())
}

pub fn clone_text(o: &Option<String>) -> (r: Option<String>)
    ensures
        r.deep_view() == o.deep_view(),
{
    match o {
        Some(s) => Some(s.clone()),
        None => None,
    }
}

/// Code-point order on texts, which is also the byte order of their UTF-8
/// encodings and so the order of `String`'s `Ord`.
pub open spec fn text_lt(a: Seq<char>, b: Seq<char>) -> bool
    decreases a.len(),
{
    if a.len() == 0 {
        b.len() > 0
    } else if b.len() == 0 {
        false
    } else if a[0] != b[0] {
        a[0] < b[0]
    } else {
        text_lt(a.drop_first(), b.drop_first())
    }
}

pub fn less_text(a: &[char], b: &[char]) -> (r: bool)
    ensures
        r == text_lt(a@, b@),
{
    let mut i: usize = 0;
    assert(a@.skip(0) =~= a@);
    assert(b@.skip(0) =~= b@);
    while i < a.len() && i < b.len() && a[i] == b[i]
        invariant
            i <= a.len(),
            i <= b.len(),
            text_lt(a@, b@) == text_lt(a@.skip(i as int), b@.skip(i as int)),
        decreases a.len() - i,
    {
        assert(a@.skip(i as int).drop_first() =~= a@.skip(i + 1));
        assert(b@.skip(i as int).drop_first() =~= b@.skip(i + 1));
        i += 1;
    }
    if i == a.len() {
        i < b.len()
    } else if i == b.len() {
        false
    } else {
        assert(a@.skip(i as int)[0] == a@[i as int]);
        assert(b@.skip(i as int)[0] == b@[i as int]);
        a[i] < b[i]
    }
}

/// `s` begins with `p`.
pub open spec fn has_prefix(s: Seq<char>, p: Seq<char>) -> bool {
    p.len() <= s.len() && s.subrange(0, p.len() as int) == p
}

/// `s` ends with `p`.
pub open spec fn has_suffix(s: Seq<char>, p: Seq<char>) -> bool {
    p.len() <= s.len() && s.subrange(s.len() - p.len(), s.len() as int) == p
}

/// `needle` occurs in `s` starting at `i`.
pub open spec fn occurs_at(s: Seq<char>, needle: Seq<char>, i: int) -> bool {
    0 <= i && i + needle.len() <= s.len() && s.subrange(i, i + needle.len()) == needle
}

/// `needle` occurs somewhere in `s` (the empty needle occurs everywhere).
pub open spec fn contains(s: Seq<char>, needle: Seq<char>) -> bool {
    exists|i: int| occurs_at(s, needle, i)
}

pub fn starts_with(s: &[char], p: &[char]) -> (b: bool)
    ensures
        b == has_prefix(s@, p@),
{
    if p.len() > s.len() {
        return false;
    }
    let mut i: usize = 0;
    while i < p.len()
        invariant
            p.len() <= s.len(),
            i <= p.len(),
            forall|j: int| 0 <= j < i ==> s@[j] == p@[j],
        decreases p.len() - i,
    {
        if s[i] != p[i] {
            assert(s@.subrange(0, p.len() as int)[i as int] != p@[i as int]);
            return false;
        }
        i += 1;
    }
    assert(s@.subrange(0, p.len() as int) =~= p@);
    true
}

pub fn ends_with(s: &[char], p: &[char]) -> (b: bool)
    ensures
        b == has_suffix(s@, p@),
{
    if p.len() > s.len() {
        return false;
    }
    let off = s.len() - p.len();
    let mut i: usize = 0;
    while i < p.len()
        invariant
            p.len() <= s.len(),
            off == s.len() - p.len(),
            i <= p.len(),
            forall|j: int| 0 <= j < i ==> s@[off + j] == p@[j],
        decreases p.len() - i,
    {
        if s[off + i] != p[i] {
            assert(s@.subrange(off as int, s.len() as int)[i as int] != p@[i as int]);
            return false;
        }
        i += 1;
    }
    assert(s@.subrange(off as int, s.len() as int) =~= p@);
    true
}

/// Whether `needle` occurs in `s` at position `at`.
pub fn matches_at(s: &[char], needle: &[char], at: usize) -> (b: bool)
    ensures
        b == occurs_at(s@, needle@, at as int),
{
    if at > s.len() || needle.len() > s.len() - at {
        return false;
    }
    let mut i: usize = 0;
    while i < needle.len()
        invariant
            at + needle.len() <= s.len(),
            i <= needle.len(),
            forall|j: int| 0 <= j < i ==> s@[at + j] == needle@[j],
        decreases needle.len() - i,
    {
        if s[at + i] != needle[i] {
            assert(s@.subrange(at as int, at + needle.len())[i as int] != needle@[i as int]);
            return false;
        }
        i += 1;
    }
    assert(s@.subrange(at as int, at + needle.len()) =~= needle@);
    true
}

/// The first position at which `needle` occurs in `s`, if any.
pub fn find(s: &[char], needle: &[char]) -> (r: Option<usize>)
    ensures
        r matches Some(i) ==> occurs_at(s@, needle@, i as int) && forall|j: int|
            0 <= j < i ==> !occurs_at(s@, needle@, j),
        r is None ==> !contains(s@, needle@),
{
    let mut i: usize = 0;
    while i < s.len()
        invariant
            i <= s.len(),
            forall|j: int| 0 <= j < i ==> !occurs_at(s@, needle@, j),
        decreases s.len() - i,
    {
        if matches_at(s, needle, i) {
            return Some(i);
        }
        i += 1;
    }
    if matches_at(s, needle, s.len()) {
        return Some(s.len());
    }
    assert forall|j: int| !occurs_at(s@, needle@, j) by {
        if 0 <= j <= s.len() {
        }
    }
    None
}

/// The position of the first occurrence of `needle` in `s` (meaningful when
/// it occurs).
pub open spec fn first_occurrence(s: Seq<char>, needle: Seq<char>) -> int {
    choose|i: int| occurs_at(s, needle, i) && forall|j: int| 0 <= j < i ==> !occurs_at(s, needle, j)
}

pub proof fn lemma_first_occurrence(s: Seq<char>, needle: Seq<char>, i: int)
    requires
        occurs_at(s, needle, i),
        forall|j: int| 0 <= j < i ==> !occurs_at(s, needle, j),
    ensures
        first_occurrence(s, needle) == i,
{
    let k = first_occurrence(s, needle);
    assert(occurs_at(s, needle, k) && forall|j: int| 0 <= j < k ==> !occurs_at(s, needle, j));
    if k < i {
        assert(!occurs_at(s, needle, k));
    }
    if k > i {
        assert(!occurs_at(s, needle, i));
    }
}

/// What follows the first `needle` in `s` (`str::split_once(needle).1`).
pub open spec fn after_first(s: Seq<char>, needle: Seq<char>) -> Option<Seq<char>> {
    if contains(s, needle) {
        Some(s.skip(first_occurrence(s, needle) + needle.len()))
    } else {
        None
    }
}

/// What precedes the first `needle` in `s`, or all of `s`
/// (`str::split(needle).next()`).
pub open spec fn before_first(s: Seq<char>, needle: Seq<char>) -> Seq<char> {
    if contains(s, needle) {
        s.take(first_occurrence(s, needle))
    } else {
        s
    }
}

pub fn after_first_text(s: &[char], needle: &str) -> (r: Option<Vec<char>>)
    ensures
        match r {
            Some(v) => after_first(s@, needle@) == Some(v@),
            None => after_first(s@, needle@) is None,
        },
{
    let n = chars_of(needle);
    match find(s, n.as_slice()) {
        Some(i) => {
            proof {
                lemma_first_occurrence(s@, needle@, i as int);
            }
            assert(occurs_at(s@, n@, i as int));
            let k = n.len();
            let sl = s.len();
            assert(i + k <= sl);
            Some(slice_from(s, i + k))
        },
        None => None,
    }
}

pub fn before_first_text(s: &[char], needle: &str) -> (r: Vec<char>)
    ensures
        r@ == before_first(s@, needle@),
{
    let n = chars_of(needle);
    match find(s, n.as_slice()) {
        Some(i) => {
            proof {
                lemma_first_occurrence(s@, needle@, i as int);
            }
            assert(s@.subrange(0, i as int) =~= s@.take(i as int));
            slice_range(s, 0, i)
        },
        None => {
            assert(s@.subrange(0, s.len() as int) =~= s@);
            slice_range(s, 0, s.len())
        },
    }
}

pub fn contains_chars(s: &[char], needle: &[char]) -> (b: bool)
    ensures
        b == contains(s@, needle@),
{
    find(s, needle).is_some()
}

/// `s` with leading White_Space removed (`str::trim_start`).
pub open spec fn trim_start(s: Seq<char>) -> Seq<char>
    decreases s.len(),
{
    if s.len() > 0 && is_white(s[0]) {
        trim_start(s.drop_first())
    } else {
        s
    }
}

/// `s` with trailing White_Space removed (`str::trim_end`).
pub open spec fn trim_end(s: Seq<char>) -> Seq<char>
    decreases s.len(),
{
    if s.len() > 0 && is_white(s.last()) {
        trim_end(s.drop_last())
    } else {
        s
    }
}

/// `str::trim`.
pub open spec fn trim(s: Seq<char>) -> Seq<char> {
    trim_end(trim_start(s))
}

/// The number of leading White_Space characters.
pub fn leading_white(s: &[char]) -> (n: usize)
    ensures
        n <= s.len(),
        trim_start(s@) == s@.skip(n as int),
{
    let mut i: usize = 0;
    assert(s@.skip(0) =~= s@);
    while i < s.len() && white(s[i])
        invariant
            i <= s.len(),
            trim_start(s@) == trim_start(s@.skip(i as int)),
        decreases s.len() - i,
    {
        assert(s@.skip(i as int).drop_first() =~= s@.skip(i + 1));
        i += 1;
    }
    assert(trim_start(s@.skip(i as int)) == s@.skip(i as int));
    i
}

/// The length of `s` without its trailing White_Space.
pub fn end_without_white(s: &[char]) -> (n: usize)
    ensures
        n <= s.len(),
        trim_end(s@) == s@.take(n as int),
{
    let mut n: usize = s.len();
    assert(s@.take(n as int) =~= s@);
    while n > 0 && white(s[n - 1])
        invariant
            n <= s.len(),
            trim_end(s@) == trim_end(s@.take(n as int)),
        decreases n,
    {
        assert(s@.take(n as int).drop_last() =~= s@.take(n - 1));
        n -= 1;
    }
    n
}

pub fn trim_chars(s: &[char]) -> (t: Vec<char>)
    ensures
        t@ == trim(s@),
{
    let a = leading_white(s);
    let rest = slice_from(s, a);
    let b = end_without_white(rest.as_slice());
    slice_range(rest.as_slice(), 0, b)
}

pub fn trim_start_chars(s: &[char]) -> (t: Vec<char>)
    ensures
        t@ == trim_start(s@),
{
    let a = leading_white(s);
    slice_from(s, a)
}

/// The characters `s[from..to]`.
pub fn slice_range(s: &[char], from: usize, to: usize) -> (t: Vec<char>)
    requires
        from <= to <= s.len(),
    ensures
        t@ == s@.subrange(from as int, to as int),
{
    let mut t: Vec<char> = Vec::new();
    let mut i = from;
    while i < to
        invariant
            from <= i <= to <= s.len(),
            t@ == s@.subrange(from as int, i as int),
        decreases to - i,
    {
        t.push(s[i]);
        i += 1;
        assert(t@ =~= s@.subrange(from as int, i as int));
    }
    t
}

/// The characters `s[from..]`.
pub fn slice_from(s: &[char], from: usize) -> (t: Vec<char>)
    requires
        from <= s.len(),
    ensures
        t@ == s@.skip(from as int),
{
    let t = slice_range(s, from, s.len());
    assert(t@ =~= s@.skip(from as int));
    t
}

/// The lines of `s`, as `str::lines` yields them: split after each `'\n'`,
/// the `'\n'` and one `'\r'` right before it removed, and no empty line after
/// a final `'\n'`.
pub open spec fn lines(s: Seq<char>) -> Seq<Seq<char>>
    decreases s.len(),
{
    if s.len() == 0 {
        seq![]
    } else {
        let k = newline_index(s);
        if k < 0 {
            seq![s]
        } else {
            proof {
                lemma_newline_index(s);
            }
            seq![strip_cr(s.take(k))] + lines(s.skip(k + 1))
        }
    }
}

/// The index of the first `'\n'` in `s`, or -1.
pub open spec fn newline_index(s: Seq<char>) -> int
    decreases s.len(),
{
    if s.len() == 0 {
        -1
    } else if s[0] == '\n' {
        0
    } else {
        let k = newline_index(s.drop_first());
        if k < 0 {
            -1
        } else {
            k + 1
        }
    }
}

/// `s` without one trailing `'\r'`.
pub open spec fn strip_cr(s: Seq<char>) -> Seq<char> {
    if s.len() > 0 && s.last() == '\r' {
        s.drop_last()
    } else {
        s
    }
}

pub proof fn lemma_newline_index(s: Seq<char>)
    ensures
        -1 <= newline_index(s) < s.len(),
        newline_index(s) >= 0 ==> s[newline_index(s)] == '\n',
        forall|j: int|
            0 <= j < (if newline_index(s) < 0 {
                s.len() as int
            } else {
                newline_index(s)
            }) ==> s[j] != '\n',
    decreases s.len(),
{
    if s.len() > 0 && s[0] != '\n' {
        lemma_newline_index(s.drop_first());
        let k = newline_index(s.drop_first());
        assert forall|j: int|
            0 <= j < (if newline_index(s) < 0 {
                s.len() as int
            } else {
                newline_index(s)
            }) implies s[j] != '\n' by {
            if j > 0 {
                assert(s[j] == s.drop_first()[j - 1]);
            }
        }
    }
}

/// A first '\n' found by scanning from `start` is the one `newline_index` names.
pub proof fn lemma_newline_index_is(s: Seq<char>, k: int)
    requires
        0 <= k <= s.len(),
        forall|j: int| 0 <= j < k ==> s[j] != '\n',
        k == s.len() || s[k] == '\n',
    ensures
        newline_index(s) == (if k == s.len() {
            -1
        } else {
            k
        }),
    decreases s.len(),
{
    if s.len() > 0 && k > 0 {
        assert forall|j: int| 0 <= j < k - 1 implies s.drop_first()[j] != '\n' by {
            assert(s.drop_first()[j] == s[j + 1]);
        }
        lemma_newline_index_is(s.drop_first(), k - 1);
    }
}

/// The views of a sequence of character vectors.
pub open spec fn views(v: Seq<Vec<char>>) -> Seq<Seq<char>> {
    v.map_values(|l: Vec<char>| l@)
}

pub fn lines_of(s: &[char]) -> (out: Vec<Vec<char>>)
    ensures
        views(out@) == lines(s@),
{
    let mut out: Vec<Vec<char>> = Vec::new();
    let mut start: usize = 0;
    proof {
        assert(s@.skip(0) =~= s@);
    }
    while start < s.len()
        invariant
            start <= s.len(),
            lines(s@) == views(out@) + lines(s@.skip(start as int)),
        decreases s.len() - start,
    {
        let ghost rest = s@.skip(start as int);
        let mut k = start;
        while k < s.len() && s[k] != '\n'
            invariant
                start <= k <= s.len(),
                forall|j: int| start <= j < k ==> s@[j] != '\n',
            decreases s.len() - k,
        {
            k += 1;
        }
        proof {
            lemma_newline_index_is(rest, k - start);
        }
        let mut end = k;
        if k < s.len() && end > start && s[end - 1] == '\r' {
            end -= 1;
        }
        let line = slice_range(s, start, end);
        proof {
            assert(rest.take(k - start) =~= s@.subrange(start as int, k as int));
            if k < s.len() {
                assert(line@ == strip_cr(rest.take(k - start))) by {
                    if k > start && s@[k - 1] == '\r' {
                        assert(rest.take(k - start).drop_last() =~= s@.subrange(
                            start as int,
                            k - 1,
                        ));
                    }
                }
            } else {
                assert(line@ =~= rest);
            }
        }
        let ghost before = out@;
        out.push(line);
        assert(views(out@) =~= views(before).push(line@));
        if k == s.len() {
            proof {
                assert(lines(rest) == seq![rest]);
                assert(rest.take(k - start) =~= rest);
                assert(s@.skip(k as int) =~= Seq::<char>::empty());
                assert(lines(s@.skip(k as int)) =~= Seq::<Seq<char>>::empty());
            }
            start = k;
        } else {
            proof {
                assert(rest.skip(k - start + 1) =~= s@.skip(k + 1));
                assert(lines(rest) == seq![strip_cr(rest.take(k - start))] + lines(
                    s@.skip(k + 1),
                ));
            }
            start = k + 1;
        }
        assert(lines(s@) =~= views(out@) + lines(s@.skip(start as int)));
    }
    proof {
        assert(s@.skip(start as int) =~= Seq::<char>::empty());
        assert(views(out@) + lines(s@.skip(start as int)) =~= views(out@));
    }
    out
}

pub open spec fn is_ascii_digit(c: char) -> bool {
    '0' <= c <= '9'
}

/// The value of a string of ASCII digits.
pub open spec fn digits_value(s: Seq<char>) -> nat
    decreases s.len(),
{
    if s.len() == 0 {
        0
    } else {
        digits_value(s.drop_last()) * 10 + ((s.last() as u32) - ('0' as u32)) as nat
    }
}

pub open spec fn all_digits(s: Seq<char>) -> bool {
    forall|i: int| 0 <= i < s.len() ==> is_ascii_digit(#[trigger] s[i])
}

/// The digits `u32::from_str` reads: those after one optional leading `'+'`.
pub open spec fn unsigned_digits(s: Seq<char>) -> Seq<char> {
    if s.len() > 0 && s[0] == '+' {
        s.drop_first()
    } else {
        s
    }
}

/// What `str::parse::<u32>` gives: `Some` exactly for an optional `'+'` and
/// then one or more ASCII digits whose value fits.
pub open spec fn parse_u32_spec(s: Seq<char>) -> Option<u32> {
    let d = unsigned_digits(s);
    if d.len() > 0 && all_digits(d) && digits_value(d) <= u32::MAX {
        Some(digits_value(d) as u32)
    } else {
        None
    }
}

pub fn parse_u32(s: &[char]) -> (r: Option<u32>)
    ensures
        r == parse_u32_spec(s@),
{
    let mut i: usize = 0;
    if s.len() > 0 && s[0] == '+' {
        i = 1;
    }
    let ghost d = unsigned_digits(s@);
    assert(d =~= s@.skip(i as int));
    if i >= s.len() {
        return None;
    }
    let mut value: u64 = 0;
    let start = i;
    while i < s.len()
        invariant
            start <= i <= s.len(),
            start < s.len(),
            d == unsigned_digits(s@),
            d == s@.skip(start as int),
            all_digits(s@.subrange(start as int, i as int)),
            value == digits_value(s@.subrange(start as int, i as int)),
            value <= u32::MAX,
        decreases s.len() - i,
    {
        let c = s[i];
        if !('0' <= c && c <= '9') {
            assert(d[i - start] == s@[i as int]);
            assert(!is_ascii_digit(d[i - start]));
            return None;
        }
        let digit = (c as u32 - '0' as u32) as u64;
        proof {
            let pre = s@.subrange(start as int, i as int);
            let next = s@.subrange(start as int, i + 1);
            assert(next.drop_last() =~= pre);
            assert(next.last() == c);
        }
        if value > (u32::MAX as u64 - digit) / 10 {
            proof {
                let next = s@.subrange(start as int, i + 1);
                assert(digits_value(next) == value * 10 + digit);
                lemma_digits_value_monotone(d, (i + 1 - start) as int);
                assert(next =~= d.take((i + 1 - start) as int));
                assert(value * 10 + digit > u32::MAX) by (nonlinear_arith)
                    requires
                        value > (u32::MAX as u64 - digit) / 10,
                        digit <= 9,
                ;
            }
            return None;
        }
        value = value * 10 + digit;
        i += 1;
    }
    assert(s@.subrange(start as int, s.len() as int) =~= d);
    Some(value as u32)
}

/// A longer run of digits is worth at least as much as any of its prefixes.
pub proof fn lemma_digits_value_monotone(s: Seq<char>, n: int)
    requires
        0 <= n <= s.len(),
    ensures
        digits_value(s.take(n)) <= digits_value(s),
    decreases s.len(),
{
    if n < s.len() {
        assert(s.drop_last().take(n) =~= s.take(n));
        lemma_digits_value_monotone(s.drop_last(), n);
    } else {
        assert(s.take(n) =~= s);
    }
}

/// The decimal digits of `n`, as `to_string` writes an unsigned integer.
pub open spec fn decimal(n: nat) -> Seq<char>
    decreases n,
{
    if n < 10 {
        seq![digit_char(n)]
    } else {
        decimal(n / 10).push(digit_char(n % 10))
    }
}

pub open spec fn digit_char(d: nat) -> char {
    if d == 0 {
        '0'
    } else if d == 1 {
        '1'
    } else if d == 2 {
        '2'
    } else if d == 3 {
        '3'
    } else if d == 4 {
        '4'
    } else if d == 5 {
        '5'
    } else if d == 6 {
        '6'
    } else if d == 7 {
        '7'
    } else if d == 8 {
        '8'
    } else {
        '9'
    }
}

pub fn digit_of(d: u64) -> (c: char)
    requires
        d < 10,
    ensures
        c == digit_char(d as nat),
{
    if d == 0 {
        '0'
    } else if d == 1 {
        '1'
    } else if d == 2 {
        '2'
    } else if d == 3 {
        '3'
    } else if d == 4 {
        '4'
    } else if d == 5 {
        '5'
    } else if d == 6 {
        '6'
    } else if d == 7 {
        '7'
    } else if d == 8 {
        '8'
    } else {
        '9'
    }
}

/// `n` written in decimal.
pub fn decimal_text(n: u64) -> (s: Vec<char>)
    ensures
        s@ == decimal(n as nat),
    decreases n,
{
    if n < 10 {
        let mut v = Vec::new();
        v.push(digit_of(n));
        v
    } else {
        let mut v = decimal_text(n / 10);
        v.push(digit_of(n % 10));
        v
    }
}

/// `str::split(sep)` for a one-character separator: the pieces between
/// separators, with an empty piece before a leading, after a trailing and
/// between two adjacent separators.
pub open spec fn split_on(s: Seq<char>, sep: char) -> Seq<Seq<char>>
    decreases s.len(),
{
    if s.len() == 0 {
        seq![Seq::empty()]
    } else {
        let p = split_on(s.drop_last(), sep);
        if s.last() == sep {
            p.push(Seq::empty())
        } else {
            p.update(p.len() - 1, p.last().push(s.last()))
        }
    }
}

pub fn split_chars(s: &[char], sep: char) -> (out: Vec<Vec<char>>)
    ensures
        views(out@) == split_on(s@, sep),
{
    let mut out: Vec<Vec<char>> = Vec::new();
    let mut cur: Vec<char> = Vec::new();
    let mut i: usize = 0;
    assert(s@.take(0) =~= Seq::<char>::empty());
    assert(views(out@).push(cur@) =~= split_on(s@.take(0), sep));
    while i < s.len()
        invariant
            i <= s.len(),
            views(out@).push(cur@) == split_on(s@.take(i as int), sep),
        decreases s.len() - i,
    {
        let ghost before = views(out@);
        let ghost cur_before = cur@;
        assert(s@.take(i + 1).drop_last() =~= s@.take(i as int));
        assert(s@.take(i + 1).last() == s@[i as int]);
        if s[i] == sep {
            out.push(cur);
            cur = Vec::new();
            assert(views(out@) =~= before.push(cur_before));
            assert(views(out@).push(cur@) =~= split_on(s@.take(i + 1), sep));
        } else {
            cur.push(s[i]);
            assert(views(out@) =~= before);
            assert(views(out@).push(cur@) =~= split_on(s@.take(i + 1), sep));
        }
        i += 1;
    }
    let ghost before = views(out@);
    out.push(cur);
    assert(s@.take(s.len() as int) =~= s@);
    assert(views(out@) =~= before.push(cur@));
    out
}

/// What `str::parse::<u8>` gives.
pub open spec fn parse_u8_spec(t: Seq<char>) -> Option<u8> {
    match parse_u32_spec(t) {
        Some(v) => if v <= 255 {
            Some(v as u8)
        } else {
            None
        },
        None => None,
    }
}

pub fn parse_u8(t: &[char]) -> (r: Option<u8>)
    ensures
        r == parse_u8_spec(t@),
{
    match parse_u32(t) {
        Some(v) => if v <= 255 {
            Some(v as u8)
        } else {
            None
        },
        None => None,
    }
}

/// What `str::parse::<i32>` gives: an optional `'+'` or `'-'` and then one
/// or more ASCII digits whose signed value fits.
pub open spec fn parse_i32_spec(t: Seq<char>) -> Option<i32> {
    if t.len() > 0 && t[0] == '-' {
        let d = t.drop_first();
        if d.len() > 0 && all_digits(d) && digits_value(d) <= 0x8000_0000 {
            Some((0 - digits_value(d)) as i32)
        } else {
            None
        }
    } else {
        match parse_u32_spec(t) {
            Some(v) => if v <= 0x7fff_ffff {
                Some(v as i32)
            } else {
                None
            },
            None => None,
        }
    }
}

pub fn parse_i32(t: &[char]) -> (r: Option<i32>)
    ensures
        r == parse_i32_spec(t@),
{
    if t.len() > 0 && t[0] == '-' {
        let d = slice_from(t, 1);
        assert(d@ =~= t@.drop_first());
        if d.len() == 0 || d[0] == '+' {
            proof {
                if d.len() > 0 {
                    assert(!is_ascii_digit(d@[0]));
                }
            }
            return None;
        }
        assert(unsigned_digits(d@) == d@);
        match parse_u32(d.as_slice()) {
            Some(v) => if v <= 0x8000_0000 {
                Some((0i64 - v as i64) as i32)
            } else {
                None
            },
            None => None,
        }
    } else {
        match parse_u32(t) {
            Some(v) => if v <= 0x7fff_ffff {
                Some(v as i32)
            } else {
                None
            },
            None => None,
        }
    }
}

/// The lower-case form of a text under Unicode's mapping, as
/// `str::to_lowercase` gives it.
pub uninterp spec fn lowercase(s: Seq<char>) -> Seq<char>;

/// `str::to_lowercase`: the result is `lowercase` of the text; what that
/// is, character by character, is Unicode's table and is not written out.
#[verifier::external_body]
pub fn to_lowercase(s: &str) -> (r: String)
    ensures
        r@ == lowercase(s@),
{
    s.to_lowercase()
}

/// `text_lt` is a strict order.
pub proof fn lemma_text_lt_irreflexive(a: Seq<char>)
    ensures
        !text_lt(a, a),
    decreases a.len(),
{
    if a.len() > 0 {
        lemma_text_lt_irreflexive(a.drop_first());
    }
}

pub proof fn lemma_text_lt_transitive(a: Seq<char>, b: Seq<char>, c: Seq<char>)
    requires
        text_lt(a, b),
        text_lt(b, c),
    ensures
        text_lt(a, c),
    decreases a.len(),
{
    if a.len() > 0 && b.len() > 0 && c.len() > 0 && a[0] == b[0] && b[0] == c[0] {
        lemma_text_lt_transitive(a.drop_first(), b.drop_first(), c.drop_first());
    }
}

/// Of two different texts, one comes first.
pub proof fn lemma_text_lt_total(a: Seq<char>, b: Seq<char>)
    ensures
        a == b || text_lt(a, b) || text_lt(b, a),
    decreases a.len(),
{
    if a.len() > 0 && b.len() > 0 && a[0] == b[0] {
        lemma_text_lt_total(a.drop_first(), b.drop_first());
        if a.drop_first() == b.drop_first() {
            assert forall|i: int| 0 <= i < a.len() implies a[i] == b[i] by {
                if i > 0 {
                    assert(a[i] == a.drop_first()[i - 1]);
                    assert(b[i] == b.drop_first()[i - 1]);
                }
            }
            assert(a =~= b);
        }
    } else if a.len() == 0 && b.len() == 0 {
        assert(a =~= b);
    }
}

/// The texts of a list of strings.
pub open spec fn texts(v: Seq<String>) -> Seq<Seq<char>> {
    Seq::new(v.len(), |i: int| v[i]@)
}

/// Each text comes before the next, so none occurs twice.
pub open spec fn strictly_sorted(s: Seq<Seq<char>>) -> bool {
    forall|i: int, j: int| 0 <= i < j < s.len() ==> text_lt(#[trigger] s[i], #[trigger] s[j])
}

/// Put `x` into a list kept in order and without repeats, unless it is
/// there already.
pub fn insert_sorted(v: &mut Vec<String>, x: String)
    requires
        strictly_sorted(texts(old(v)@)),
    ensures
        strictly_sorted(texts(final(v)@)),
        forall|y: Seq<char>| texts(final(v)@).contains(y) <==> (texts(old(v)@).contains(y) || y == x@),
{
    let ghost old_t = texts(v@);
    let k = chars_of(x.as_str());
    let mut p: usize = 0;
    while p < v.len()
        invariant
            p <= v.len(),
            k@ == x@,
            old_t == texts(v@),
            forall|j: int| 0 <= j < p ==> text_lt(#[trigger] old_t[j], x@),
        ensures
            p <= v.len(),
            forall|j: int| 0 <= j < p ==> text_lt(#[trigger] old_t[j], x@),
            p < v.len() ==> !text_lt(old_t[p as int], x@),
        decreases v.len() - p,
    {
        let name = chars_of(v[p].as_str());
        if !less_text(name.as_slice(), k.as_slice()) {
            break;
        }
        p += 1;
    }
    if p < v.len() {
        let name = chars_of(v[p].as_str());
        if same_chars(name.as_slice(), k.as_slice()) {
            assert(old_t[p as int] == x@);
            assert(old_t.contains(x@));
            return;
        }
        proof {
            lemma_text_lt_total(old_t[p as int], x@);
        }
    }
    assert(p < v.len() ==> text_lt(x@, old_t[p as int]));
    let ghost xv = x@;
    v.insert(p, x);
    let ghost new_t = texts(v@);
    assert(new_t =~= old_t.insert(p as int, xv));
    assert forall|i: int, j: int| 0 <= i < j < new_t.len() implies text_lt(
        #[trigger] new_t[i],
        #[trigger] new_t[j],
    ) by {
        if j < p {
        } else if i < p && j == p {
        } else if i < p && j > p {
            if j - 1 > p {
                assert(text_lt(old_t[p as int], old_t[j - 1]));
                lemma_text_lt_transitive(xv, old_t[p as int], old_t[j - 1]);
            }
            lemma_text_lt_transitive(old_t[i], xv, old_t[j - 1]);
        } else if i == p {
            if j - 1 > p {
                assert(text_lt(old_t[p as int], old_t[j - 1]));
                lemma_text_lt_transitive(xv, old_t[p as int], old_t[j - 1]);
            }
        } else {
            assert(text_lt(old_t[i - 1], old_t[j - 1]));
        }
    }
    assert forall|y: Seq<char>| new_t.contains(y) <==> (old_t.contains(y) || y == xv) by {
        if new_t.contains(y) {
            let i = choose|i: int| 0 <= i < new_t.len() && new_t[i] == y;
            if i < p {
                assert(old_t[i] == y);
            } else if i > p {
                assert(old_t[i - 1] == y);
            }
        }
        if old_t.contains(y) {
            let i = choose|i: int| 0 <= i < old_t.len() && old_t[i] == y;
            if i < p {
                assert(new_t[i] == y);
            } else {
                assert(new_t[i + 1] == y);
            }
        }
        if y == xv {
            assert(new_t[p as int] == y);
        }
    }
}

} // verus!

verus! {

proof fn lemma_trim_start_front(s: Seq<char>)
    ensures
        trim_start(s).len() > 0 ==> !is_white(trim_start(s)[0]),
    decreases s.len(),
{
    if s.len() > 0 && is_white(s[0]) {
        lemma_trim_start_front(s.drop_first());
    }
}

proof fn lemma_trim_end_prefix(s: Seq<char>)
    ensures
        trim_end(s) == s.take(trim_end(s).len() as int),
        trim_end(s).len() <= s.len(),
        trim_end(s).len() > 0 ==> !is_white(trim_end(s).last()),
    decreases s.len(),
{
    if s.len() > 0 && is_white(s.last()) {
        lemma_trim_end_prefix(s.drop_last());
        let t = trim_end(s.drop_last());
        assert(s.drop_last().take(t.len() as int) =~= s.take(t.len() as int));
    } else {
        assert(s.take(s.len() as int) =~= s);
    }
}

/// Trimming twice is trimming once.
pub proof fn lemma_trim_idempotent(s: Seq<char>)
    ensures
        trim(trim(s)) == trim(s),
{
    let u = trim_start(s);
    let t = trim_end(u);
    lemma_trim_start_front(s);
    lemma_trim_end_prefix(u);
    if t.len() > 0 {
        assert(t[0] == u[0]);
    }
    assert(trim_start(t) == t);
}

} // verus!
