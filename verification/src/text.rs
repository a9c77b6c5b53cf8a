//! Character-sequence helpers shared by every module: conversion between `str`
//! and `Vec<char>`, searching, trimming, escaping and splicing. Each helper is
//! specified over `Seq<char>`.
use vstd::prelude::*;

verus! {

/// The characters of `s`, in order.
pub fn chars_of(s: &str) -> (v: Vec<char>)
    ensures
        v@ == s@,
{
    broadcast use vstd::string::axiom_spec_iter;

    let mut v: Vec<char> = Vec::new();
    for c in it: s.chars()
        invariant
            it.seq() == s@,
            v@ == it.seq().take(it.index()),
    {
        assert(v@.push(c) =~= it.seq().take(it.index() + 1));
        v.push(c);
    }
    assert(v@ =~= s@);
    v
}

/// Append `c` to `s`. Wraps `String::push`.
#[verifier::external_body]
fn push_char(s: &mut String, c: char)
    ensures
        final(s)@ == old(s)@.push(c),
{
    s.push(c);
}

/// A `String` holding exactly the characters of `v`.
pub fn string_of(v: &Vec<char>) -> (s: String)
    ensures
        s@ == v@,
{
    let mut s = String::new();
    let mut i: usize = 0;
    while i < v.len()
        invariant
            i <= v.len(),
            s@ == v@.take(i as int),
        decreases v.len() - i,
    {
        push_char(&mut s, v[i]);
        i = i + 1;
        assert(s@ =~= v@.take(i as int));
    }
    assert(v@.take(i as int) =~= v@);
    s
}

/// The characters of a `String`.
pub fn chars_of_string(s: &String) -> (v: Vec<char>)
    ensures
        v@ == s@,
{
    chars_of(s.as_str())
}

// ---- specifications ------------------------------------------------------

/// Rust's `char::is_whitespace`: the Unicode `White_Space` property.
pub open spec fn is_ws(c: char) -> bool {
    ||| c == '\t' || c == '\n' || c == '\u{0B}' || c == '\u{0C}' || c == '\r' || c == ' '
    ||| c == '\u{85}' || c == '\u{A0}' || c == '\u{1680}'
    ||| ('\u{2000}' <= c && c <= '\u{200A}')
    ||| c == '\u{2028}' || c == '\u{2029}' || c == '\u{202F}' || c == '\u{205F}' || c == '\u{3000}'
}

/// `s.trim().is_empty()`: every character is whitespace.
pub open spec fn all_ws(s: Seq<char>) -> bool {
    forall|i: int| 0 <= i < s.len() ==> is_ws(#[trigger] s[i])
}

/// Length of `s.trim_end()`.
pub open spec fn trim_end_len(s: Seq<char>) -> nat
    decreases s.len(),
{
    if s.len() > 0 && is_ws(s.last()) {
        trim_end_len(s.drop_last())
    } else {
        s.len()
    }
}

/// Number of characters `s.trim_start()` drops.
pub open spec fn trim_start_len(s: Seq<char>) -> nat
    decreases s.len(),
{
    if s.len() > 0 && is_ws(s[0]) {
        1 + trim_start_len(s.drop_first())
    } else {
        0
    }
}

/// `s.trim_end()`.
pub open spec fn trim_end(s: Seq<char>) -> Seq<char> {
    s.take(trim_end_len(s) as int)
}

/// `s.trim()`.
pub open spec fn trim(s: Seq<char>) -> Seq<char> {
    let t = trim_end(s);
    t.skip(trim_start_len(t) as int)
}

/// `p` occurs in `t` starting at position `i`.
pub open spec fn match_at(t: Seq<char>, p: Seq<char>, i: int) -> bool {
    0 <= i && i + p.len() <= t.len() && t.subrange(i, i + p.len()) == p
}

/// The first occurrence of `p` in `t` at or after `i`.
pub open spec fn find_from(t: Seq<char>, p: Seq<char>, i: int) -> Option<int>
    decreases t.len() + 1 - i,
{
    if i < 0 || i + p.len() > t.len() {
        None
    } else if match_at(t, p, i) {
        Some(i)
    } else {
        find_from(t, p, i + 1)
    }
}

/// `t.find(p)`.
pub open spec fn find_seq(t: Seq<char>, p: Seq<char>) -> Option<int> {
    find_from(t, p, 0)
}

/// The last occurrence of `p` in `t` starting at or before `i`.
pub open spec fn rfind_below(t: Seq<char>, p: Seq<char>, i: int) -> Option<int>
    decreases i + 1,
{
    if i < 0 {
        None
    } else if match_at(t, p, i) {
        Some(i)
    } else {
        rfind_below(t, p, i - 1)
    }
}

/// `t.rfind(p)`.
pub open spec fn rfind_seq(t: Seq<char>, p: Seq<char>) -> Option<int> {
    rfind_below(t, p, t.len() - p.len())
}

/// `t.starts_with(p)`.
pub open spec fn has_prefix(t: Seq<char>, p: Seq<char>) -> bool {
    p.len() <= t.len() && t.take(p.len() as int) == p
}

/// `t.ends_with(p)`.
pub open spec fn has_suffix(t: Seq<char>, p: Seq<char>) -> bool {
    p.len() <= t.len() && t.skip(t.len() - p.len()) == p
}

/// Replace `s[a..b]` by `r`.
pub open spec fn splice(s: Seq<char>, a: int, b: int, r: Seq<char>) -> Seq<char> {
    s.take(a) + r + s.skip(b)
}

/// XML attribute escaping of one character (`&`, `<`, `>`, `"`).
pub open spec fn escape_char(c: char) -> Seq<char> {
    if c == '&' {
        seq!['&', 'a', 'm', 'p', ';']
    } else if c == '<' {
        seq!['&', 'l', 't', ';']
    } else if c == '>' {
        seq!['&', 'g', 't', ';']
    } else if c == '"' {
        seq!['&', 'q', 'u', 'o', 't', ';']
    } else {
        seq![c]
    }
}

/// `xml_escape(s)`: each character escaped in turn.
pub open spec fn escape(s: Seq<char>) -> Seq<char>
    decreases s.len(),
{
    if s.len() == 0 {
        Seq::empty()
    } else {
        escape(s.drop_last()) + escape_char(s.last())
    }
}

/// Number of occurrences of `c` in `s`.
pub open spec fn count_char(s: Seq<char>, c: char) -> nat
    decreases s.len(),
{
    if s.len() == 0 {
        0
    } else {
        count_char(s.drop_last(), c) + if s.last() == c { 1nat } else { 0nat }
    }
}

/// `s` repeated `n` times.
pub open spec fn repeat(s: Seq<char>, n: nat) -> Seq<char>
    decreases n,
{
    if n == 0 {
        Seq::empty()
    } else {
        repeat(s, (n - 1) as nat) + s
    }
}

// ---- executable helpers ---------------------------------------------------

pub fn is_ws_exec(c: char) -> (b: bool)
    ensures
        b == is_ws(c),
{
    c == '\t' || c == '\n' || c == '\u{0B}' || c == '\u{0C}' || c == '\r' || c == ' ' || c
        == '\u{85}' || c == '\u{A0}' || c == '\u{1680}' || ('\u{2000}' <= c && c <= '\u{200A}')
        || c == '\u{2028}' || c == '\u{2029}' || c == '\u{202F}' || c == '\u{205F}' || c
        == '\u{3000}'
}

/// `s.trim().is_empty()`.
pub fn is_blank(s: &Vec<char>) -> (b: bool)
    ensures
        b == all_ws(s@),
{
    let mut i: usize = 0;
    while i < s.len()
        invariant
            i <= s.len(),
            forall|j: int| 0 <= j < i ==> is_ws(#[trigger] s@[j]),
        decreases s.len() - i,
    {
        if !is_ws_exec(s[i]) {
            return false;
        }
        i = i + 1;
    }
    true
}

/// `a == b`.
pub fn seq_eq(a: &Vec<char>, b: &Vec<char>) -> (r: bool)
    ensures
        r == (a@ == b@),
{
    if a.len() != b.len() {
        return false;
    }
    let mut i: usize = 0;
    while i < a.len()
        invariant
            a.len() == b.len(),
            i <= a.len(),
            forall|j: int| 0 <= j < i ==> a@[j] == b@[j],
        decreases a.len() - i,
    {
        if a[i] != b[i] {
            return false;
        }
        i = i + 1;
    }
    assert(a@ =~= b@);
    true
}

/// `a == lit`.
pub fn eq_str(a: &Vec<char>, lit: &str) -> (r: bool)
    ensures
        r == (a@ == lit@),
{
    let b = chars_of(lit);
    seq_eq(a, &b)
}

/// Whether `p` occurs in `t` at `i`.
pub fn match_at_exec(t: &Vec<char>, p: &Vec<char>, i: usize) -> (r: bool)
    ensures
        r == match_at(t@, p@, i as int),
{
    if i > t.len() || p.len() > t.len() - i {
        return false;
    }
    let mut k: usize = 0;
    while k < p.len()
        invariant
            i + p.len() <= t.len(),
            k <= p.len(),
            forall|j: int| 0 <= j < k ==> t@[i + j] == p@[j],
        decreases p.len() - k,
    {
        if t[i + k] != p[k] {
            assert(t@.subrange(i as int, i + p.len())[k as int] != p@[k as int]);
            return false;
        }
        k = k + 1;
    }
    assert(t@.subrange(i as int, i + p.len()) =~= p@);
    true
}

/// `t.starts_with(p)`.
pub fn starts_with(t: &Vec<char>, p: &Vec<char>) -> (r: bool)
    ensures
        r == has_prefix(t@, p@),
{
    let r = match_at_exec(t, p, 0);
    proof {
        assert(t@.subrange(0, p@.len() as int) == t@.take(p@.len() as int));
    }
    r
}

/// `t.starts_with(lit)`.
pub fn starts_with_str(t: &Vec<char>, lit: &str) -> (r: bool)
    ensures
        r == has_prefix(t@, lit@),
{
    let p = chars_of(lit);
    starts_with(t, &p)
}

/// `t.ends_with(p)`.
pub fn ends_with(t: &Vec<char>, p: &Vec<char>) -> (r: bool)
    ensures
        r == has_suffix(t@, p@),
{
    if p.len() > t.len() {
        return false;
    }
    let r = match_at_exec(t, p, t.len() - p.len());
    proof {
        assert(t@.subrange(t@.len() - p@.len(), t@.len() as int) == t@.skip(t@.len() - p@.len()));
    }
    r
}

/// `t.ends_with(lit)`.
pub fn ends_with_str(t: &Vec<char>, lit: &str) -> (r: bool)
    ensures
        r == has_suffix(t@, lit@),
{
    let p = chars_of(lit);
    ends_with(t, &p)
}

/// `t.find(p)`.
pub fn find_exec(t: &Vec<char>, p: &Vec<char>) -> (r: Option<usize>)
    ensures
        r matches Some(i) ==> find_seq(t@, p@) == Some(i as int),
        r is None ==> find_seq(t@, p@) is None,
{
    if p.len() > t.len() {
        return None;
    }
    let n: usize = t.len() - p.len();
    let mut i: usize = 0;
    loop
        invariant
            p.len() <= t.len(),
            n == t.len() - p.len(),
            i <= n,
            find_seq(t@, p@) == find_from(t@, p@, i as int),
        decreases n - i,
    {
        if match_at_exec(t, p, i) {
            return Some(i);
        }
        if i == n {
            assert(find_from(t@, p@, i + 1) is None);
            return None;
        }
        i = i + 1;
    }
}

/// `t.rfind(p)`.
pub fn rfind_exec(t: &Vec<char>, p: &Vec<char>) -> (r: Option<usize>)
    ensures
        r matches Some(i) ==> rfind_seq(t@, p@) == Some(i as int),
        r is None ==> rfind_seq(t@, p@) is None,
{
    if p.len() > t.len() {
        return None;
    }
    let mut i: usize = t.len() - p.len();
    loop
        invariant
            p.len() <= t.len(),
            i <= t.len() - p.len(),
            rfind_seq(t@, p@) == rfind_below(t@, p@, i as int),
        decreases i,
    {
        if match_at_exec(t, p, i) {
            return Some(i);
        }
        if i == 0 {
            assert(rfind_below(t@, p@, -1) is None);
            return None;
        }
        i = i - 1;
    }
}

/// `t.rfind(c)` for a single character.
pub fn rfind_char(t: &Vec<char>, c: char) -> (r: Option<usize>)
    ensures
        r matches Some(i) ==> rfind_seq(t@, seq![c]) == Some(i as int),
        r is None ==> rfind_seq(t@, seq![c]) is None,
{
    let mut p: Vec<char> = Vec::new();
    p.push(c);
    assert(p@ =~= seq![c]);
    rfind_exec(t, &p)
}

/// `t.find(c)` for a single character.
pub fn find_char(t: &Vec<char>, c: char) -> (r: Option<usize>)
    ensures
        r matches Some(i) ==> find_seq(t@, seq![c]) == Some(i as int),
        r is None ==> find_seq(t@, seq![c]) is None,
{
    let mut p: Vec<char> = Vec::new();
    p.push(c);
    assert(p@ =~= seq![c]);
    find_exec(t, &p)
}

/// `t[a..b]` as a new vector.
pub fn subvec(t: &Vec<char>, a: usize, b: usize) -> (r: Vec<char>)
    requires
        a <= b <= t.len(),
    ensures
        r@ == t@.subrange(a as int, b as int),
{
    let mut r: Vec<char> = Vec::new();
    let mut i: usize = a;
    while i < b
        invariant
            a <= i <= b <= t.len(),
            r@ == t@.subrange(a as int, i as int),
        decreases b - i,
    {
        r.push(t[i]);
        i = i + 1;
        assert(r@ =~= t@.subrange(a as int, i as int));
    }
    r
}

/// Append every character of `s` to `out`.
pub fn push_all(out: &mut Vec<char>, s: &Vec<char>)
    ensures
        final(out)@ == old(out)@ + s@,
{
    let ghost start = out@;
    let mut i: usize = 0;
    while i < s.len()
        invariant
            i <= s.len(),
            out@ == start + s@.take(i as int),
        decreases s.len() - i,
    {
        out.push(s[i]);
        i = i + 1;
        assert(out@ =~= start + s@.take(i as int));
    }
    assert(s@.take(s@.len() as int) =~= s@);
}

/// Append every character of `lit` to `out`.
pub fn push_str(out: &mut Vec<char>, lit: &str)
    ensures
        final(out)@ == old(out)@ + lit@,
{
    let s = chars_of(lit);
    push_all(out, &s);
}

/// Append `t[a..b]` to `out`.
pub fn push_range(out: &mut Vec<char>, t: &Vec<char>, a: usize, b: usize)
    requires
        a <= b <= t.len(),
    ensures
        final(out)@ == old(out)@ + t@.subrange(a as int, b as int),
{
    let ghost start = out@;
    let mut i: usize = a;
    while i < b
        invariant
            a <= i <= b <= t.len(),
            out@ == start + t@.subrange(a as int, i as int),
        decreases b - i,
    {
        out.push(t[i]);
        i = i + 1;
        assert(out@ =~= start + t@.subrange(a as int, i as int));
    }
}

/// `s[..a] + r + s[b..]`.
pub fn splice_exec(s: &Vec<char>, a: usize, b: usize, r: &Vec<char>) -> (out: Vec<char>)
    requires
        a <= b <= s.len(),
    ensures
        out@ == splice(s@, a as int, b as int, r@),
{
    let mut out: Vec<char> = Vec::new();
    push_range(&mut out, s, 0, a);
    push_all(&mut out, r);
    push_range(&mut out, s, b, s.len());
    assert(out@ =~= splice(s@, a as int, b as int, r@));
    out
}

/// Length of `s.trim_end()`.
pub fn trim_end_len_exec(s: &Vec<char>) -> (n: usize)
    ensures
        n == trim_end_len(s@),
{
    let mut j: usize = s.len();
    assert(s@.take(j as int) =~= s@);
    while j > 0 && is_ws_exec(s[j - 1])
        invariant
            j <= s.len(),
            trim_end_len(s@) == trim_end_len(s@.take(j as int)),
        decreases j,
    {
        assert(s@.take(j as int).drop_last() =~= s@.take(j - 1));
        j = j - 1;
    }
    proof {
        if j == s.len() {
            assert(s@.take(j as int) =~= s@);
        }
    }
    j
}

/// Number of leading whitespace characters.
pub fn trim_start_len_exec(s: &Vec<char>) -> (n: usize)
    ensures
        n == trim_start_len(s@),
        n <= s.len(),
{
    let mut j: usize = 0;
    assert(s@.skip(0) =~= s@);
    while j < s.len() && is_ws_exec(s[j])
        invariant
            j <= s.len(),
            trim_start_len(s@) == j + trim_start_len(s@.skip(j as int)),
        decreases s.len() - j,
    {
        assert(s@.skip(j as int).drop_first() =~= s@.skip(j + 1));
        j = j + 1;
    }
    proof {
        lemma_trim_start_len_bound(s@);
    }
    j
}

pub proof fn lemma_trim_start_len_bound(s: Seq<char>)
    ensures
        trim_start_len(s) <= s.len(),
    decreases s.len(),
{
    if s.len() > 0 && is_ws(s[0]) {
        lemma_trim_start_len_bound(s.drop_first());
    }
}

pub proof fn lemma_trim_end_len_bound(s: Seq<char>)
    ensures
        trim_end_len(s) <= s.len(),
    decreases s.len(),
{
    if s.len() > 0 && is_ws(s.last()) {
        lemma_trim_end_len_bound(s.drop_last());
    }
}

/// `s.trim()`.
pub fn trim_exec(s: &Vec<char>) -> (r: Vec<char>)
    ensures
        r@ == trim(s@),
{
    let e = trim_end_len_exec(s);
    proof {
        lemma_trim_end_len_bound(s@);
    }
    let t = subvec(s, 0, e);
    assert(t@ =~= trim_end(s@));
    let b = trim_start_len_exec(&t);
    let r = subvec(&t, b, t.len());
    assert(r@ =~= trim(s@));
    r
}

/// `xml_escape(s)`.
pub fn escape_exec(s: &Vec<char>) -> (r: Vec<char>)
    ensures
        r@ == escape(s@),
{
    let mut r: Vec<char> = Vec::new();
    let mut i: usize = 0;
    while i < s.len()
        invariant
            i <= s.len(),
            r@ == escape(s@.take(i as int)),
        decreases s.len() - i,
    {
        let c = s[i];
        let ghost before = r@;
        if c == '&' {
            push_str(&mut r, "&amp;");
        } else if c == '<' {
            push_str(&mut r, "&lt;");
        } else if c == '>' {
            push_str(&mut r, "&gt;");
        } else if c == '"' {
            push_str(&mut r, "&quot;");
        } else {
            r.push(c);
        }
        proof {
            reveal_strlit("&amp;");
            reveal_strlit("&lt;");
            reveal_strlit("&gt;");
            reveal_strlit("&quot;");
            assert(s@.take(i + 1).drop_last() =~= s@.take(i as int));
            assert(r@ =~= before + escape_char(c));
        }
        i = i + 1;
    }
    assert(s@.take(s@.len() as int) =~= s@);
    r
}

/// Number of `c` characters in `s`.
pub fn count_char_exec(s: &Vec<char>, c: char) -> (n: usize)
    ensures
        n == count_char(s@, c),
{
    let mut n: usize = 0;
    let mut i: usize = 0;
    while i < s.len()
        invariant
            i <= s.len(),
            n == count_char(s@.take(i as int), c),
            n <= i,
        decreases s.len() - i,
    {
        assert(s@.take(i + 1).drop_last() =~= s@.take(i as int));
        if s[i] == c {
            n = n + 1;
        }
        i = i + 1;
    }
    assert(s@.take(s@.len() as int) =~= s@);
    n
}

/// Append `s` to `out` `n` times.
pub fn push_repeat(out: &mut Vec<char>, s: &Vec<char>, n: usize)
    ensures
        final(out)@ == old(out)@ + repeat(s@, n as nat),
{
    let ghost start = out@;
    let mut i: usize = 0;
    while i < n
        invariant
            i <= n,
            out@ == start + repeat(s@, i as nat),
        decreases n - i,
    {
        push_all(out, s);
        i = i + 1;
        assert(out@ =~= start + repeat(s@, i as nat));
    }
}

} // verus!
