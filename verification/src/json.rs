//! Small text encoders the command-line front end prints with: JSON string
//! literals, and module version parts.
use vstd::prelude::*;
use vstd::string::StrSliceExecFns;
use crate::text::{chars_of, string_of, push_str};

verus! {

/// A lowercase hexadecimal digit.
pub open spec fn hex_digit(v: nat) -> char {
    if v < 10 {
        (('0' as u32) + v) as char
    } else {
        (('a' as u32) + v - 10) as char
    }
}

/// How one character appears inside a JSON string literal: the quote, the
/// backslash and every control character U+0000–U+001F are escaped (RFC 8259 §7).
pub open spec fn json_char(c: char) -> Seq<char> {
    if c == '"' {
        "\\\""@
    } else if c == '\\' {
        "\\\\"@
    } else if c == '\n' {
        "\\n"@
    } else if c == '\r' {
        "\\r"@
    } else if c == '\t' {
        "\\t"@
    } else if c == '\u{08}' {
        "\\b"@
    } else if c == '\u{0c}' {
        "\\f"@
    } else if (c as u32) < 0x20 {
        "\\u00"@ + seq![hex_digit((c as u32 / 16) as nat), hex_digit((c as u32 % 16) as nat)]
    } else {
        seq![c]
    }
}

pub open spec fn json_body(s: Seq<char>) -> Seq<char>
    decreases s.len(),
{
    if s.len() == 0 {
        Seq::empty()
    } else {
        json_body(s.drop_last()) + json_char(s.last())
    }
}

/// `s` as a JSON string literal.
pub open spec fn json_string_spec(s: Seq<char>) -> Seq<char> {
    "\""@ + json_body(s) + "\""@
}

fn hex_digit_exec(v: u32) -> (c: char)
    requires
        v < 16,
    ensures
        c == hex_digit(v as nat),
{
    let digits = ['0', '1', '2', '3', '4', '5', '6', '7', '8', '9', 'a', 'b', 'c', 'd', 'e', 'f'];
    let c = digits[v as usize];
    assert(c == hex_digit(v as nat)) by {
        assert(digits@[v as int] == c);
        reveal_with_fuel(hex_digit, 1);
    }
    c
}

fn push_json_char(out: &mut Vec<char>, c: char)
    ensures
        final(out)@ == old(out)@ + json_char(c),
{
    if c == '"' {
        push_str(out, "\\\"");
    } else if c == '\\' {
        push_str(out, "\\\\");
    } else if c == '\n' {
        push_str(out, "\\n");
    } else if c == '\r' {
        push_str(out, "\\r");
    } else if c == '\t' {
        push_str(out, "\\t");
    } else if c == '\u{08}' {
        push_str(out, "\\b");
    } else if c == '\u{0c}' {
        push_str(out, "\\f");
    } else if (c as u32) < 0x20 {
        push_str(out, "\\u00");
        let v = c as u32;
        let ghost before = out@;
        out.push(hex_digit_exec(v / 16));
        out.push(hex_digit_exec(v % 16));
        assert(out@ =~= before + seq![hex_digit((v / 16) as nat), hex_digit((v % 16) as nat)]);
    } else {
        let ghost before = out@;
        out.push(c);
        assert(out@ =~= before + seq![c]);
    }
}

/// A JSON string literal for `s`: quote, backslash and every control character
/// escaped, everything else verbatim.
pub fn json_string(s: &str) -> (r: String)
    ensures
        r@ == json_string_spec(s@),
{
    let v = chars_of(s);
    let mut out: Vec<char> = Vec::new();
    push_str(&mut out, "\"");
    let mut i: usize = 0;
    assert(v@.take(0) =~= Seq::<char>::empty());
    while i < v.len()
        invariant
            i <= v.len(),
            out@ == "\""@ + json_body(v@.take(i as int)),
        decreases v.len() - i,
    {
        assert(v@.take(i + 1).drop_last() =~= v@.take(i as int));
        push_json_char(&mut out, v[i]);
        i = i + 1;
    }
    assert(v@.take(i as int) =~= v@);
    push_str(&mut out, "\"");
    string_of(&out)
}

/// A JSON string literal, or `null` for an absent value.
pub fn json_string_or_null(s: Option<&str>) -> (r: String)
    ensures
        r@ == match s {
            Some(v) => json_string_spec(v@),
            None => "null"@,
        },
{
    match s {
        Some(v) => json_string(v),
        None => string_of(&chars_of("null")),
    }
}

/// Number of leading `'0'`s of `s`.
pub open spec fn leading_zeros(s: Seq<char>) -> nat
    decreases s.len(),
{
    if s.len() > 0 && s[0] == '0' {
        1 + leading_zeros(s.drop_first())
    } else {
        0
    }
}

/// A version part without its leading zeros (`"0108"` -> `"108"`), `"0"` when
/// nothing is left.
pub open spec fn normalise_version_part_spec(p: Seq<char>) -> Seq<char> {
    let t = p.skip(leading_zeros(p) as int);
    if t.len() == 0 {
        "0"@
    } else {
        t
    }
}

/// A module version part without its leading zeros, `"0"` when it is all zeros.
pub fn normalise_version_part(part: &str) -> (r: &str)
    ensures
        r@ == normalise_version_part_spec(part@),
{
    let n = part.unicode_len();
    let mut k: usize = 0;
    assert(part@.skip(0) =~= part@);
    while k < n && part.get_char(k) == '0'
        invariant
            k <= n,
            n == part@.len(),
            leading_zeros(part@) == k + leading_zeros(part@.skip(k as int)),
        decreases n - k,
    {
        assert(part@.skip(k as int).drop_first() =~= part@.skip(k + 1));
        k = k + 1;
    }
    if k == n {
        proof {
            reveal_strlit("0");
        }
        assert(part@.skip(k as int) =~= Seq::<char>::empty());
        "0"
    } else {
        let r = part.substring_char(k, n);
        assert(r@ =~= part@.skip(k as int));
        r
    }
}

// ---- laws -------------------------------------------------------------------------------

proof fn lemma_json_char_printable(c: char)
    ensures
        forall|i: int| 0 <= i < json_char(c).len() ==> (#[trigger] json_char(c)[i]) as u32 >= 0x20,
{
    reveal_strlit("\\\"");
    reveal_strlit("\\\\");
    reveal_strlit("\\n");
    reveal_strlit("\\r");
    reveal_strlit("\\t");
    reveal_strlit("\\b");
    reveal_strlit("\\f");
    reveal_strlit("\\u00");
    if !(c == '"' || c == '\\' || c == '\n' || c == '\r' || c == '\t' || c == '\u{08}' || c == '\u{0c}')
        && (c as u32) < 0x20 {
        let h = hex_digit((c as u32 / 16) as nat);
        let l = hex_digit((c as u32 % 16) as nat);
        assert(h as u32 >= 0x30);
        assert(l as u32 >= 0x30);
        let t = "\\u00"@ + seq![h, l];
        assert forall|i: int| 0 <= i < t.len() implies (#[trigger] t[i]) as u32 >= 0x20 by {
            if i >= 4 {
                assert(t[i] == h || t[i] == l);
            }
        }
    }
}

/// A JSON string literal holds no raw control character (RFC 8259 §7): every
/// character of `json_string(s)` is at or above U+0020, whatever `s` holds.
pub proof fn lemma_json_string_printable(s: Seq<char>)
    ensures
        forall|i: int| 0 <= i < json_string_spec(s).len() ==> (#[trigger] json_string_spec(s)[i]) as u32
            >= 0x20,
{
    reveal_strlit("\"");
    lemma_json_body_printable(s);
    let t = json_string_spec(s);
    let b = json_body(s);
    assert forall|i: int| 0 <= i < t.len() implies (#[trigger] t[i]) as u32 >= 0x20 by {
        if 1 <= i < 1 + b.len() {
            assert(t[i] == b[i - 1]);
        }
    }
}

proof fn lemma_json_body_printable(s: Seq<char>)
    ensures
        forall|i: int| 0 <= i < json_body(s).len() ==> (#[trigger] json_body(s)[i]) as u32 >= 0x20,
    decreases s.len(),
{
    if s.len() > 0 {
        lemma_json_body_printable(s.drop_last());
        lemma_json_char_printable(s.last());
        let a = json_body(s.drop_last());
        let b = json_char(s.last());
        assert forall|i: int| 0 <= i < json_body(s).len() implies (#[trigger] json_body(s)[i]) as u32 >= 0x20 by {
            if i < a.len() {
                assert(json_body(s)[i] == a[i]);
            } else {
                assert(json_body(s)[i] == b[i - a.len()]);
            }
        }
    }
}

proof fn lemma_leading_zeros_skip(p: Seq<char>)
    ensures
        leading_zeros(p) <= p.len(),
        leading_zeros(p.skip(leading_zeros(p) as int)) == 0,
    decreases p.len(),
{
    if p.len() > 0 && p[0] == '0' {
        lemma_leading_zeros_skip(p.drop_first());
        assert(p.skip(leading_zeros(p) as int) =~= p.drop_first().skip(leading_zeros(p.drop_first()) as int));
    }
}

/// Normalising a version part twice changes nothing more than normalising it once.
pub proof fn lemma_normalise_version_part_idempotent(p: Seq<char>)
    ensures
        normalise_version_part_spec(normalise_version_part_spec(p)) == normalise_version_part_spec(p),
{
    reveal_strlit("0");
    lemma_leading_zeros_skip(p);
    let t = p.skip(leading_zeros(p) as int);
    if t.len() == 0 {
        let z = "0"@;
        assert(z.drop_first().len() == 0);
        assert(leading_zeros(z.drop_first()) == 0);
        assert(leading_zeros(z) == 1);
        assert(z.skip(1).len() == 0);
    } else {
        assert(t.skip(0) =~= t);
    }
}

} // verus!
