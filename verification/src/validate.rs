//! Read-only structural validation of a project (`validate`,
//! `validate_with_modules`), the checks of a CAN-database file
//! (`validate_dbc_file`), and the opt-in mandatory-tag check.
//!
//! Findings are collected check by check and then sorted by path and message
//! (stably), so the report is in a fixed order whatever the order of discovery.
use vstd::prelude::*;
use crate::{EditError, ErrV};
use crate::text::{
    chars_of, string_of, push_str, push_all, subvec, seq_eq, eq_str, has_prefix, has_suffix,
    starts_with_str, ends_with_str, find_seq, trim, trim_exec, all_ws, is_blank, is_ws, is_ws_exec,
    find_from,
};
use crate::xml::{
    Doc, NodeV, parse_doc, doc_model, parse_err, node_wf, last_of, is_elem, attr_val, has_attr,
    is_real_component, is_real_component_exec, find_component, first_child, is_elem_str,
    attr_value_str, attr_index,
};
use crate::props::{props_of, view_all};
use crate::sort::{KeyOrder, ins, isort, isort_exec, lex_le, lex_le_exec};
use crate::edits::{
    eq_ignore_ascii_case, lower_code, last_segment, last_segment_exec, parent_of, parent_of_exec,
    decimal, decimal_exec,
};
use crate::query::{props_attr, contains_str, strs_view, opt_view, to_strings};

verus! {

// ---- findings -------------------------------------------------------------------

/// How serious a finding is.
#[derive(Debug, Clone, Copy, PartialEq, Eq, Structural)]
pub enum FindingLevel {
    Error,
    Warning,
}

/// A single validation finding.
#[derive(Debug)]
pub struct Finding {
    pub level: FindingLevel,
    pub path: String,
    pub message: String,
    /// The M1-Build error number this finding mirrors, when one is known.
    pub code: Option<u32>,
}

pub struct FindingV {
    pub level: FindingLevel,
    pub path: Seq<char>,
    pub message: Seq<char>,
    pub code: Option<u32>,
}

impl View for Finding {
    type V = FindingV;

    open spec fn view(&self) -> FindingV {
        FindingV { level: self.level, path: self.path@, message: self.message@, code: self.code }
    }
}

pub open spec fn findings_view(v: Seq<Finding>) -> Seq<FindingV> {
    v.map_values(|f: Finding| f@)
}

pub open spec fn fv(level: FindingLevel, path: Seq<char>, message: Seq<char>, code: Option<u32>) -> FindingV {
    FindingV { level, path, message, code }
}

/// Ordered by path, then by message.
pub open spec fn finding_le(a: FindingV, b: FindingV) -> bool {
    lex_le(a.path, b.path) && (a.path != b.path || lex_le(a.message, b.message))
}

impl KeyOrder for Finding {
    open spec fn key_le(&self, other: &Self) -> bool {
        finding_le(self@, other@)
    }

    proof fn lemma_total(a: &Self, b: &Self) {
        crate::sort::lemma_lex_total(a.path@, b.path@);
        crate::sort::lemma_lex_total(a.message@, b.message@);
        if lex_le(a.path@, b.path@) && lex_le(b.path@, a.path@) {
            crate::sort::lemma_lex_antisym(a.path@, b.path@);
        }
    }

    proof fn lemma_trans(a: &Self, b: &Self, c: &Self) {
        crate::sort::lemma_lex_trans(a.path@, b.path@, c.path@);
        if a.path@ == c.path@ {
            crate::sort::lemma_lex_antisym(a.path@, b.path@);
            crate::sort::lemma_lex_trans(a.message@, b.message@, c.message@);
        }
        if a.path@ != b.path@ && lex_le(a.path@, b.path@) && lex_le(b.path@, c.path@) && a.path@
            == c.path@ {
            crate::sort::lemma_lex_antisym(a.path@, b.path@);
        }
    }

    fn le_exec(&self, other: &Self) -> (r: bool) {
        let a = crate::text::chars_of_string(&self.path);
        let b = crate::text::chars_of_string(&other.path);
        if !lex_le_exec(&a, &b) {
            return false;
        }
        if !seq_eq(&a, &b) {
            return true;
        }
        let x = crate::text::chars_of_string(&self.message);
        let y = crate::text::chars_of_string(&other.message);
        lex_le_exec(&x, &y)
    }
}

pub open spec fn ins_f(t: Seq<FindingV>, x: FindingV) -> Seq<FindingV>
    decreases t.len(),
{
    if t.len() == 0 {
        seq![x]
    } else if finding_le(t.last(), x) {
        t.push(x)
    } else {
        ins_f(t.drop_last(), x).push(t.last())
    }
}

/// Stable sort of findings by path, then message.
pub open spec fn sort_findings(s: Seq<FindingV>) -> Seq<FindingV>
    decreases s.len(),
{
    if s.len() == 0 {
        Seq::empty()
    } else {
        ins_f(sort_findings(s.drop_last()), s.last())
    }
}

proof fn lemma_ins_f_view(t: Seq<Finding>, x: Finding)
    ensures
        findings_view(ins(t, x)) == ins_f(findings_view(t), x@),
    decreases t.len(),
{
    if t.len() == 0 {
        assert(findings_view(seq![x]) =~= seq![x@]);
    } else {
        assert(findings_view(t).last() == t.last()@);
        assert(findings_view(t.drop_last()) =~= findings_view(t).drop_last());
        if t.last().key_le(&x) {
            assert(findings_view(t.push(x)) =~= findings_view(t).push(x@));
        } else {
            lemma_ins_f_view(t.drop_last(), x);
            assert(findings_view(ins(t.drop_last(), x).push(t.last())) =~= findings_view(
                ins(t.drop_last(), x),
            ).push(t.last()@));
        }
    }
}

proof fn lemma_sort_findings_view(s: Seq<Finding>)
    ensures
        findings_view(isort(s)) == sort_findings(findings_view(s)),
    decreases s.len(),
{
    if s.len() > 0 {
        lemma_sort_findings_view(s.drop_last());
        lemma_ins_f_view(isort(s.drop_last()), s.last());
        assert(findings_view(s.drop_last()) =~= findings_view(s).drop_last());
    }
}

/// Sort findings by path, then message, keeping the order of ties.
pub fn sort_by_path(v: Vec<Finding>) -> (r: Vec<Finding>)
    ensures
        findings_view(r@) == sort_findings(findings_view(v@)),
{
    let ghost s = v@;
    let r = isort_exec(v);
    proof {
        lemma_sort_findings_view(s);
    }
    r
}

pub fn mk_finding(level: FindingLevel, path: &Vec<char>, message: &Vec<char>, code: Option<u32>) -> (f:
    Finding)
    ensures
        f@ == fv(level, path@, message@, code),
{
    Finding { level, path: string_of(path), message: string_of(message), code }
}

/// Append `f` to `out`.
fn push_finding(out: &mut Vec<Finding>, f: Finding)
    ensures
        findings_view(final(out)@) == findings_view(old(out)@).push(f@),
{
    out.push(f);
    assert(findings_view(out@) =~= findings_view(old(out)@).push(f@));
}

// ---- character helpers ------------------------------------------------------------

pub fn eq_ic(a: &Vec<char>, b: &Vec<char>) -> (r: bool)
    ensures
        r == eq_ignore_ascii_case(a@, b@),
{
    if a.len() != b.len() {
        return false;
    }
    let mut i: usize = 0;
    while i < a.len()
        invariant
            i <= a.len(),
            a.len() == b.len(),
            forall|k: int| 0 <= k < i ==> lower_code(a@[k]) == lower_code(b@[k]),
        decreases a.len() - i,
    {
        let x = if 'A' <= a[i] && a[i] <= 'Z' {
            a[i] as u32 + 32
        } else {
            a[i] as u32
        };
        let y = if 'A' <= b[i] && b[i] <= 'Z' {
            b[i] as u32 + 32
        } else {
            b[i] as u32
        };
        if x != y {
            return false;
        }
        i = i + 1;
    }
    true
}

/// The words of `s` and the word still being read, after reading all of `s`
/// (`str::split_whitespace` read left to right).
pub open spec fn words_state(s: Seq<char>) -> (Seq<Seq<char>>, Seq<char>)
    decreases s.len(),
{
    if s.len() == 0 {
        (Seq::empty(), Seq::empty())
    } else {
        let (ws, cur) = words_state(s.drop_last());
        if is_ws(s.last()) {
            if cur.len() > 0 {
                (ws.push(cur), Seq::empty())
            } else {
                (ws, Seq::empty())
            }
        } else {
            (ws, cur.push(s.last()))
        }
    }
}

/// `s.split_whitespace()`.
pub open spec fn words(s: Seq<char>) -> Seq<Seq<char>> {
    let (ws, cur) = words_state(s);
    if cur.len() > 0 {
        ws.push(cur)
    } else {
        ws
    }
}

pub fn words_exec(s: &Vec<char>) -> (r: Vec<Vec<char>>)
    ensures
        view_all(r@) == words(s@),
{
    let mut ws: Vec<Vec<char>> = Vec::new();
    let mut cur: Vec<char> = Vec::new();
    let mut i: usize = 0;
    assert(s@.take(0) =~= Seq::<char>::empty());
    while i < s.len()
        invariant
            i <= s.len(),
            (view_all(ws@), cur@) == words_state(s@.take(i as int)),
        decreases s.len() - i,
    {
        assert(s@.take(i + 1).drop_last() =~= s@.take(i as int));
        let c = s[i];
        if is_ws_exec(c) {
            if cur.len() > 0 {
                let ghost before = view_all(ws@);
                let w = cur;
                ws.push(w);
                assert(view_all(ws@) =~= before.push(w@));
                cur = Vec::new();
            }
            assert(cur@ =~= Seq::<char>::empty());
        } else {
            cur.push(c);
        }
        i = i + 1;
    }
    assert(s@.take(i as int) =~= s@);
    if cur.len() > 0 {
        let ghost before = view_all(ws@);
        let w = cur;
        ws.push(w);
        assert(view_all(ws@) =~= before.push(w@));
    }
    ws
}

/// `s.split(c)`.
pub open spec fn split_char(s: Seq<char>, c: char) -> Seq<Seq<char>>
    decreases s.len(),
{
    if s.len() == 0 {
        seq![Seq::empty()]
    } else {
        let r = split_char(s.drop_last(), c);
        if s.last() == c {
            r.push(Seq::empty())
        } else {
            r.update(r.len() - 1, r.last().push(s.last()))
        }
    }
}

proof fn lemma_split_char_nonempty(s: Seq<char>, c: char)
    ensures
        split_char(s, c).len() >= 1,
    decreases s.len(),
{
    if s.len() > 0 {
        lemma_split_char_nonempty(s.drop_last(), c);
    }
}

pub fn split_char_exec(s: &Vec<char>, c: char) -> (r: Vec<Vec<char>>)
    ensures
        view_all(r@) == split_char(s@, c),
{
    let mut r: Vec<Vec<char>> = Vec::new();
    r.push(Vec::new());
    let mut i: usize = 0;
    assert(s@.take(0) =~= Seq::<char>::empty());
    assert(view_all(r@) =~= seq![Seq::<char>::empty()]);
    while i < s.len()
        invariant
            i <= s.len(),
            view_all(r@) == split_char(s@.take(i as int), c),
            r.len() >= 1,
        decreases s.len() - i,
    {
        assert(s@.take(i + 1).drop_last() =~= s@.take(i as int));
        let ghost before = view_all(r@);
        if s[i] == c {
            r.push(Vec::new());
            assert(view_all(r@) =~= before.push(Seq::<char>::empty()));
        } else {
            let k = r.len() - 1;
            let mut last = r.pop().unwrap();
            last.push(s[i]);
            r.push(last);
            assert(view_all(r@) =~= before.update(k as int, before[k as int].push(s@[i as int])));
        }
        i = i + 1;
    }
    assert(s@.take(i as int) =~= s@);
    r
}

/// Any of `list` equals `x` ignoring ASCII case.
pub open spec fn any_ic(list: Seq<Seq<char>>, x: Seq<char>) -> bool {
    exists|i: int| 0 <= i < list.len() && eq_ignore_ascii_case(#[trigger] list[i], x)
}

pub fn any_ic_exec(list: &Vec<Vec<char>>, x: &Vec<char>) -> (r: bool)
    ensures
        r == any_ic(view_all(list@), x@),
{
    let mut i: usize = 0;
    while i < list.len()
        invariant
            i <= list.len(),
            forall|k: int| 0 <= k < i ==> !eq_ignore_ascii_case(#[trigger] view_all(list@)[k], x@),
        decreases list.len() - i,
    {
        if eq_ic(&list[i], x) {
            assert(eq_ignore_ascii_case(view_all(list@)[i as int], x@));
            return true;
        }
        i = i + 1;
    }
    false
}

/// Any of `list` equals `x`.
pub fn contains_exact(list: &Vec<Vec<char>>, x: &Vec<char>) -> (r: bool)
    ensures
        r == view_all(list@).contains(x@),
{
    crate::props::contains_tag(list, x)
}

fn lit_list(items: &[&str]) -> (r: Vec<Vec<char>>)
    ensures
        r@.len() == items@.len(),
        forall|i: int| 0 <= i < items@.len() ==> #[trigger] r@[i]@ == items@[i]@,
{
    let mut r: Vec<Vec<char>> = Vec::new();
    let mut i: usize = 0;
    while i < items.len()
        invariant
            i <= items@.len(),
            r@.len() == i,
            forall|k: int| 0 <= k < i ==> #[trigger] r@[k]@ == items@[k]@,
        decreases items@.len() - i,
    {
        r.push(chars_of(items[i]));
        i = i + 1;
    }
    r
}

// ---- tags ----------------------------------------------------------------------------

/// Append each of `es` not already present (ignoring ASCII case).
pub open spec fn add_entries(acc: Seq<Seq<char>>, es: Seq<Seq<char>>) -> Seq<Seq<char>>
    decreases es.len(),
{
    if es.len() == 0 {
        acc
    } else {
        let a = add_entries(acc, es.drop_last());
        if any_ic(a, es.last()) {
            a
        } else {
            a.push(es.last())
        }
    }
}

/// A component's tags: the words of `<Props SelectedTags>`, then each
/// `<List.UserTags>` entry not already among them (ignoring ASCII case).
pub open spec fn component_tags(m: Seq<NodeV>, c: int) -> Seq<Seq<char>> {
    match props_of(m, c) {
        None => Seq::empty(),
        Some(p) => {
            let sel = match attr_val(m[p], "SelectedTags"@) {
                Some(v) => words(v),
                None => Seq::empty(),
            };
            match first_child(m, p, "List.UserTags"@) {
                None => sel,
                Some(l) => add_entries(sel, crate::props::entries_from(m, l, l + 1, last_of(m, l) + 1)),
            }
        },
    }
}

/// The component's own `<Props>` sets its tags.
pub open spec fn overrides_tags(m: Seq<NodeV>, c: int) -> bool {
    match props_of(m, c) {
        Some(p) => has_attr(m[p], "SelectedTags"@) || first_child(m, p, "List.UserTags"@) is Some,
        None => false,
    }
}

/// The tags that belong to `group` (ignoring ASCII case), in order.
pub open spec fn tags_in_group(tags: Seq<Seq<char>>, group: Seq<Seq<char>>) -> Seq<Seq<char>>
    decreases tags.len(),
{
    if tags.len() == 0 {
        Seq::empty()
    } else {
        tags_in_group(tags.drop_last(), group) + if any_ic(group, tags.last()) {
            seq![tags.last()]
        } else {
            Seq::empty()
        }
    }
}

pub open spec fn system_tags() -> Seq<Seq<char>> {
    seq!["Engine"@, "Vehicle"@, "Driver"@]
}

pub open spec fn type_tags() -> Seq<Seq<char>> {
    seq!["Normal"@, "Diagnostic"@, "Advanced"@, "Setup"@, "Tune"@, "Pin"@]
}

pub open spec fn io_tags() -> Seq<Seq<char>> {
    seq!["Input"@, "Output"@]
}

fn entries_exec(d: &Doc, l: usize) -> (r: Vec<Vec<char>>)
    requires
        d.wf(),
        l < d.nodes.len(),
    ensures
        view_all(r@) == crate::props::entries_from(d.model(), l as int, l + 1, last_of(d.model(), l as int) + 1),
{
    let ghost m = d.model();
    assert(node_wf(m, l as int, d.text@.len() as int));
    let hi = match d.nodes[l].last {
        Some(x) => x,
        None => 0,
    };
    let mut r: Vec<Vec<char>> = Vec::new();
    let mut i: usize = l + 1;
    while i <= hi
        invariant
            m == d.model(),
            hi == last_of(m, l as int),
            hi < d.nodes.len(),
            l < i,
            crate::props::entries_from(m, l as int, l + 1, hi + 1) == view_all(r@) + crate::props::entries_from(m, l as int, i as int, hi + 1),
        decreases hi + 1 - i,
    {
        let n = &d.nodes[i];
        let ghost before = view_all(r@);
        if n.parent == Some(l) && is_elem_str(n, "Entry") {
            match attr_value_str(n, "Value") {
                Some(v) => {
                    let cp = subvec(v, 0, v.len());
                    assert(cp@ =~= v@);
                    r.push(cp);
                    assert(view_all(r@) =~= before + seq![v@]);
                },
                None => {},
            }
        }
        i = i + 1;
    }
    assert(view_all(r@) + Seq::<Seq<char>>::empty() =~= view_all(r@));
    r
}

fn add_entries_exec(acc: Vec<Vec<char>>, es: &Vec<Vec<char>>) -> (r: Vec<Vec<char>>)
    ensures
        view_all(r@) == add_entries(view_all(acc@), view_all(es@)),
{
    let ghost a0 = view_all(acc@);
    let ghost ev = view_all(es@);
    let mut out = acc;
    let mut i: usize = 0;
    assert(ev.take(0) =~= Seq::<Seq<char>>::empty());
    while i < es.len()
        invariant
            i <= es.len(),
            ev == view_all(es@),
            view_all(out@) == add_entries(a0, ev.take(i as int)),
        decreases es.len() - i,
    {
        assert(ev.take(i + 1).drop_last() =~= ev.take(i as int));
        assert(ev.take(i + 1).last() == es@[i as int]@);
        if !any_ic_exec(&out, &es[i]) {
            let ghost before = view_all(out@);
            let cp = subvec(&es[i], 0, es[i].len());
            assert(cp@ =~= es@[i as int]@);
            out.push(cp);
            assert(view_all(out@) =~= before.push(es@[i as int]@));
        }
        i = i + 1;
    }
    assert(ev.take(i as int) =~= ev);
    out
}

pub fn component_tags_exec(d: &Doc, c: usize) -> (r: Vec<Vec<char>>)
    requires
        d.wf(),
        c < d.nodes.len(),
    ensures
        view_all(r@) == component_tags(d.model(), c as int),
{
    let ghost m = d.model();
    assert(node_wf(m, c as int, d.text@.len() as int));
    match d.first_child(c, "Props") {
        None => {
            let r: Vec<Vec<char>> = Vec::new();
            assert(view_all(r@) =~= Seq::<Seq<char>>::empty());
            r
        },
        Some(p) => {
            assert(node_wf(m, p as int, d.text@.len() as int));
            let sel = match attr_value_str(&d.nodes[p], "SelectedTags") {
                Some(v) => words_exec(v),
                None => {
                    let r: Vec<Vec<char>> = Vec::new();
                    assert(view_all(r@) =~= Seq::<Seq<char>>::empty());
                    r
                },
            };
            match d.first_child(p, "List.UserTags") {
                None => sel,
                Some(l) => {
                    assert(node_wf(m, l as int, d.text@.len() as int));
                    let es = entries_exec(d, l);
                    add_entries_exec(sel, &es)
                },
            }
        },
    }
}

pub fn overrides_tags_exec(d: &Doc, c: usize) -> (b: bool)
    requires
        d.wf(),
        c < d.nodes.len(),
    ensures
        b == overrides_tags(d.model(), c as int),
{
    let ghost m = d.model();
    assert(node_wf(m, c as int, d.text@.len() as int));
    match d.first_child(c, "Props") {
        None => false,
        Some(p) => {
            assert(node_wf(m, p as int, d.text@.len() as int));
            attr_index(&d.nodes[p], &chars_of("SelectedTags")).is_some() || d.first_child(
                p,
                "List.UserTags",
            ).is_some()
        },
    }
}

pub fn tags_in_group_exec(tags: &Vec<Vec<char>>, group: &Vec<Vec<char>>) -> (r: Vec<Vec<char>>)
    ensures
        view_all(r@) == tags_in_group(view_all(tags@), view_all(group@)),
{
    let ghost tv = view_all(tags@);
    let mut r: Vec<Vec<char>> = Vec::new();
    let mut i: usize = 0;
    assert(tv.take(0) =~= Seq::<Seq<char>>::empty());
    while i < tags.len()
        invariant
            i <= tags.len(),
            tv == view_all(tags@),
            view_all(r@) == tags_in_group(tv.take(i as int), view_all(group@)),
        decreases tags.len() - i,
    {
        assert(tv.take(i + 1).drop_last() =~= tv.take(i as int));
        assert(tv.take(i + 1).last() == tags@[i as int]@);
        let ghost before = view_all(r@);
        if any_ic_exec(group, &tags[i]) {
            let cp = subvec(&tags[i], 0, tags[i].len());
            assert(cp@ =~= tags@[i as int]@);
            r.push(cp);
            assert(view_all(r@) =~= before + seq![tags@[i as int]@]);
        } else {
            assert(view_all(r@) =~= before + Seq::<Seq<char>>::empty());
        }
        i = i + 1;
    }
    assert(tv.take(i as int) =~= tv);
    r
}

// ---- object names ----------------------------------------------------------------------

pub open spec fn is_alpha(c: char) -> bool {
    ('a' <= c && c <= 'z') || ('A' <= c && c <= 'Z')
}

pub open spec fn is_name_char(c: char) -> bool {
    is_alpha(c) || ('0' <= c && c <= '9') || c == ' '
}

/// The first character at or after `i` that may not appear in an object name.
pub open spec fn first_bad(s: Seq<char>, i: int) -> Option<char>
    decreases s.len() - i,
{
    if i < 0 || i >= s.len() {
        None
    } else if !is_name_char(s[i]) {
        Some(s[i])
    } else {
        first_bad(s, i + 1)
    }
}

pub open spec fn reserved_words() -> Seq<Seq<char>> {
    seq![
        "and"@, "else"@, "eq"@, "false"@, "if"@, "is"@, "local"@, "not"@, "or"@, "static"@, "true"@,
        "when"@,
    ]
}

/// The first of `ws` (from `i`) that is a reserved word.
pub open spec fn first_reserved(ws: Seq<Seq<char>>, i: int) -> Option<Seq<char>>
    decreases ws.len() - i,
{
    if i < 0 || i >= ws.len() {
        None
    } else if reserved_words().contains(ws[i]) {
        Some(ws[i])
    } else {
        first_reserved(ws, i + 1)
    }
}

/// Why `seg` is not a valid M1 object-name segment: it must begin with a letter,
/// hold only letters, digits and spaces, have no two consecutive spaces, and no
/// space-separated word may be a reserved keyword (case-sensitive). A blank
/// segment is left to the blank-name check.
pub open spec fn name_reason(seg: Seq<char>) -> Option<Seq<char>> {
    if trim(seg).len() == 0 {
        None
    } else if !is_alpha(seg[0]) {
        Some("must begin with a letter"@)
    } else if first_bad(seg, 0) is Some {
        Some(
            "contains the illegal character `"@ + seq![first_bad(seg, 0).unwrap()]
                + "` (only letters, digits and spaces are allowed)"@,
        )
    } else if find_seq(seg, "  "@) is Some {
        Some("contains two consecutive spaces"@)
    } else if first_reserved(split_char(seg, ' '), 0) is Some {
        Some("the word `"@ + first_reserved(split_char(seg, ' '), 0).unwrap() + "` is a reserved keyword"@)
    } else {
        None
    }
}

proof fn lemma_first_bad(s: Seq<char>, i: int)
    requires
        0 <= i,
    ensures
        first_bad(s, i) is None <==> forall|j: int| i <= j < s.len() ==> is_name_char(#[trigger] s[j]),
    decreases s.len() - i,
{
    if i < s.len() {
        lemma_first_bad(s, i + 1);
    }
}

proof fn lemma_find_two_spaces(s: Seq<char>, i: int)
    requires
        0 <= i,
    ensures
        find_from(s, "  "@, i) is None <==> forall|j: int| i <= j && j + 1 < s.len() ==> !(#[trigger] s[j] == ' '
            && s[j + 1] == ' '),
    decreases s.len() + 1 - i,
{
    reveal_strlit("  ");
    if i + 2 <= s.len() {
        lemma_find_two_spaces(s, i + 1);
        if s[i] == ' ' && s[i + 1] == ' ' {
            assert(s.subrange(i, i + 2) =~= "  "@);
        } else {
            assert(s.subrange(i, i + 2)[0] == s[i]);
            assert(s.subrange(i, i + 2)[1] == s[i + 1]);
        }
    }
}

proof fn lemma_first_reserved(ws: Seq<Seq<char>>, i: int)
    requires
        0 <= i,
    ensures
        first_reserved(ws, i) is None <==> forall|j: int| i <= j < ws.len() ==> !reserved_words().contains(
            #[trigger] ws[j],
        ),
    decreases ws.len() - i,
{
    if i < ws.len() {
        lemma_first_reserved(ws, i + 1);
    }
}

/// A name segment is accepted exactly when it is blank (left to the blank-name
/// check), or it begins with a letter, holds only letters, digits and spaces, has
/// no two consecutive spaces, and none of its space-separated words is a reserved
/// keyword.
pub proof fn lemma_name_rules(seg: Seq<char>)
    ensures
        name_reason(seg) is None <==> (trim(seg).len() == 0 || (is_alpha(seg[0]) && (forall|j: int|
            0 <= j < seg.len() ==> is_name_char(#[trigger] seg[j])) && (forall|j: int|
            0 <= j && j + 1 < seg.len() ==> !(#[trigger] seg[j] == ' ' && seg[j + 1] == ' ')) && (forall|j: int|
            0 <= j < split_char(seg, ' ').len() ==> !reserved_words().contains(#[trigger] split_char(seg, ' ')[j])))),
{
    lemma_first_bad(seg, 0);
    lemma_find_two_spaces(seg, 0);
    lemma_first_reserved(split_char(seg, ' '), 0);
}

fn is_alpha_exec(c: char) -> (b: bool)
    ensures
        b == is_alpha(c),
{
    ('a' <= c && c <= 'z') || ('A' <= c && c <= 'Z')
}

fn reserved_exec() -> (r: Vec<Vec<char>>)
    ensures
        view_all(r@) == reserved_words(),
{
    let r = lit_list(&["and", "else", "eq", "false", "if", "is", "local", "not", "or", "static", "true", "when"]);
    assert(view_all(r@) =~= reserved_words());
    r
}

/// The reason an object-name segment is invalid, or `None` when it is valid.
#[verifier::loop_isolation(false)]
pub fn invalid_name_segment_reason(segment: &str) -> (r: Option<String>)
    ensures
        opt_view(r) == name_reason(segment@),
{
    let seg = chars_of(segment);
    let t = trim_exec(&seg);
    if t.len() == 0 {
        return None;
    }
    proof {
        if seg@.len() == 0 {
            assert(trim(seg@) =~= Seq::<char>::empty());
        }
    }
    if !is_alpha_exec(seg[0]) {
        return Some(string_of(&chars_of("must begin with a letter")));
    }
    let mut i: usize = 0;
    while i < seg.len()
        invariant
            i <= seg.len(),
            first_bad(seg@, 0) == first_bad(seg@, i as int),
        decreases seg.len() - i,
    {
        let c = seg[i];
        if !(is_alpha_exec(c) || ('0' <= c && c <= '9') || c == ' ') {
            assert(first_bad(seg@, i as int) == Some(c));
            let mut msg = chars_of("contains the illegal character `");
            let ghost m0 = msg@;
            msg.push(c);
            assert(msg@ =~= m0 + seq![c]);
            push_str(&mut msg, "` (only letters, digits and spaces are allowed)");
            return Some(string_of(&msg));
        }
        i = i + 1;
    }
    if contains_str(&seg, "  ") {
        return Some(string_of(&chars_of("contains two consecutive spaces")));
    }
    let ws = split_char_exec(&seg, ' ');
    let res = reserved_exec();
    let mut k: usize = 0;
    while k < ws.len()
        invariant
            k <= ws.len(),
            view_all(res@) == reserved_words(),
            first_reserved(view_all(ws@), 0) == first_reserved(view_all(ws@), k as int),
        decreases ws.len() - k,
    {
        if contains_exact(&res, &ws[k]) {
            let mut msg = chars_of("the word `");
            push_all(&mut msg, &ws[k]);
            push_str(&mut msg, "` is a reserved keyword");
            return Some(string_of(&msg));
        }
        k = k + 1;
    }
    None
}

// ---- module templates ----------------------------------------------------------------

/// What a module template says of one of its components.
pub struct ModuleComponent {
    pub tags: Vec<Vec<char>>,
    pub target_creation: Option<Vec<char>>,
}

/// A component of a module template, by its path relative to the instance.
pub struct ModuleEntry {
    pub relative: Vec<char>,
    pub component: ModuleComponent,
}

/// The template of one module class (`<set>.<leaf>`).
pub struct ModuleTemplate {
    pub class_name: Vec<char>,
    pub entries: Vec<ModuleEntry>,
}

pub struct ModCompV {
    pub tags: Seq<Seq<char>>,
    pub tc: Option<Seq<char>>,
}

pub struct TemplateV {
    pub class_name: Seq<char>,
    pub entries: Seq<(Seq<char>, ModCompV)>,
}

pub open spec fn opt_cv(o: Option<Vec<char>>) -> Option<Seq<char>> {
    match o {
        Some(v) => Some(v@),
        None => None,
    }
}

impl View for ModuleComponent {
    type V = ModCompV;

    open spec fn view(&self) -> ModCompV {
        ModCompV { tags: view_all(self.tags@), tc: opt_cv(self.target_creation) }
    }
}

impl View for ModuleTemplate {
    type V = TemplateV;

    open spec fn view(&self) -> TemplateV {
        TemplateV {
            class_name: self.class_name@,
            entries: self.entries@.map_values(|e: ModuleEntry| (e.relative@, e.component@)),
        }
    }
}

pub open spec fn catalog_view(c: Seq<ModuleTemplate>) -> Seq<TemplateV> {
    c.map_values(|t: ModuleTemplate| t@)
}

/// The last template (below `i`) for class `cls`: a later module set overrides.
pub open spec fn cat_find(cat: Seq<TemplateV>, cls: Seq<char>, i: int) -> Option<int>
    decreases i,
{
    if i <= 0 || i > cat.len() {
        None
    } else if cat[i - 1].class_name == cls {
        Some(i - 1)
    } else {
        cat_find(cat, cls, i - 1)
    }
}

/// The last entry (below `i`) for relative path `rel`.
pub open spec fn tmpl_find(es: Seq<(Seq<char>, ModCompV)>, rel: Seq<char>, i: int) -> Option<int>
    decreases i,
{
    if i <= 0 || i > es.len() {
        None
    } else if es[i - 1].0 == rel {
        Some(i - 1)
    } else {
        tmpl_find(es, rel, i - 1)
    }
}

/// The last listed component (below `i`) named `p`.
pub open spec fn last_named(m: Seq<NodeV>, p: Seq<char>, i: int) -> Option<int>
    decreases i,
{
    if i <= 0 || i > m.len() {
        None
    } else if crate::query::listed(m[i - 1]) && attr_val(m[i - 1], "Name"@) == Some(p) {
        Some(i - 1)
    } else {
        last_named(m, p, i - 1)
    }
}

/// The class of the last component named `p` (a later one overrides).
pub open spec fn class_of_path(m: Seq<NodeV>, p: Seq<char>) -> Option<Seq<char>> {
    match last_named(m, p, m.len() as int) {
        Some(k) => attr_val(m[k], "Classname"@),
        None => None,
    }
}

/// `path` relative to its ancestor (or itself) `cand`.
pub open spec fn rel_of(path: Seq<char>, cand: Seq<char>) -> Seq<char> {
    if has_prefix(path, cand) && path.len() > cand.len() && path[cand.len() as int] == '.' {
        path.skip(cand.len() + 1int)
    } else {
        Seq::empty()
    }
}

/// The module component `path` inherits from: walk up from `cand` to the nearest
/// instance of a module class the catalog knows, and look up the relative path in
/// its template.
pub open spec fn inherited_from(m: Seq<NodeV>, cat: Seq<TemplateV>, path: Seq<char>, cand: Seq<char>) -> Option<
    ModCompV,
>
    decreases cand.len(),
{
    let hit = match class_of_path(m, cand) {
        Some(cls) => cat_find(cat, cls, cat.len() as int),
        None => None,
    };
    match hit {
        Some(t) => match tmpl_find(cat[t].entries, rel_of(path, cand), cat[t].entries.len() as int) {
            Some(e) => Some(cat[t].entries[e].1),
            None => None,
        },
        None => match parent_of(cand) {
            None => None,
            Some(p) => if p.len() < cand.len() {
                inherited_from(m, cat, path, p)
            } else {
                None
            },
        },
    }
}

fn last_named_exec(d: &Doc, p: &Vec<char>) -> (r: Option<usize>)
    ensures
        r matches Some(k) ==> last_named(d.model(), p@, d.model().len() as int) == Some(k as int) && k
            < d.nodes.len() && crate::query::listed(d.model()[k as int]),
        r is None ==> last_named(d.model(), p@, d.model().len() as int) is None,
{
    let ghost m = d.model();
    let mut i = d.nodes.len();
    while i > 0
        invariant
            i <= d.nodes.len(),
            m == d.model(),
            last_named(m, p@, m.len() as int) == last_named(m, p@, i as int),
        decreases i,
    {
        let n = &d.nodes[i - 1];
        if is_real_component_exec(n) {
            match attr_value_str(n, "Name") {
                Some(v) => {
                    if seq_eq(v, p) {
                        return Some(i - 1);
                    }
                },
                None => {},
            }
        }
        i = i - 1;
    }
    None
}

pub fn class_of_path_exec(d: &Doc, p: &Vec<char>) -> (r: Option<Vec<char>>)
    ensures
        opt_cv(r) == class_of_path(d.model(), p@),
{
    match last_named_exec(d, p) {
        Some(k) => match attr_value_str(&d.nodes[k], "Classname") {
            Some(c) => {
                let cp = subvec(c, 0, c.len());
                assert(cp@ =~= c@);
                Some(cp)
            },
            None => None,
        },
        None => None,
    }
}

fn cat_find_exec(cat: &Vec<ModuleTemplate>, cls: &Vec<char>) -> (r: Option<usize>)
    ensures
        r matches Some(t) ==> cat_find(catalog_view(cat@), cls@, cat@.len() as int) == Some(t as int)
            && t < cat@.len(),
        r is None ==> cat_find(catalog_view(cat@), cls@, cat@.len() as int) is None,
{
    let ghost cv = catalog_view(cat@);
    let mut i = cat.len();
    while i > 0
        invariant
            i <= cat.len(),
            cv == catalog_view(cat@),
            cat_find(cv, cls@, cv.len() as int) == cat_find(cv, cls@, i as int),
        decreases i,
    {
        if seq_eq(&cat[i - 1].class_name, cls) {
            return Some(i - 1);
        }
        i = i - 1;
    }
    None
}

fn tmpl_find_exec(t: &ModuleTemplate, rel: &Vec<char>) -> (r: Option<usize>)
    ensures
        r matches Some(e) ==> tmpl_find(t@.entries, rel@, t@.entries.len() as int) == Some(e as int)
            && e < t.entries@.len(),
        r is None ==> tmpl_find(t@.entries, rel@, t@.entries.len() as int) is None,
{
    let ghost es = t@.entries;
    let mut i = t.entries.len();
    while i > 0
        invariant
            i <= t.entries.len(),
            es == t@.entries,
            tmpl_find(es, rel@, es.len() as int) == tmpl_find(es, rel@, i as int),
        decreases i,
    {
        if seq_eq(&t.entries[i - 1].relative, rel) {
            return Some(i - 1);
        }
        i = i - 1;
    }
    None
}

fn rel_of_exec(path: &Vec<char>, cand: &Vec<char>) -> (r: Vec<char>)
    ensures
        r@ == rel_of(path@, cand@),
{
    if crate::text::starts_with(path, cand) && path.len() > cand.len() && path[cand.len()] == '.' {
        let r = subvec(path, cand.len() + 1, path.len());
        assert(r@ =~= path@.skip(cand@.len() + 1int));
        r
    } else {
        Vec::new()
    }
}

fn copy_comp(c: &ModuleComponent) -> (r: ModuleComponent)
    ensures
        r@ == c@,
{
    let mut tags: Vec<Vec<char>> = Vec::new();
    let mut i: usize = 0;
    while i < c.tags.len()
        invariant
            i <= c.tags.len(),
            view_all(tags@) == view_all(c.tags@).take(i as int),
        decreases c.tags.len() - i,
    {
        let ghost before = view_all(tags@);
        let cp = subvec(&c.tags[i], 0, c.tags[i].len());
        assert(cp@ =~= c.tags@[i as int]@);
        tags.push(cp);
        assert(view_all(tags@) =~= before.push(c.tags@[i as int]@));
        assert(view_all(c.tags@)[i as int] == c.tags@[i as int]@);
        assert(view_all(tags@) =~= view_all(c.tags@).take(i + 1));
        i = i + 1;
    }
    assert(view_all(c.tags@).take(i as int) =~= view_all(c.tags@));
    let tc = match &c.target_creation {
        Some(v) => {
            let cp = subvec(v, 0, v.len());
            assert(cp@ =~= v@);
            Some(cp)
        },
        None => None,
    };
    ModuleComponent { tags, target_creation: tc }
}

pub fn inherited_exec(d: &Doc, cat: &Vec<ModuleTemplate>, path: &Vec<char>) -> (r: Option<ModuleComponent>)
    ensures
        match r {
            Some(c) => inherited_from(d.model(), catalog_view(cat@), path@, path@) == Some(c@),
            None => inherited_from(d.model(), catalog_view(cat@), path@, path@) is None,
        },
{
    let ghost m = d.model();
    let ghost cv = catalog_view(cat@);
    let mut cand = subvec(path, 0, path.len());
    assert(cand@ =~= path@);
    loop
        invariant
            m == d.model(),
            cv == catalog_view(cat@),
            inherited_from(m, cv, path@, path@) == inherited_from(m, cv, path@, cand@),
        decreases cand.len(),
    {
        let hit = match class_of_path_exec(d, &cand) {
            Some(cls) => cat_find_exec(cat, &cls),
            None => None,
        };
        match hit {
            Some(t) => {
                assert(cv[t as int] == cat@[t as int]@);
                let rel = rel_of_exec(path, &cand);
                return match tmpl_find_exec(&cat[t], &rel) {
                    Some(e) => {
                        assert(cat@[t as int]@.entries[e as int] == (cat[t as int].entries@[e as int].relative@, cat[t as int].entries@[e as int].component@));
                        Some(copy_comp(&cat[t].entries[e].component))
                    },
                    None => None,
                };
            },
            None => {},
        }
        match parent_of_exec(&cand) {
            None => return None,
            Some(p) => {
                if p.len() < cand.len() {
                    cand = p;
                } else {
                    return None;
                }
            },
        }
    }
}

// ---- per-component checks -------------------------------------------------------------

/// The tags a component is checked with: its own when its `<Props>` sets any; a
/// Reference that chooses a `TargetCreation` inherits its module template's tags;
/// otherwise none.
pub open spec fn eff_tags(m: Seq<NodeV>, cat: Seq<TemplateV>, k: int) -> Seq<Seq<char>> {
    let nm = attr_val(m[k], "Name"@).unwrap();
    let cls = attr_val(m[k], "Classname"@).unwrap();
    if overrides_tags(m, k) {
        component_tags(m, k)
    } else if cls == "BuiltIn.Reference"@ && props_attr(m, k, "TargetCreation"@) is Some {
        match inherited_from(m, cat, nm, nm) {
            Some(c) => c.tags,
            None => Seq::empty(),
        }
    } else {
        Seq::empty()
    }
}

pub open spec fn quote_all(tags: Seq<Seq<char>>) -> Seq<Seq<char>> {
    tags.map_values(|t: Seq<char>| "`"@ + t + "`"@)
}

/// Warning 1141: more than one tag of a single-select group.
#[verifier::opaque]
pub open spec fn conflict(nm: Seq<char>, tags: Seq<Seq<char>>, group: Seq<Seq<char>>, gname: Seq<char>) -> Seq<
    FindingV,
> {
    let sel = tags_in_group(tags, group);
    if sel.len() > 1 {
        seq![
            fv(
                FindingLevel::Warning,
                nm,
                "conflicting tags "@ + crate::edits::join_with(quote_all(sel), " and "@)
                    + " are all in the single-select "@ + gname
                    + " group; replace them with one group member (M1 Build warning 1141)"@,
                Some(1141),
            ),
        ]
    } else {
        Seq::empty()
    }
}

/// An IO resource that creates an assigned parameter.
pub open spec fn assigned_io(m: Seq<NodeV>, k: int) -> bool {
    let cls = attr_val(m[k], "Classname"@).unwrap();
    (cls == "BuiltIn.IOResourceValueInput"@ || cls == "BuiltIn.IOResourceValueOutput"@) && props_attr(
        m,
        k,
        "NameCreation"@,
    ) == Some("AutoParam"@)
}

pub open spec fn required_io(cls: Seq<char>) -> Seq<char> {
    if cls == "BuiltIn.IOResourceValueOutput"@ {
        "Output"@
    } else {
        "Input"@
    }
}

/// The class a `TargetCreation` choice generates.
pub open spec fn generated_class(tc: Option<Seq<char>>) -> Option<Seq<char>> {
    match tc {
        Some(t) => if t == "AutoChannel"@ {
            Some("BuiltIn.Channel"@)
        } else if t == "AutoParam"@ {
            Some("BuiltIn.Parameter"@)
        } else if t == "AutoConst"@ {
            Some("BuiltIn.Constant"@)
        } else if t == "AutoTable"@ {
            Some("BuiltIn.Table"@)
        } else {
            None
        },
        None => None,
    }
}

/// The object tags apply to and its class: a Reference's or an assigned IO
/// resource's generated `.Value`, otherwise the component itself.
pub open spec fn effective(m: Seq<NodeV>, cat: Seq<TemplateV>, k: int) -> (Seq<char>, Seq<char>) {
    let nm = attr_val(m[k], "Name"@).unwrap();
    let cls = attr_val(m[k], "Classname"@).unwrap();
    let gvp = nm + ".Value"@;
    let gvc = class_of_path(m, gvp);
    if cls == "BuiltIn.Reference"@ {
        let tc = match props_attr(m, k, "TargetCreation"@) {
            Some(t) => Some(t),
            None => match inherited_from(m, cat, nm, nm) {
                Some(c) => c.tc,
                None => None,
            },
        };
        match generated_class(tc) {
            Some(g) => (gvp, g),
            None => match gvc {
                Some(g) => (gvp, g),
                None => (nm, cls),
            },
        }
    } else if assigned_io(m, k) {
        (
            if gvc is Some {
                gvp
            } else {
                nm
            },
            match gvc {
                Some(g) => g,
                None => "BuiltIn.Parameter"@,
            },
        )
    } else {
        (nm, cls)
    }
}

pub open spec fn setup_class(c: Seq<char>) -> bool {
    c == "BuiltIn.Parameter"@ || c == "BuiltIn.Constant"@ || c == "BuiltIn.Table"@ || c
        == "BuiltIn.CalibrationTable"@
}

/// Warnings 1140 (a tag the effective class does not support) and 1648 (an
/// assigned IO resource without the complete `Setup` + direction pair).
#[verifier::opaque]
pub open spec fn legality(m: Seq<NodeV>, cat: Seq<TemplateV>, k: int) -> Seq<FindingV> {
    let nm = attr_val(m[k], "Name"@).unwrap();
    let cls = attr_val(m[k], "Classname"@).unwrap();
    let tags = eff_tags(m, cat, k);
    let (ep, ec) = effective(m, cat, k);
    let aio = assigned_io(m, k);
    let rio = required_io(cls);
    let pin_ill = any_ic(tags, "Pin"@) && ec != "BuiltIn.Channel"@;
    let setup_ill = any_ic(tags, "Setup"@) && !setup_class(ec) && !aio;
    if pin_ill || setup_ill {
        let illegal = if pin_ill {
            "Pin"@
        } else {
            "Setup"@
        };
        let legal = if aio {
            "Setup + "@ + rio
        } else if setup_class(ec) {
            "Setup"@
        } else {
            "Normal"@
        };
        seq![
            fv(
                FindingLevel::Warning,
                ep,
                "tag `"@ + illegal + "` is unsupported on "@ + ec + "; replace it with the legal tag set "@
                    + legal + " (M1 Build warning 1140)"@,
                Some(1140),
            ),
        ]
    } else if aio && !(any_ic(tags, "Setup"@) && any_ic(tags, rio)) {
        seq![
            fv(
                FindingLevel::Warning,
                nm,
                "assigned IO resource needs the complete tag set Setup + "@ + rio
                    + "; replace any conflicting Type tag with Setup rather than adding a second Type tag (M1 Build warning 1648)"@,
                Some(1648),
            ),
        ]
    } else {
        Seq::empty()
    }
}

/// An enum type: `::`-anchored, or dotted and not a `$(…)` expression.
pub open spec fn is_enum_type(ty: Option<Seq<char>>) -> bool {
    match ty {
        Some(t) => has_prefix(t, "::"@) || (find_seq(t, "."@) is Some && !has_prefix(t, "$("@)),
        None => false,
    }
}

/// Warning 1647: an enum-typed `State` channel without the `Normal` tag.
#[verifier::opaque]
pub open spec fn state_check(m: Seq<NodeV>, cat: Seq<TemplateV>, k: int) -> Seq<FindingV> {
    let nm = attr_val(m[k], "Name"@).unwrap();
    let cls = attr_val(m[k], "Classname"@).unwrap();
    if cls == "BuiltIn.Channel"@ && last_segment(nm) == "State"@ && is_enum_type(props_attr(m, k, "Type"@))
        && !any_ic(eff_tags(m, cat, k), "Normal"@) {
        seq![
            fv(
                FindingLevel::Warning,
                nm,
                "enum-typed State channel needs the Normal Type tag; replace the existing Type tag with Normal rather than adding a conflicting tag (M1 Build warning 1647)"@,
                Some(1647),
            ),
        ]
    } else {
        Seq::empty()
    }
}

/// A blank last segment, else error 1132 for an invalid one.
#[verifier::opaque]
pub open spec fn name_check(nm: Seq<char>) -> Seq<FindingV> {
    let seg = last_segment(nm);
    if trim(seg).len() == 0 {
        seq![
            fv(
                FindingLevel::Error,
                nm,
                "component Name segment is empty or whitespace-only \u{2014} M1-Build cannot use it as a named object"@,
                None,
            ),
        ]
    } else {
        match name_reason(seg) {
            Some(r) => seq![
                fv(
                    FindingLevel::Error,
                    nm,
                    "object name `"@ + seg + "` is not a valid M1 object name: "@ + r
                        + " \u{2014} M1-Build rejects this with Error 1132"@,
                    Some(1132),
                ),
            ],
            None => Seq::empty(),
        }
    }
}

/// A scheduled function without a trigger; a channel/parameter without a security
/// group (1601); a security group the project does not declare (1601).
#[verifier::opaque]
pub open spec fn props_checks(m: Seq<NodeV>, k: int, roles: Option<Seq<Seq<char>>>) -> Seq<FindingV> {
    let nm = attr_val(m[k], "Name"@).unwrap();
    let cls = attr_val(m[k], "Classname"@).unwrap();
    let trig = props_attr(m, k, "SelectedTrigger"@);
    let sec = props_attr(m, k, "Security"@);
    (if cls == "BuiltIn.FuncUser"@ && (trig is None || trim(trig.unwrap()).len() == 0) {
        seq![
            fv(
                FindingLevel::Error,
                nm,
                "scheduled function has no event selected (SelectedTrigger) \u{2014} it will never run"@,
                None,
            ),
        ]
    } else {
        Seq::empty()
    }) + (if (cls == "BuiltIn.Channel"@ || cls == "BuiltIn.Parameter"@) && sec is None {
        seq![
            fv(
                FindingLevel::Error,
                nm,
                "no security group selected \u{2014} a channel/parameter needs a Security level"@,
                Some(1601),
            ),
        ]
    } else {
        Seq::empty()
    }) + (match (roles, sec) {
        (Some(rs), Some(sv)) => if !rs.contains(sv) {
            seq![
                fv(
                    FindingLevel::Error,
                    nm,
                    "Security group `"@ + sv
                        + "` is not declared in the project's <SecurityRoles> \u{2014} M1-Build cannot bind it"@,
                    Some(1601),
                ),
            ]
        } else {
            Seq::empty()
        },
        _ => Seq::empty(),
    })
}

/// Every finding of one listed component, in the order the checks run.
pub open spec fn comp_findings(m: Seq<NodeV>, cat: Seq<TemplateV>, roles: Option<Seq<Seq<char>>>, k: int) -> Seq<
    FindingV,
> {
    let nm = attr_val(m[k], "Name"@).unwrap();
    let tags = eff_tags(m, cat, k);
    conflict(nm, tags, system_tags(), "System"@) + conflict(nm, tags, type_tags(), "Type"@) + conflict(
        nm,
        tags,
        io_tags(),
        "Input/Output"@,
    ) + legality(m, cat, k) + state_check(m, cat, k) + name_check(nm) + props_checks(m, k, roles)
}

fn strv(lit: &str) -> (r: Vec<char>)
    ensures
        r@ == lit@,
{
    chars_of(lit)
}

fn cat3(a: &str, b: &Vec<char>, c: &str) -> (r: Vec<char>)
    ensures
        r@ == a@ + b@ + c@,
{
    let mut r = chars_of(a);
    push_all(&mut r, b);
    push_str(&mut r, c);
    r
}

fn eff_tags_exec(d: &Doc, cat: &Vec<ModuleTemplate>, k: usize) -> (r: Vec<Vec<char>>)
    requires
        d.wf(),
        k < d.nodes.len(),
        crate::query::listed(d.model()[k as int]),
    ensures
        view_all(r@) == eff_tags(d.model(), catalog_view(cat@), k as int),
{
    let ghost m = d.model();
    assert(node_wf(m, k as int, d.text@.len() as int));
    let nm = attr_value_str(&d.nodes[k], "Name").unwrap();
    let cls = attr_value_str(&d.nodes[k], "Classname").unwrap();
    if overrides_tags_exec(d, k) {
        return component_tags_exec(d, k);
    }
    let p = d.first_child(k, "Props");
    let has_tc = match p {
        Some(pk) => attr_index(&d.nodes[pk], &chars_of("TargetCreation")).is_some(),
        None => false,
    };
    if eq_str(cls, "BuiltIn.Reference") && has_tc {
        match inherited_exec(d, cat, nm) {
            Some(c) => c.tags,
            None => {
                let r: Vec<Vec<char>> = Vec::new();
                assert(view_all(r@) =~= Seq::<Seq<char>>::empty());
                r
            },
        }
    } else {
        let r: Vec<Vec<char>> = Vec::new();
        assert(view_all(r@) =~= Seq::<Seq<char>>::empty());
        r
    }
}

fn conflict_exec(nm: &Vec<char>, tags: &Vec<Vec<char>>, group: &Vec<Vec<char>>, gname: &str, out: &mut Vec<Finding>)
    ensures
        findings_view(final(out)@) == findings_view(old(out)@) + conflict(nm@, view_all(tags@), view_all(group@), gname@),
{
    proof {
        reveal(conflict);
    }
    let sel = tags_in_group_exec(tags, group);
    if sel.len() > 1 {
        let mut q: Vec<Vec<char>> = Vec::new();
        let mut i: usize = 0;
        while i < sel.len()
            invariant
                i <= sel.len(),
                view_all(q@) == quote_all(view_all(sel@)).take(i as int),
            decreases sel.len() - i,
        {
            let ghost before = view_all(q@);
            let x = cat3("`", &sel[i], "`");
            q.push(x);
            assert(view_all(q@) =~= before.push(x@));
            assert(view_all(q@) =~= quote_all(view_all(sel@)).take(i + 1));
            i = i + 1;
        }
        assert(quote_all(view_all(sel@)).take(i as int) =~= quote_all(view_all(sel@)));
        let mut msg = strv("conflicting tags ");
        push_all(&mut msg, &crate::edits::join_with_exec(&q, " and "));
        push_str(&mut msg, " are all in the single-select ");
        push_str(&mut msg, gname);
        push_str(&mut msg, " group; replace them with one group member (M1 Build warning 1141)");
        let f = mk_finding(FindingLevel::Warning, nm, &msg, Some(1141));
        push_finding(out, f);
        assert(findings_view(out@) =~= findings_view(old(out)@) + conflict(nm@, view_all(tags@), view_all(group@), gname@));
    } else {
        assert(findings_view(out@) =~= findings_view(old(out)@) + Seq::<FindingV>::empty());
    }
}

fn assigned_io_exec(d: &Doc, k: usize) -> (b: bool)
    requires
        d.wf(),
        k < d.nodes.len(),
        crate::query::listed(d.model()[k as int]),
    ensures
        b == assigned_io(d.model(), k as int),
{
    let ghost m = d.model();
    assert(node_wf(m, k as int, d.text@.len() as int));
    let cls = attr_value_str(&d.nodes[k], "Classname").unwrap();
    if !(eq_str(cls, "BuiltIn.IOResourceValueInput") || eq_str(cls, "BuiltIn.IOResourceValueOutput")) {
        return false;
    }
    match d.first_child(k, "Props") {
        Some(p) => match attr_value_str(&d.nodes[p], "NameCreation") {
            Some(v) => eq_str(v, "AutoParam"),
            None => false,
        },
        None => false,
    }
}

fn generated_class_exec(tc: &Option<Vec<char>>) -> (r: Option<Vec<char>>)
    ensures
        opt_cv(r) == generated_class(opt_cv(*tc)),
{
    match tc {
        Some(t) => {
            if eq_str(t, "AutoChannel") {
                Some(strv("BuiltIn.Channel"))
            } else if eq_str(t, "AutoParam") {
                Some(strv("BuiltIn.Parameter"))
            } else if eq_str(t, "AutoConst") {
                Some(strv("BuiltIn.Constant"))
            } else if eq_str(t, "AutoTable") {
                Some(strv("BuiltIn.Table"))
            } else {
                None
            }
        },
        None => None,
    }
}

fn effective_exec(d: &Doc, cat: &Vec<ModuleTemplate>, k: usize) -> (r: (Vec<char>, Vec<char>))
    requires
        d.wf(),
        k < d.nodes.len(),
        crate::query::listed(d.model()[k as int]),
    ensures
        (r.0@, r.1@) == effective(d.model(), catalog_view(cat@), k as int),
{
    let ghost m = d.model();
    assert(node_wf(m, k as int, d.text@.len() as int));
    let nm = attr_value_str(&d.nodes[k], "Name").unwrap();
    let cls = attr_value_str(&d.nodes[k], "Classname").unwrap();
    let mut gvp = subvec(nm, 0, nm.len());
    push_str(&mut gvp, ".Value");
    assert(gvp@ =~= nm@ + ".Value"@);
    let gvc = class_of_path_exec(d, &gvp);
    let nmc = subvec(nm, 0, nm.len());
    let clsc = subvec(cls, 0, cls.len());
    assert(nmc@ =~= nm@);
    assert(clsc@ =~= cls@);
    if eq_str(cls, "BuiltIn.Reference") {
        let p = d.first_child(k, "Props");
        let own = match p {
            Some(pk) => match attr_value_str(&d.nodes[pk], "TargetCreation") {
                Some(v) => {
                    let cp = subvec(v, 0, v.len());
                    assert(cp@ =~= v@);
                    Some(cp)
                },
                None => None,
            },
            None => None,
        };
        let tc = match own {
            Some(t) => Some(t),
            None => match inherited_exec(d, cat, nm) {
                Some(c) => c.target_creation,
                None => None,
            },
        };
        match generated_class_exec(&tc) {
            Some(g) => (gvp, g),
            None => match gvc {
                Some(g) => (gvp, g),
                None => (nmc, clsc),
            },
        }
    } else if assigned_io_exec(d, k) {
        match gvc {
            Some(g) => (gvp, g),
            None => (nmc, strv("BuiltIn.Parameter")),
        }
    } else {
        (nmc, clsc)
    }
}

fn setup_class_exec(c: &Vec<char>) -> (b: bool)
    ensures
        b == setup_class(c@),
{
    eq_str(c, "BuiltIn.Parameter") || eq_str(c, "BuiltIn.Constant") || eq_str(c, "BuiltIn.Table")
        || eq_str(c, "BuiltIn.CalibrationTable")
}

fn has_tag_exec(tags: &Vec<Vec<char>>, t: &str) -> (b: bool)
    ensures
        b == any_ic(view_all(tags@), t@),
{
    any_ic_exec(tags, &chars_of(t))
}

fn legality_exec(d: &Doc, cat: &Vec<ModuleTemplate>, k: usize, tags: &Vec<Vec<char>>, out: &mut Vec<Finding>)
    requires
        d.wf(),
        k < d.nodes.len(),
        crate::query::listed(d.model()[k as int]),
        view_all(tags@) == eff_tags(d.model(), catalog_view(cat@), k as int),
    ensures
        findings_view(final(out)@) == findings_view(old(out)@) + legality(d.model(), catalog_view(cat@), k as int),
{
    proof {
        reveal(legality);
    }
    let ghost m = d.model();
    let nm = attr_value_str(&d.nodes[k], "Name").unwrap();
    let cls = attr_value_str(&d.nodes[k], "Classname").unwrap();
    let (ep, ec) = effective_exec(d, cat, k);
    let aio = assigned_io_exec(d, k);
    let rio = if eq_str(cls, "BuiltIn.IOResourceValueOutput") {
        strv("Output")
    } else {
        strv("Input")
    };
    let pin_ill = has_tag_exec(tags, "Pin") && !eq_str(&ec, "BuiltIn.Channel");
    let setup_ill = has_tag_exec(tags, "Setup") && !setup_class_exec(&ec) && !aio;
    if pin_ill || setup_ill {
        let illegal = if pin_ill {
            strv("Pin")
        } else {
            strv("Setup")
        };
        let legal = if aio {
            let mut l = strv("Setup + ");
            push_all(&mut l, &rio);
            l
        } else if setup_class_exec(&ec) {
            strv("Setup")
        } else {
            strv("Normal")
        };
        let mut msg = cat3("tag `", &illegal, "` is unsupported on ");
        push_all(&mut msg, &ec);
        push_str(&mut msg, "; replace it with the legal tag set ");
        push_all(&mut msg, &legal);
        push_str(&mut msg, " (M1 Build warning 1140)");
        let f = mk_finding(FindingLevel::Warning, &ep, &msg, Some(1140));
        push_finding(out, f);
        assert(findings_view(out@) =~= findings_view(old(out)@) + legality(m, catalog_view(cat@), k as int));
    } else if aio && !(has_tag_exec(tags, "Setup") && any_ic_exec(tags, &rio)) {
        let mut msg = cat3("assigned IO resource needs the complete tag set Setup + ", &rio, "; replace any conflicting Type tag with Setup rather than adding a second Type tag (M1 Build warning 1648)");
        let f = mk_finding(FindingLevel::Warning, nm, &msg, Some(1648));
        push_finding(out, f);
        assert(findings_view(out@) =~= findings_view(old(out)@) + legality(m, catalog_view(cat@), k as int));
    } else {
        assert(findings_view(out@) =~= findings_view(old(out)@) + legality(m, catalog_view(cat@), k as int));
    }
}

fn is_enum_type_exec(t: Option<&Vec<char>>) -> (b: bool)
    ensures
        b == is_enum_type(match t {
            Some(v) => Some(v@),
            None => None::<Seq<char>>,
        }),
{
    match t {
        Some(v) => starts_with_str(v, "::") || (contains_str(v, ".") && !starts_with_str(v, "$(")),
        None => false,
    }
}

fn state_exec(d: &Doc, cat: &Vec<ModuleTemplate>, k: usize, tags: &Vec<Vec<char>>, out: &mut Vec<Finding>)
    requires
        d.wf(),
        k < d.nodes.len(),
        crate::query::listed(d.model()[k as int]),
        view_all(tags@) == eff_tags(d.model(), catalog_view(cat@), k as int),
    ensures
        findings_view(final(out)@) == findings_view(old(out)@) + state_check(d.model(), catalog_view(cat@), k as int),
{
    proof {
        reveal(state_check);
    }
    let ghost m = d.model();
    assert(node_wf(m, k as int, d.text@.len() as int));
    let nm = attr_value_str(&d.nodes[k], "Name").unwrap();
    let cls = attr_value_str(&d.nodes[k], "Classname").unwrap();
    let ty = match d.first_child(k, "Props") {
        Some(p) => attr_value_str(&d.nodes[p], "Type"),
        None => None,
    };
    let seg = last_segment_exec(nm);
    if eq_str(cls, "BuiltIn.Channel") && eq_str(&seg, "State") && is_enum_type_exec(ty) && !has_tag_exec(tags, "Normal") {
        let msg = strv("enum-typed State channel needs the Normal Type tag; replace the existing Type tag with Normal rather than adding a conflicting tag (M1 Build warning 1647)");
        push_finding(out, mk_finding(FindingLevel::Warning, nm, &msg, Some(1647)));
        assert(findings_view(out@) =~= findings_view(old(out)@) + state_check(m, catalog_view(cat@), k as int));
    } else {
        assert(findings_view(out@) =~= findings_view(old(out)@) + state_check(m, catalog_view(cat@), k as int));
    }
}

fn name_check_exec(nm: &Vec<char>, out: &mut Vec<Finding>)
    ensures
        findings_view(final(out)@) == findings_view(old(out)@) + name_check(nm@),
{
    proof {
        reveal(name_check);
    }
    let seg = last_segment_exec(nm);
    let t = trim_exec(&seg);
    if t.len() == 0 {
        let msg = strv("component Name segment is empty or whitespace-only \u{2014} M1-Build cannot use it as a named object");
        push_finding(out, mk_finding(FindingLevel::Error, nm, &msg, None));
        assert(findings_view(out@) =~= findings_view(old(out)@) + name_check(nm@));
    } else {
        let ss = string_of(&seg);
        match invalid_name_segment_reason(ss.as_str()) {
            Some(r) => {
                let mut msg = cat3("object name `", &seg, "` is not a valid M1 object name: ");
                push_all(&mut msg, &crate::text::chars_of_string(&r));
                push_str(&mut msg, " \u{2014} M1-Build rejects this with Error 1132");
                push_finding(out, mk_finding(FindingLevel::Error, nm, &msg, Some(1132)));
                assert(findings_view(out@) =~= findings_view(old(out)@) + name_check(nm@));
            },
            None => {
                assert(findings_view(out@) =~= findings_view(old(out)@) + name_check(nm@));
            },
        }
    }
}

fn props_checks_exec(d: &Doc, k: usize, roles: &Option<Vec<Vec<char>>>, out: &mut Vec<Finding>)
    requires
        d.wf(),
        k < d.nodes.len(),
        crate::query::listed(d.model()[k as int]),
    ensures
        findings_view(final(out)@) == findings_view(old(out)@) + props_checks(d.model(), k as int, match roles {
            Some(v) => Some(view_all(v@)),
            None => None,
        }),
{
    proof {
        reveal(props_checks);
    }
    let ghost m = d.model();
    assert(node_wf(m, k as int, d.text@.len() as int));
    let nm = attr_value_str(&d.nodes[k], "Name").unwrap();
    let cls = attr_value_str(&d.nodes[k], "Classname").unwrap();
    let p = d.first_child(k, "Props");
    let trig = match p {
        Some(pk) => attr_value_str(&d.nodes[pk], "SelectedTrigger"),
        None => None,
    };
    let sec = match p {
        Some(pk) => attr_value_str(&d.nodes[pk], "Security"),
        None => None,
    };
    let ghost o0 = findings_view(out@);
    let no_trig = match trig {
        Some(t) => trim_exec(t).len() == 0,
        None => true,
    };
    if eq_str(cls, "BuiltIn.FuncUser") && no_trig {
        let msg = strv("scheduled function has no event selected (SelectedTrigger) \u{2014} it will never run");
        push_finding(out, mk_finding(FindingLevel::Error, nm, &msg, None));
    }
    let ghost o1 = findings_view(out@);
    if (eq_str(cls, "BuiltIn.Channel") || eq_str(cls, "BuiltIn.Parameter")) && sec.is_none() {
        let msg = strv("no security group selected \u{2014} a channel/parameter needs a Security level");
        push_finding(out, mk_finding(FindingLevel::Error, nm, &msg, Some(1601)));
    }
    let ghost o2 = findings_view(out@);
    match (roles, sec) {
        (Some(rs), Some(sv)) => {
            if !contains_exact(rs, sv) {
                let msg = cat3("Security group `", sv, "` is not declared in the project's <SecurityRoles> \u{2014} M1-Build cannot bind it");
                push_finding(out, mk_finding(FindingLevel::Error, nm, &msg, Some(1601)));
            }
        },
        _ => {},
    }
    assert(findings_view(out@) =~= findings_view(old(out)@) + props_checks(m, k as int, match roles {
        Some(v) => Some(view_all(v@)),
        None => None,
    }));
}

/// Append the findings of one listed component.
fn comp_findings_exec(
    d: &Doc,
    cat: &Vec<ModuleTemplate>,
    roles: &Option<Vec<Vec<char>>>,
    k: usize,
    groups: &(Vec<Vec<char>>, Vec<Vec<char>>, Vec<Vec<char>>),
    out: &mut Vec<Finding>,
)
    requires
        d.wf(),
        k < d.nodes.len(),
        crate::query::listed(d.model()[k as int]),
        view_all(groups.0@) == system_tags(),
        view_all(groups.1@) == type_tags(),
        view_all(groups.2@) == io_tags(),
    ensures
        findings_view(final(out)@) == findings_view(old(out)@) + comp_findings(
            d.model(),
            catalog_view(cat@),
            match roles {
                Some(v) => Some(view_all(v@)),
                None => None,
            },
            k as int,
        ),
{
    let nm = attr_value_str(&d.nodes[k], "Name").unwrap();
    let tags = eff_tags_exec(d, cat, k);
    conflict_exec(nm, &tags, &groups.0, "System", out);
    conflict_exec(nm, &tags, &groups.1, "Type", out);
    conflict_exec(nm, &tags, &groups.2, "Input/Output", out);
    legality_exec(d, cat, k, &tags, out);
    state_exec(d, cat, k, &tags, out);
    name_check_exec(nm, out);
    props_checks_exec(d, k, roles, out);
    assert(findings_view(out@) =~= findings_view(old(out)@) + comp_findings(
        d.model(),
        catalog_view(cat@),
        match roles {
            Some(v) => Some(view_all(v@)),
            None => None,
        },
        k as int,
    ));
}

fn tag_groups() -> (r: (Vec<Vec<char>>, Vec<Vec<char>>, Vec<Vec<char>>))
    ensures
        view_all(r.0@) == system_tags(),
        view_all(r.1@) == type_tags(),
        view_all(r.2@) == io_tags(),
{
    let a = lit_list(&["Engine", "Vehicle", "Driver"]);
    let b = lit_list(&["Normal", "Diagnostic", "Advanced", "Setup", "Tune", "Pin"]);
    let c = lit_list(&["Input", "Output"]);
    assert(view_all(a@) =~= system_tags());
    assert(view_all(b@) =~= type_tags());
    assert(view_all(c@) =~= io_tags());
    (a, b, c)
}

// ---- checks across components ----------------------------------------------------------

pub open spec fn name_of(m: Seq<NodeV>, k: int) -> Seq<char> {
    attr_val(m[k], "Name"@).unwrap()
}

/// Node `k` is the first listed component with its name.
pub open spec fn first_of_name(m: Seq<NodeV>, k: int) -> bool {
    crate::query::listed(m[k]) && find_component(m, name_of(m, k)) == Some(k)
}

/// The findings of every listed component among nodes `i..`.
pub open spec fn all_comp_findings(m: Seq<NodeV>, cat: Seq<TemplateV>, roles: Option<Seq<Seq<char>>>, i: int) -> Seq<
    FindingV,
>
    decreases m.len() - i,
{
    if i < 0 || i >= m.len() {
        Seq::empty()
    } else if crate::query::listed(m[i]) {
        comp_findings(m, cat, roles, i) + all_comp_findings(m, cat, roles, i + 1)
    } else {
        all_comp_findings(m, cat, roles, i + 1)
    }
}

/// Warning 1649: a `Sensor`'s `.Value` (by the tags of the last component with
/// that name) without the `Normal` tag.
pub open spec fn sensor_from(m: Seq<NodeV>, cat: Seq<TemplateV>, i: int) -> Seq<FindingV>
    decreases m.len() - i,
{
    if i < 0 || i >= m.len() {
        Seq::empty()
    } else {
        let rest = sensor_from(m, cat, i + 1);
        if first_of_name(m, i) && last_segment(name_of(m, i)) == "Sensor"@ {
            let value = name_of(m, i) + ".Value"@;
            match last_named(m, value, m.len() as int) {
                Some(j) => if !any_ic(eff_tags(m, cat, j), "Normal"@) {
                    seq![
                        fv(
                            FindingLevel::Warning,
                            value,
                            "Sensor.Value needs the Normal Type tag; replace the existing Type tag with Normal rather than adding a conflicting tag (M1 Build warning 1649)"@,
                            Some(1649),
                        ),
                    ] + rest
                } else {
                    rest
                },
                None => rest,
            }
        } else {
            rest
        }
    }
}

/// The sibling key of a name: its parent path (empty at the top) and last segment.
pub open spec fn sib_key(nm: Seq<char>) -> (Seq<char>, Seq<char>) {
    (
        match parent_of(nm) {
            Some(p) => p,
            None => Seq::empty(),
        },
        last_segment(nm),
    )
}

/// Some listed component among nodes `lo..hi` other than `k` has sibling key `key`.
pub open spec fn key_in(m: Seq<NodeV>, key: (Seq<char>, Seq<char>), k: int, lo: int, hi: int) -> bool {
    exists|j: int| lo <= j < hi && j != k && crate::query::listed(m[j]) && #[trigger] sib_key(name_of(m, j)) == key
}

/// Duplicate sibling names: one error per sibling key held by two components,
/// at the key's first holder.
pub open spec fn dup_from(m: Seq<NodeV>, i: int) -> Seq<FindingV>
    decreases m.len() - i,
{
    if i < 0 || i >= m.len() {
        Seq::empty()
    } else {
        let rest = dup_from(m, i + 1);
        if crate::query::listed(m[i]) {
            let key = sib_key(name_of(m, i));
            if !key_in(m, key, i, 0, i) && key_in(m, key, i, i + 1, m.len() as int) {
                seq![
                    fv(
                        FindingLevel::Error,
                        if key.0.len() == 0 {
                            key.1
                        } else {
                            key.0 + "."@ + key.1
                        },
                        "duplicate sibling Name `"@ + key.1 + "` under `"@ + key.0 + "`"@,
                        None,
                    ),
                ] + rest
            } else {
                rest
            }
        } else {
            rest
        }
    }
}

/// A listed component named `p` is a clock.
pub open spec fn is_clock(m: Seq<NodeV>, p: Seq<char>) -> bool {
    exists|j: int| 0 <= j < m.len() && crate::query::listed(m[j]) && #[trigger] name_of(m, j) == p && attr_val(
        m[j],
        "Classname"@,
    ) == Some("BuiltIn.EventKernel"@)
}

/// A trigger that names the startup event or a `$(…)` expression.
pub open spec fn trigger_exempt(t: Seq<char>) -> bool {
    eq_ignore_ascii_case(t, "startup"@) || has_suffix(t, ".On Startup"@) || t == "On Startup"@ || has_prefix(
        t,
        "$("@,
    )
}

/// Every `SelectedTrigger` must resolve to a clock.
pub open spec fn trig_from(m: Seq<NodeV>, i: int) -> Seq<FindingV>
    decreases m.len() - i,
{
    if i < 0 || i >= m.len() {
        Seq::empty()
    } else {
        let rest = trig_from(m, i + 1);
        let t = props_attr(m, i, "SelectedTrigger"@);
        if crate::query::listed(m[i]) && t is Some && !trigger_exempt(t.unwrap()) {
            let owner = name_of(m, i);
            let tr = t.unwrap();
            match crate::query::resolve_trigger_spec(owner, tr) {
                None => seq![
                    fv(
                        FindingLevel::Error,
                        owner,
                        "cannot resolve SelectedTrigger `"@ + tr + "` (malformed relative path)"@,
                        None,
                    ),
                ] + rest,
                Some(abs) => if !is_clock(m, abs) {
                    seq![
                        fv(
                            FindingLevel::Error,
                            owner,
                            "SelectedTrigger `"@ + tr + "` resolves to `"@ + abs
                                + "` which is not a BuiltIn.EventKernel clock"@,
                            None,
                        ),
                    ] + rest
                } else {
                    rest
                },
            }
        } else {
            rest
        }
    }
}

/// The path or one of its ancestors is a component.
pub open spec fn resolves_in(m: Seq<NodeV>, abs: Seq<char>) -> bool {
    exists|i: int| 0 <= i < crate::query::ref_candidates(abs).len() && #[trigger] find_component(
        m,
        crate::query::ref_candidates(abs)[i],
    ) is Some
}

/// The check of one reference attribute of component `k`.
pub open spec fn ref_check(m: Seq<NodeV>, k: int, attr: Seq<char>) -> Seq<FindingV> {
    let owner = name_of(m, k);
    match props_attr(m, k, attr) {
        None => Seq::empty(),
        Some(v) => if has_prefix(v, "$("@) {
            Seq::empty()
        } else {
            match crate::query::resolve_reference_spec(owner, v) {
                None => seq![
                    fv(
                        FindingLevel::Error,
                        owner,
                        "cannot resolve "@ + attr + " `"@ + v + "` (malformed relative path)"@,
                        None,
                    ),
                ],
                Some(abs) => if !resolves_in(m, abs) {
                    seq![
                        fv(
                            FindingLevel::Error,
                            owner,
                            attr + " `"@ + v + "` resolves to `"@ + abs
                                + "`, which is not a component (dangling reference \u{2014} M1-Build Error 1338)"@,
                            None,
                        ),
                    ]
                } else {
                    Seq::empty()
                },
            }
        },
    }
}

/// Every component reference (`Source`, `Target`, `NameTarget`) must resolve.
pub open spec fn refs_check_from(m: Seq<NodeV>, i: int) -> Seq<FindingV>
    decreases m.len() - i,
{
    if i < 0 || i >= m.len() {
        Seq::empty()
    } else if crate::query::listed(m[i]) {
        ref_check(m, i, "Source"@) + ref_check(m, i, "Target"@) + ref_check(m, i, "NameTarget"@)
            + refs_check_from(m, i + 1)
    } else {
        refs_check_from(m, i + 1)
    }
}

/// The dotted path of view node `k`: its `Name` below its view parent's path (or
/// alone right below an `<Organisation>`); `None` when `k` is not a view node.
pub open spec fn org_path(m: Seq<NodeV>, k: int) -> Option<Seq<char>>
    decreases k,
{
    if k < 0 || k >= m.len() || !is_elem(m[k], "Component"@) || attr_val(m[k], "Name"@) is None {
        None
    } else {
        let name = attr_val(m[k], "Name"@).unwrap();
        match m[k].parent {
            None => None,
            Some(p) => if p as int >= k {
                None
            } else if is_elem(m[p as int], "Organisation"@) {
                Some(name)
            } else {
                match org_path(m, p as int) {
                    None => None,
                    Some(pp) => Some(
                        if pp.len() == 0 {
                            name
                        } else {
                            pp + "."@ + name
                        },
                    ),
                }
            },
        }
    }
}

pub open spec fn in_org(m: Seq<NodeV>, path: Seq<char>) -> bool {
    exists|k: int| 0 <= k < m.len() && #[trigger] org_path(m, k) == Some(path)
}

pub open spec fn has_org(m: Seq<NodeV>) -> bool {
    exists|k: int| 0 <= k < m.len() && #[trigger] is_elem(m[k], "Organisation"@)
}

/// View nodes without a component (at the first node of each path).
pub open spec fn org_missing_from(m: Seq<NodeV>, i: int) -> Seq<FindingV>
    decreases m.len() - i,
{
    if i < 0 || i >= m.len() {
        Seq::empty()
    } else {
        let rest = org_missing_from(m, i + 1);
        match org_path(m, i) {
            Some(p) => if !(exists|j: int| 0 <= j < i && #[trigger] org_path(m, j) == Some(p)) && find_component(
                m,
                p,
            ) is None {
                seq![
                    fv(
                        FindingLevel::Error,
                        p,
                        "<Organisation> view references a component missing from <List> (M1-Build cannot bind its Properties)"@,
                        Some(1338),
                    ),
                ] + rest
            } else {
                rest
            },
            None => rest,
        }
    }
}

/// Components absent from the view tree.
pub open spec fn org_absent_from(m: Seq<NodeV>, i: int) -> Seq<FindingV>
    decreases m.len() - i,
{
    if i < 0 || i >= m.len() {
        Seq::empty()
    } else {
        let rest = org_absent_from(m, i + 1);
        if first_of_name(m, i) && !in_org(m, name_of(m, i)) {
            seq![
                fv(
                    FindingLevel::Error,
                    name_of(m, i),
                    "component is absent from the <Organisation> view (M1-Build cannot bind its Properties; references error 1338)"@,
                    Some(1338),
                ),
            ] + rest
        } else {
            rest
        }
    }
}

pub open spec fn org_check(m: Seq<NodeV>) -> Seq<FindingV> {
    if has_org(m) {
        org_missing_from(m, 0) + org_absent_from(m, 0)
    } else {
        Seq::empty()
    }
}

/// The project's CAN-database modules: `(Name, MD5)` of each
/// `BuiltIn.CAN.DBC` component among nodes `i..`.
pub open spec fn dbcs_from(m: Seq<NodeV>, i: int) -> Seq<(Seq<char>, Option<Seq<char>>)>
    decreases m.len() - i,
{
    if i < 0 || i >= m.len() {
        Seq::empty()
    } else if crate::query::listed(m[i]) && attr_val(m[i], "Classname"@) == Some("BuiltIn.CAN.DBC"@) {
        seq![(name_of(m, i), attr_val(m[i], "MD5"@))] + dbcs_from(m, i + 1)
    } else {
        dbcs_from(m, i + 1)
    }
}

pub open spec fn zero_md5() -> Seq<char> {
    "00000000000000000000000000000000"@
}

/// The last module before `i` holding the same (non-zero) MD5, ignoring case.
pub open spec fn md5_prev(ds: Seq<(Seq<char>, Option<Seq<char>>)>, h: Seq<char>, i: int) -> Option<int>
    decreases i,
{
    if i <= 0 || i > ds.len() {
        None
    } else if ds[i - 1].1 is Some && !eq_ignore_ascii_case(ds[i - 1].1.unwrap(), zero_md5())
        && eq_ignore_ascii_case(ds[i - 1].1.unwrap(), h) {
        Some(i - 1)
    } else {
        md5_prev(ds, h, i - 1)
    }
}

/// The all-zero MD5 sentinel, and a MD5 two modules share.
pub open spec fn md5_check(ds: Seq<(Seq<char>, Option<Seq<char>>)>, i: int) -> Seq<FindingV>
    decreases ds.len() - i,
{
    if i < 0 || i >= ds.len() {
        Seq::empty()
    } else {
        let rest = md5_check(ds, i + 1);
        let (name, md5) = ds[i];
        match md5 {
            None => rest,
            Some(h) => if eq_ignore_ascii_case(h, zero_md5()) {
                seq![
                    fv(
                        FindingLevel::Error,
                        name,
                        "DBC module has the all-zero MD5 sentinel \u{2014} the CAN database was never imported; M1-Build cannot open the project"@,
                        None,
                    ),
                ] + rest
            } else {
                match md5_prev(ds, h, i) {
                    Some(j) => seq![
                        fv(
                            FindingLevel::Error,
                            name,
                            "duplicate DBC module hash: MD5 `"@ + h + "` is already used by `"@ + ds[j].0
                                + "` \u{2014} M1-Build cannot open a project with two identical CAN-database imports"@,
                            None,
                        ),
                    ] + rest,
                    None => rest,
                }
            },
        }
    }
}

pub open spec fn collision(m: Seq<NodeV>, name: Seq<char>, leaf: Seq<char>, parent: Seq<char>) -> Seq<FindingV> {
    let cand = parent + "."@ + leaf;
    if find_component(m, cand) is Some {
        seq![
            fv(
                FindingLevel::Warning,
                name,
                "DBC module name `"@ + leaf + "` collides with the project object `"@ + cand
                    + "` \u{2014} M1-Build may fail to open the project (a CAN-database name and an object name must not clash)"@,
                None,
            ),
        ]
    } else {
        Seq::empty()
    }
}

/// A module `DBC.<leaf>` whose leaf is also a `Root.CAN` or `Root.Control` child.
pub open spec fn collide_check(m: Seq<NodeV>, ds: Seq<(Seq<char>, Option<Seq<char>>)>, i: int) -> Seq<FindingV>
    decreases ds.len() - i,
{
    if i < 0 || i >= ds.len() {
        Seq::empty()
    } else {
        let rest = collide_check(m, ds, i + 1);
        let name = ds[i].0;
        if has_prefix(name, "DBC."@) {
            let leaf = name.skip(4);
            collision(m, name, leaf, "Root.CAN"@) + collision(m, name, leaf, "Root.Control"@) + rest
        } else {
            rest
        }
    }
}

/// The first element child of the document (the root element).
pub open spec fn root_from(m: Seq<NodeV>, i: int) -> Option<int>
    decreases m.len() - i,
{
    if i < 1 || i >= m.len() {
        None
    } else if m[i].element && m[i].parent == Some(0usize) {
        Some(i)
    } else {
        root_from(m, i + 1)
    }
}

/// Number of `<Project>` element children of `r` among nodes `i..hi`.
pub open spec fn project_children(m: Seq<NodeV>, r: int, i: int, hi: int) -> nat
    decreases hi - i,
{
    if i < 0 || i >= hi || i >= m.len() {
        0
    } else {
        (if m[i].parent == Some(r as usize) && is_elem(m[i], "Project"@) {
            1nat
        } else {
            0nat
        }) + project_children(m, r, i + 1, hi)
    }
}

pub open spec fn envelope_root_msg() -> Seq<char> {
    "invalid project document envelope: root element must be exactly <MoTeCM1BuildSession>"@
}

/// Every check's findings, in the order they are found.
pub open spec fn raw_findings(m: Seq<NodeV>, cat: Seq<TemplateV>) -> Seq<FindingV> {
    let roles = crate::query::declared_roles_spec(m);
    let ds = dbcs_from(m, 0);
    all_comp_findings(m, cat, roles, 0) + sensor_from(m, cat, 0) + dup_from(m, 0) + trig_from(m, 0)
        + refs_check_from(m, 0) + org_check(m) + md5_check(ds, 0) + collide_check(m, ds, 0)
}

/// `validate_with_catalog`: an envelope that is not a `<MoTeCM1BuildSession>` root
/// is the only finding; otherwise the envelope's `<Project>` count check and every
/// structural check, sorted by path then message.
pub open spec fn validate_model(m: Seq<NodeV>, cat: Seq<TemplateV>) -> Seq<FindingV> {
    match root_from(m, 1) {
        None => seq![fv(FindingLevel::Error, Seq::empty(), envelope_root_msg(), None)],
        Some(r) => if !is_elem(m[r], "MoTeCM1BuildSession"@) {
            seq![fv(FindingLevel::Error, m[r].tag, envelope_root_msg(), None)]
        } else {
            let n = project_children(m, r, r + 1, last_of(m, r) + 1);
            let env = if n != 1 {
                seq![
                    fv(
                        FindingLevel::Error,
                        "MoTeCM1BuildSession"@,
                        "invalid project document envelope: expected exactly one direct <Project> child, found "@
                            + decimal(n),
                        None,
                    ),
                ]
            } else {
                Seq::empty()
            };
            sort_findings(env + raw_findings(m, cat))
        },
    }
}

// ---- the order of the findings --------------------------------------------------------

/// Every finding is at or below every later one: by path, then by message.
pub open spec fn findings_sorted(s: Seq<FindingV>) -> bool {
    forall|i: int, j: int| 0 <= i < j < s.len() ==> finding_le(s[i], s[j])
}

proof fn lemma_finding_total(a: FindingV, b: FindingV)
    ensures
        finding_le(a, b) || finding_le(b, a),
{
    crate::sort::lemma_lex_total(a.path, b.path);
    crate::sort::lemma_lex_total(a.message, b.message);
    if lex_le(a.path, b.path) && lex_le(b.path, a.path) {
        crate::sort::lemma_lex_antisym(a.path, b.path);
    }
}

proof fn lemma_finding_trans(a: FindingV, b: FindingV, c: FindingV)
    requires
        finding_le(a, b),
        finding_le(b, c),
    ensures
        finding_le(a, c),
{
    crate::sort::lemma_lex_trans(a.path, b.path, c.path);
    if a.path == c.path {
        crate::sort::lemma_lex_antisym(a.path, b.path);
        crate::sort::lemma_lex_trans(a.message, b.message, c.message);
    }
}

proof fn lemma_ins_f_members(t: Seq<FindingV>, x: FindingV)
    ensures
        forall|i: int|
            0 <= i < ins_f(t, x).len() ==> ins_f(t, x)[i] == x || exists|k: int|
                0 <= k < t.len() && t[k] == #[trigger] ins_f(t, x)[i],
        ins_f(t, x).len() == t.len() + 1,
    decreases t.len(),
{
    if t.len() == 0 {
    } else if finding_le(t.last(), x) {
        let r = t.push(x);
        assert forall|i: int| 0 <= i < r.len() implies r[i] == x || exists|k: int|
            0 <= k < t.len() && t[k] == #[trigger] r[i] by {
            if i < t.len() {
                assert(t[i] == r[i]);
            }
        }
    } else {
        let u = t.drop_last();
        lemma_ins_f_members(u, x);
        let w = ins_f(u, x);
        let r = w.push(t.last());
        assert forall|i: int| 0 <= i < r.len() implies r[i] == x || exists|k: int|
            0 <= k < t.len() && t[k] == #[trigger] r[i] by {
            if i == w.len() {
                assert(t[t.len() - 1] == r[i]);
            } else if w[i] != x {
                let k = choose|k: int| 0 <= k < u.len() && u[k] == #[trigger] w[i];
                assert(t[k] == r[i]);
            }
        }
    }
}

proof fn lemma_ins_f_sorted(t: Seq<FindingV>, x: FindingV)
    requires
        findings_sorted(t),
    ensures
        findings_sorted(ins_f(t, x)),
        ins_f(t, x).to_multiset() =~= t.to_multiset().insert(x),
    decreases t.len(),
{
    broadcast use vstd::seq_lib::group_to_multiset_ensures;

    if t.len() == 0 {
        assert(seq![x] =~= Seq::<FindingV>::empty().push(x));
    } else if finding_le(t.last(), x) {
        let r = t.push(x);
        assert forall|i: int, j: int| 0 <= i < j < r.len() implies finding_le(r[i], r[j]) by {
            if j == t.len() && i < t.len() - 1 {
                lemma_finding_trans(t[i], t.last(), x);
            }
        }
    } else {
        let u = t.drop_last();
        assert(findings_sorted(u));
        lemma_ins_f_sorted(u, x);
        let w = ins_f(u, x);
        let r = w.push(t.last());
        lemma_finding_total(t.last(), x);
        assert(t =~= u.push(t.last()));
        lemma_ins_f_members(u, x);
        assert forall|i: int, j: int| 0 <= i < j < r.len() implies finding_le(r[i], r[j]) by {
            if j == w.len() && w[i] != x {
                let k = choose|k: int| 0 <= k < u.len() && u[k] == w[i];
                assert(t[k] == u[k]);
                assert(finding_le(t[k], t[t.len() - 1]));
            }
        }
        assert(t.to_multiset() =~= u.to_multiset().insert(t.last()));
    }
}

/// Sorting findings orders them by path, then message, and keeps exactly them.
pub proof fn lemma_sort_findings(s: Seq<FindingV>)
    ensures
        findings_sorted(sort_findings(s)),
        sort_findings(s).to_multiset() =~= s.to_multiset(),
    decreases s.len(),
{
    broadcast use vstd::seq_lib::group_to_multiset_ensures;

    if s.len() > 0 {
        lemma_sort_findings(s.drop_last());
        lemma_ins_f_sorted(sort_findings(s.drop_last()), s.last());
        assert(s =~= s.drop_last().push(s.last()));
    }
}

/// What `validate` and `validate_with_modules` report is ordered by path, then
/// message, and every structural finding of a project session is among it.
pub proof fn lemma_validate_sorted(m: Seq<NodeV>, cat: Seq<TemplateV>)
    ensures
        findings_sorted(validate_model(m, cat)),
        root_from(m, 1) matches Some(r) && is_elem(m[r], "MoTeCM1BuildSession"@) ==> forall|f: FindingV|
            raw_findings(m, cat).contains(f) ==> #[trigger] validate_model(m, cat).contains(f),
{
    broadcast use vstd::seq_lib::to_multiset_contains;

    match root_from(m, 1) {
        None => {},
        Some(r) => if is_elem(m[r], "MoTeCM1BuildSession"@) {
            let n = project_children(m, r, r + 1, last_of(m, r) + 1);
            let env = if n != 1 {
                seq![
                    fv(
                        FindingLevel::Error,
                        "MoTeCM1BuildSession"@,
                        "invalid project document envelope: expected exactly one direct <Project> child, found "@
                            + decimal(n),
                        None,
                    ),
                ]
            } else {
                Seq::empty()
            };
            let all = env + raw_findings(m, cat);
            lemma_sort_findings(all);
            assert(validate_model(m, cat) == sort_findings(all));
            assert forall|f: FindingV| raw_findings(m, cat).contains(f) implies #[trigger] validate_model(
                m,
                cat,
            ).contains(f) by {
                let k = choose|k: int| 0 <= k < raw_findings(m, cat).len() && raw_findings(m, cat)[k] == f;
                assert(all[env.len() + k] == f);
                assert(all.contains(f));
                assert(all.to_multiset().count(f) > 0);
                assert(sort_findings(all).to_multiset().count(f) > 0);
            }
        },
    }
}

/// The findings of a listed component at `k` are among those of nodes `i..`.
proof fn lemma_comp_in_all(m: Seq<NodeV>, cat: Seq<TemplateV>, roles: Option<Seq<Seq<char>>>, i: int, k: int, f: FindingV)
    requires
        0 <= i <= k < m.len(),
        crate::query::listed(m[k]),
        comp_findings(m, cat, roles, k).contains(f),
    ensures
        all_comp_findings(m, cat, roles, i).contains(f),
    decreases k - i,
{
    let rest = all_comp_findings(m, cat, roles, i + 1);
    if i == k {
        let c = comp_findings(m, cat, roles, k);
        let j = choose|j: int| 0 <= j < c.len() && c[j] == f;
        assert((c + rest)[j] == f);
    } else {
        lemma_comp_in_all(m, cat, roles, i + 1, k, f);
        let j = choose|j: int| 0 <= j < rest.len() && rest[j] == f;
        if crate::query::listed(m[i]) {
            let c = comp_findings(m, cat, roles, i);
            assert((c + rest)[c.len() + j] == f);
        }
    }
}

/// In a project session, every listed channel or parameter whose `<Props>` has no
/// `Security` (or that has no `<Props>`) is reported as an error with code 1601
/// under its name.
pub proof fn lemma_missing_security_reported(m: Seq<NodeV>, cat: Seq<TemplateV>, k: int)
    requires
        0 <= k < m.len(),
        crate::query::listed(m[k]),
        attr_val(m[k], "Classname"@) == Some("BuiltIn.Channel"@) || attr_val(m[k], "Classname"@) == Some(
            "BuiltIn.Parameter"@,
        ),
        props_attr(m, k, "Security"@) is None,
        root_from(m, 1) matches Some(r) && is_elem(m[r], "MoTeCM1BuildSession"@),
    ensures
        validate_model(m, cat).contains(
            fv(
                FindingLevel::Error,
                attr_val(m[k], "Name"@).unwrap(),
                "no security group selected \u{2014} a channel/parameter needs a Security level"@,
                Some(1601),
            ),
        ),
{
    let f = fv(
        FindingLevel::Error,
        attr_val(m[k], "Name"@).unwrap(),
        "no security group selected \u{2014} a channel/parameter needs a Security level"@,
        Some(1601),
    );
    let roles = crate::query::declared_roles_spec(m);
    reveal(props_checks);
    let nm = attr_val(m[k], "Name"@).unwrap();
    let tags = eff_tags(m, cat, k);
    let pre = conflict(nm, tags, system_tags(), "System"@) + conflict(nm, tags, type_tags(), "Type"@)
        + conflict(nm, tags, io_tags(), "Input/Output"@) + legality(m, cat, k) + state_check(m, cat, k)
        + name_check(nm);
    let pc = props_checks(m, k, roles);
    let trig = props_attr(m, k, "SelectedTrigger"@);
    let first: Seq<FindingV> = if attr_val(m[k], "Classname"@).unwrap() == "BuiltIn.FuncUser"@ && (trig is None
        || trim(trig.unwrap()).len() == 0) {
        seq![
            fv(
                FindingLevel::Error,
                nm,
                "scheduled function has no event selected (SelectedTrigger) \u{2014} it will never run"@,
                None,
            ),
        ]
    } else {
        Seq::empty()
    };
    assert(pc[first.len() as int] == f);
    assert(comp_findings(m, cat, roles, k) == pre + pc);
    assert((pre + pc)[(pre.len() + first.len()) as int] == f);
    lemma_comp_in_all(m, cat, roles, 0, k, f);
    let a = all_comp_findings(m, cat, roles, 0);
    let raw = raw_findings(m, cat);
    let j = choose|j: int| 0 <= j < a.len() && a[j] == f;
    assert(raw[j] == f);
    lemma_validate_sorted(m, cat);
}

/// In a project session that declares its security roles, every listed component
/// whose `<Props>` names a `Security` group outside those roles is reported as an
/// error with code 1601 under its name, naming the group as not declared.
pub proof fn lemma_undeclared_security_reported(m: Seq<NodeV>, cat: Seq<TemplateV>, k: int)
    requires
        0 <= k < m.len(),
        crate::query::listed(m[k]),
        crate::query::declared_roles_spec(m) matches Some(rs) && props_attr(m, k, "Security"@) matches Some(sv)
            && !rs.contains(sv),
        root_from(m, 1) matches Some(r) && is_elem(m[r], "MoTeCM1BuildSession"@),
    ensures
        validate_model(m, cat).contains(
            fv(
                FindingLevel::Error,
                attr_val(m[k], "Name"@).unwrap(),
                "Security group `"@ + props_attr(m, k, "Security"@).unwrap()
                    + "` is not declared in the project's <SecurityRoles> \u{2014} M1-Build cannot bind it"@,
                Some(1601),
            ),
        ),
{
    let sv = props_attr(m, k, "Security"@).unwrap();
    let f = fv(
        FindingLevel::Error,
        attr_val(m[k], "Name"@).unwrap(),
        "Security group `"@ + sv + "` is not declared in the project's <SecurityRoles> \u{2014} M1-Build cannot bind it"@,
        Some(1601),
    );
    let roles = crate::query::declared_roles_spec(m);
    reveal(props_checks);
    let nm = attr_val(m[k], "Name"@).unwrap();
    let cls = attr_val(m[k], "Classname"@).unwrap();
    let tags = eff_tags(m, cat, k);
    let pre = conflict(nm, tags, system_tags(), "System"@) + conflict(nm, tags, type_tags(), "Type"@)
        + conflict(nm, tags, io_tags(), "Input/Output"@) + legality(m, cat, k) + state_check(m, cat, k)
        + name_check(nm);
    let pc = props_checks(m, k, roles);
    let trig = props_attr(m, k, "SelectedTrigger"@);
    let first: Seq<FindingV> = if cls == "BuiltIn.FuncUser"@ && (trig is None || trim(trig.unwrap()).len() == 0) {
        seq![
            fv(
                FindingLevel::Error,
                nm,
                "scheduled function has no event selected (SelectedTrigger) \u{2014} it will never run"@,
                None,
            ),
        ]
    } else {
        Seq::empty()
    };
    let second: Seq<FindingV> = Seq::empty();
    assert(pc == first + second + seq![f]);
    assert(pc[(first.len() + second.len()) as int] == f);
    assert(comp_findings(m, cat, roles, k) == pre + pc);
    assert((pre + pc)[(pre.len() + first.len()) as int] == f);
    lemma_comp_in_all(m, cat, roles, 0, k, f);
    let a = all_comp_findings(m, cat, roles, 0);
    let raw = raw_findings(m, cat);
    let j = choose|j: int| 0 <= j < a.len() && a[j] == f;
    assert(raw[j] == f);
    lemma_validate_sorted(m, cat);
}

proof fn lemma_contains_cat(a: Seq<FindingV>, b: Seq<FindingV>, f: FindingV)
    ensures
        a.contains(f) ==> (a + b).contains(f),
        b.contains(f) ==> (a + b).contains(f),
{
    if a.contains(f) {
        let j = choose|j: int| 0 <= j < a.len() && a[j] == f;
        assert((a + b)[j] == f);
    }
    if b.contains(f) {
        let j = choose|j: int| 0 <= j < b.len() && b[j] == f;
        assert((a + b)[a.len() + j] == f);
    }
}

/// The trigger finding of listed component `k`, if it has one.
pub open spec fn trigger_finding(m: Seq<NodeV>, k: int) -> Option<FindingV> {
    let owner = name_of(m, k);
    match props_attr(m, k, "SelectedTrigger"@) {
        Some(tr) => if trigger_exempt(tr) {
            None
        } else {
            match crate::query::resolve_trigger_spec(owner, tr) {
                None => Some(
                    fv(
                        FindingLevel::Error,
                        owner,
                        "cannot resolve SelectedTrigger `"@ + tr + "` (malformed relative path)"@,
                        None,
                    ),
                ),
                Some(abs) => if !is_clock(m, abs) {
                    Some(
                        fv(
                            FindingLevel::Error,
                            owner,
                            "SelectedTrigger `"@ + tr + "` resolves to `"@ + abs
                                + "` which is not a BuiltIn.EventKernel clock"@,
                            None,
                        ),
                    )
                } else {
                    None
                },
            }
        },
        None => None,
    }
}

proof fn lemma_trig_in(m: Seq<NodeV>, i: int, k: int)
    requires
        0 <= i <= k < m.len(),
        crate::query::listed(m[k]),
        trigger_finding(m, k) is Some,
    ensures
        trig_from(m, i).contains(trigger_finding(m, k).unwrap()),
    decreases k - i,
{
    let f = trigger_finding(m, k).unwrap();
    let rest = trig_from(m, i + 1);
    if i == k {
        assert(trig_from(m, i) == seq![f] + rest);
        assert((seq![f] + rest)[0] == f);
    } else {
        lemma_trig_in(m, i + 1, k);
        let j = choose|j: int| 0 <= j < rest.len() && rest[j] == f;
        let t = trig_from(m, i);
        if t != rest {
            let x = t[0];
            assert(t == seq![x] + rest);
            assert(t[j + 1] == f);
        }
    }
}

/// In a project session, a listed component whose `SelectedTrigger` is neither the
/// startup event nor a `$(…)` expression is reported as an error under its name
/// when the trigger does not resolve from its name, or resolves to a path that is
/// no listed `BuiltIn.EventKernel` clock.
pub proof fn lemma_bad_trigger_reported(m: Seq<NodeV>, cat: Seq<TemplateV>, k: int)
    requires
        0 <= k < m.len(),
        crate::query::listed(m[k]),
        props_attr(m, k, "SelectedTrigger"@) matches Some(tr) && !trigger_exempt(tr) && match crate::query::resolve_trigger_spec(
            name_of(m, k),
            tr,
        ) {
            None => true,
            Some(abs) => !is_clock(m, abs),
        },
        root_from(m, 1) matches Some(r) && is_elem(m[r], "MoTeCM1BuildSession"@),
    ensures
        validate_model(m, cat).contains(
            fv(
                FindingLevel::Error,
                name_of(m, k),
                match crate::query::resolve_trigger_spec(name_of(m, k), props_attr(m, k, "SelectedTrigger"@).unwrap()) {
                    None => "cannot resolve SelectedTrigger `"@ + props_attr(m, k, "SelectedTrigger"@).unwrap()
                        + "` (malformed relative path)"@,
                    Some(abs) => "SelectedTrigger `"@ + props_attr(m, k, "SelectedTrigger"@).unwrap()
                        + "` resolves to `"@ + abs + "` which is not a BuiltIn.EventKernel clock"@,
                },
                None,
            ),
        ),
{
    let f = trigger_finding(m, k).unwrap();
    lemma_trig_in(m, 0, k);
    let roles = crate::query::declared_roles_spec(m);
    let ds = dbcs_from(m, 0);
    let p1 = all_comp_findings(m, cat, roles, 0) + sensor_from(m, cat, 0) + dup_from(m, 0);
    let tr = trig_from(m, 0);
    lemma_contains_cat(p1, tr, f);
    let p2 = p1 + tr;
    lemma_contains_cat(p2, refs_check_from(m, 0), f);
    lemma_contains_cat(p2 + refs_check_from(m, 0), org_check(m), f);
    lemma_contains_cat(p2 + refs_check_from(m, 0) + org_check(m), md5_check(ds, 0), f);
    lemma_contains_cat(p2 + refs_check_from(m, 0) + org_check(m) + md5_check(ds, 0), collide_check(m, ds, 0), f);
    assert(raw_findings(m, cat).contains(f));
    lemma_validate_sorted(m, cat);
}

/// The finding for two listed siblings that share the key `key`.
pub open spec fn dup_finding(key: (Seq<char>, Seq<char>)) -> FindingV {
    fv(
        FindingLevel::Error,
        if key.0.len() == 0 {
            key.1
        } else {
            key.0 + "."@ + key.1
        },
        "duplicate sibling Name `"@ + key.1 + "` under `"@ + key.0 + "`"@,
        None,
    )
}

pub open spec fn holds_key(m: Seq<NodeV>, key: (Seq<char>, Seq<char>), j: int) -> bool {
    crate::query::listed(m[j]) && sib_key(name_of(m, j)) == key
}

proof fn lemma_dup_in(m: Seq<NodeV>, key: (Seq<char>, Seq<char>), i: int, j1: int, j2: int)
    requires
        0 <= i <= j1 < j2 < m.len(),
        holds_key(m, key, j1),
        holds_key(m, key, j2),
        forall|j: int| 0 <= j < i ==> !#[trigger] holds_key(m, key, j),
    ensures
        dup_from(m, i).contains(dup_finding(key)),
    decreases j1 - i,
{
    let rest = dup_from(m, i + 1);
    let f = dup_finding(key);
    if holds_key(m, key, i) {
        assert(!key_in(m, key, i, 0, i)) by {
            if key_in(m, key, i, 0, i) {
                let j = choose|j: int|
                    0 <= j < i && j != i && crate::query::listed(m[j]) && #[trigger] sib_key(name_of(m, j)) == key;
                assert(holds_key(m, key, j));
            }
        }
        assert(key_in(m, key, i, i + 1, m.len() as int)) by {
            assert(holds_key(m, key, j2) && j2 != i && i + 1 <= j2);
        }
        assert(dup_from(m, i) == seq![f] + rest);
        assert((seq![f] + rest)[0] == f);
    } else {
        assert forall|j: int| 0 <= j < i + 1 implies !#[trigger] holds_key(m, key, j) by {}
        lemma_dup_in(m, key, i + 1, j1, j2);
        let j = choose|j: int| 0 <= j < rest.len() && rest[j] == f;
        let t = dup_from(m, i);
        if t != rest {
            let x = t[0];
            assert(t == seq![x] + rest);
            assert(t[j + 1] == f);
        }
    }
}

/// In a project session, two different listed components with the same parent
/// path and the same last segment are reported as a duplicate sibling name.
pub proof fn lemma_duplicate_siblings_reported(m: Seq<NodeV>, cat: Seq<TemplateV>, j1: int, j2: int)
    requires
        0 <= j1 < j2 < m.len(),
        crate::query::listed(m[j1]),
        crate::query::listed(m[j2]),
        sib_key(name_of(m, j1)) == sib_key(name_of(m, j2)),
        root_from(m, 1) matches Some(r) && is_elem(m[r], "MoTeCM1BuildSession"@),
    ensures
        validate_model(m, cat).contains(dup_finding(sib_key(name_of(m, j1)))),
{
    let key = sib_key(name_of(m, j1));
    let f = dup_finding(key);
    lemma_dup_in(m, key, 0, j1, j2);
    let roles = crate::query::declared_roles_spec(m);
    let ds = dbcs_from(m, 0);
    let p1 = all_comp_findings(m, cat, roles, 0) + sensor_from(m, cat, 0);
    lemma_contains_cat(p1, dup_from(m, 0), f);
    let p2 = p1 + dup_from(m, 0);
    lemma_contains_cat(p2, trig_from(m, 0), f);
    let p3 = p2 + trig_from(m, 0);
    lemma_contains_cat(p3, refs_check_from(m, 0), f);
    lemma_contains_cat(p3 + refs_check_from(m, 0), org_check(m), f);
    lemma_contains_cat(p3 + refs_check_from(m, 0) + org_check(m), md5_check(ds, 0), f);
    lemma_contains_cat(p3 + refs_check_from(m, 0) + org_check(m) + md5_check(ds, 0), collide_check(m, ds, 0), f);
    assert(raw_findings(m, cat).contains(f));
    lemma_validate_sorted(m, cat);
}

/// A listed channel or parameter named `p` whose `<Props>` has no `Security`.
pub open spec fn missing_security_at(m: Seq<NodeV>, p: Seq<char>) -> bool {
    exists|k: int|
        0 <= k < m.len() && crate::query::listed(m[k]) && #[trigger] attr_val(m[k], "Name"@) == Some(p) && (attr_val(
            m[k],
            "Classname"@,
        ) == Some("BuiltIn.Channel"@) || attr_val(m[k], "Classname"@) == Some("BuiltIn.Parameter"@)) && props_attr(
            m,
            k,
            "Security"@,
        ) is None
}

/// A missing-security finding (code 1601, the "no security group selected"
/// message) is an error about such a component.
pub open spec fn sec_ok(m: Seq<NodeV>, f: FindingV) -> bool {
    f.code == Some(1601u32) && has_prefix(f.message, "no security group selected"@) ==> f.level == FindingLevel::Error
        && missing_security_at(m, f.path)
}

pub open spec fn all_sec_ok(m: Seq<NodeV>, s: Seq<FindingV>) -> bool {
    forall|j: int| 0 <= j < s.len() ==> sec_ok(m, #[trigger] s[j])
}

proof fn lemma_sec_cat(m: Seq<NodeV>, a: Seq<FindingV>, b: Seq<FindingV>)
    requires
        all_sec_ok(m, a),
        all_sec_ok(m, b),
    ensures
        all_sec_ok(m, a + b),
{
    assert forall|j: int| 0 <= j < (a + b).len() implies sec_ok(m, #[trigger] (a + b)[j]) by {
        if j < a.len() {
            assert((a + b)[j] == a[j]);
        } else {
            assert((a + b)[j] == b[j - a.len()]);
        }
    }
}

proof fn lemma_sec_one(m: Seq<NodeV>, f: FindingV, rest: Seq<FindingV>)
    requires
        sec_ok(m, f),
        all_sec_ok(m, rest),
    ensures
        all_sec_ok(m, seq![f] + rest),
{
    assert(all_sec_ok(m, seq![f]));
    lemma_sec_cat(m, seq![f], rest);
}

proof fn lemma_sec_comp(m: Seq<NodeV>, cat: Seq<TemplateV>, roles: Option<Seq<Seq<char>>>, k: int)
    requires
        0 <= k < m.len(),
        crate::query::listed(m[k]),
    ensures
        all_sec_ok(m, comp_findings(m, cat, roles, k)),
{
    reveal(conflict);
    reveal(legality);
    reveal(state_check);
    reveal(name_check);
    reveal(props_checks);
    reveal_strlit("no security group selected");
    reveal_strlit("Security group `");
    let nm = attr_val(m[k], "Name"@).unwrap();
    let tags = eff_tags(m, cat, k);
    let c1 = conflict(nm, tags, system_tags(), "System"@);
    let c2 = conflict(nm, tags, type_tags(), "Type"@);
    let c3 = conflict(nm, tags, io_tags(), "Input/Output"@);
    let l = legality(m, cat, k);
    let st = state_check(m, cat, k);
    let nc = name_check(nm);
    let pc = props_checks(m, k, roles);
    assert(all_sec_ok(m, c1));
    assert(all_sec_ok(m, c2));
    assert(all_sec_ok(m, c3));
    assert(all_sec_ok(m, l));
    assert(all_sec_ok(m, st));
    assert(all_sec_ok(m, nc));
    assert forall|j: int| 0 <= j < pc.len() implies sec_ok(m, #[trigger] pc[j]) by {
        let f = pc[j];
        if f.code == Some(1601u32) && has_prefix(f.message, "no security group selected"@) {
            if f.message[0] == 'S' {
                assert(f.message.take(26)[0] == 'S');
                assert(false);
            }
            assert(missing_security_at(m, f.path)) by {
                assert(attr_val(m[k], "Name"@) == Some(f.path));
            }
        }
    }
    lemma_sec_cat(m, c1, c2);
    lemma_sec_cat(m, c1 + c2, c3);
    lemma_sec_cat(m, c1 + c2 + c3, l);
    lemma_sec_cat(m, c1 + c2 + c3 + l, st);
    lemma_sec_cat(m, c1 + c2 + c3 + l + st, nc);
    lemma_sec_cat(m, c1 + c2 + c3 + l + st + nc, pc);
}

proof fn lemma_sec_all_comp(m: Seq<NodeV>, cat: Seq<TemplateV>, roles: Option<Seq<Seq<char>>>, i: int)
    ensures
        all_sec_ok(m, all_comp_findings(m, cat, roles, i)),
    decreases m.len() - i,
{
    if !(i < 0 || i >= m.len()) {
        lemma_sec_all_comp(m, cat, roles, i + 1);
        if crate::query::listed(m[i]) {
            lemma_sec_comp(m, cat, roles, i);
            lemma_sec_cat(m, comp_findings(m, cat, roles, i), all_comp_findings(m, cat, roles, i + 1));
        }
    }
}

proof fn lemma_sec_sensor(m: Seq<NodeV>, cat: Seq<TemplateV>, i: int)
    ensures
        all_sec_ok(m, sensor_from(m, cat, i)),
    decreases m.len() - i,
{
    if !(i < 0 || i >= m.len()) {
        lemma_sec_sensor(m, cat, i + 1);
        let rest = sensor_from(m, cat, i + 1);
        assert forall|x: FindingV| #[trigger] sec_ok(m, x) && all_sec_ok(m, rest) implies all_sec_ok(m, seq![x] + rest) by {
            lemma_sec_one(m, x, rest);
        }
    }
}

proof fn lemma_sec_dup(m: Seq<NodeV>, i: int)
    ensures
        all_sec_ok(m, dup_from(m, i)),
    decreases m.len() - i,
{
    if !(i < 0 || i >= m.len()) {
        lemma_sec_dup(m, i + 1);
        let rest = dup_from(m, i + 1);
        assert forall|x: FindingV| #[trigger] sec_ok(m, x) && all_sec_ok(m, rest) implies all_sec_ok(m, seq![x] + rest) by {
            lemma_sec_one(m, x, rest);
        }
    }
}

proof fn lemma_sec_trig(m: Seq<NodeV>, i: int)
    ensures
        all_sec_ok(m, trig_from(m, i)),
    decreases m.len() - i,
{
    if !(i < 0 || i >= m.len()) {
        lemma_sec_trig(m, i + 1);
        let rest = trig_from(m, i + 1);
        assert forall|x: FindingV| #[trigger] sec_ok(m, x) && all_sec_ok(m, rest) implies all_sec_ok(m, seq![x] + rest) by {
            lemma_sec_one(m, x, rest);
        }
    }
}

proof fn lemma_sec_refs(m: Seq<NodeV>, i: int)
    ensures
        all_sec_ok(m, refs_check_from(m, i)),
    decreases m.len() - i,
{
    if !(i < 0 || i >= m.len()) {
        lemma_sec_refs(m, i + 1);
        if crate::query::listed(m[i]) {
            let a = ref_check(m, i, "Source"@);
            let b = ref_check(m, i, "Target"@);
            let c = ref_check(m, i, "NameTarget"@);
            assert(all_sec_ok(m, a));
            assert(all_sec_ok(m, b));
            assert(all_sec_ok(m, c));
            lemma_sec_cat(m, a, b);
            lemma_sec_cat(m, a + b, c);
            lemma_sec_cat(m, a + b + c, refs_check_from(m, i + 1));
        }
    }
}

proof fn lemma_sec_org(m: Seq<NodeV>, i: int)
    ensures
        all_sec_ok(m, org_missing_from(m, i)),
        all_sec_ok(m, org_absent_from(m, i)),
    decreases m.len() - i,
{
    if !(i < 0 || i >= m.len()) {
        lemma_sec_org(m, i + 1);
        let r1 = org_missing_from(m, i + 1);
        let r2 = org_absent_from(m, i + 1);
        assert forall|x: FindingV| #[trigger] sec_ok(m, x) && all_sec_ok(m, r1) implies all_sec_ok(m, seq![x] + r1) by {
            lemma_sec_one(m, x, r1);
        }
        assert forall|x: FindingV| #[trigger] sec_ok(m, x) && all_sec_ok(m, r2) implies all_sec_ok(m, seq![x] + r2) by {
            lemma_sec_one(m, x, r2);
        }
    }
}

proof fn lemma_sec_md5(m: Seq<NodeV>, ds: Seq<(Seq<char>, Option<Seq<char>>)>, i: int)
    ensures
        all_sec_ok(m, md5_check(ds, i)),
    decreases ds.len() - i,
{
    if !(i < 0 || i >= ds.len()) {
        lemma_sec_md5(m, ds, i + 1);
        let rest = md5_check(ds, i + 1);
        assert forall|x: FindingV| #[trigger] sec_ok(m, x) && all_sec_ok(m, rest) implies all_sec_ok(m, seq![x] + rest) by {
            lemma_sec_one(m, x, rest);
        }
    }
}

proof fn lemma_sec_collide(m: Seq<NodeV>, ds: Seq<(Seq<char>, Option<Seq<char>>)>, i: int)
    ensures
        all_sec_ok(m, collide_check(m, ds, i)),
    decreases ds.len() - i,
{
    if !(i < 0 || i >= ds.len()) {
        lemma_sec_collide(m, ds, i + 1);
        let name = ds[i].0;
        if has_prefix(name, "DBC."@) {
            let leaf = name.skip(4);
            let a = collision(m, name, leaf, "Root.CAN"@);
            let b = collision(m, name, leaf, "Root.Control"@);
            assert(all_sec_ok(m, a));
            assert(all_sec_ok(m, b));
            lemma_sec_cat(m, a, b);
            lemma_sec_cat(m, a + b, collide_check(m, ds, i + 1));
        }
    }
}

/// A missing-security finding of `validate` (code 1601, the message "no security
/// group selected …") is always an error about a listed channel or parameter with
/// that name whose `<Props>` has no `Security`.
pub proof fn lemma_missing_security_findings(m: Seq<NodeV>, cat: Seq<TemplateV>, f: FindingV)
    requires
        validate_model(m, cat).contains(f),
        f.code == Some(1601u32),
        has_prefix(f.message, "no security group selected"@),
    ensures
        f.level == FindingLevel::Error,
        missing_security_at(m, f.path),
{
    broadcast use vstd::seq_lib::to_multiset_contains;

    if let Some(r) = root_from(m, 1) {
        if is_elem(m[r], "MoTeCM1BuildSession"@) {
            let n = project_children(m, r, r + 1, last_of(m, r) + 1);
            let env = if n != 1 {
                seq![
                    fv(
                        FindingLevel::Error,
                        "MoTeCM1BuildSession"@,
                        "invalid project document envelope: expected exactly one direct <Project> child, found "@
                            + decimal(n),
                        None,
                    ),
                ]
            } else {
                Seq::empty()
            };
            let roles = crate::query::declared_roles_spec(m);
            let ds = dbcs_from(m, 0);
            assert(all_sec_ok(m, env));
            lemma_sec_all_comp(m, cat, roles, 0);
            lemma_sec_sensor(m, cat, 0);
            lemma_sec_dup(m, 0);
            lemma_sec_trig(m, 0);
            lemma_sec_refs(m, 0);
            lemma_sec_org(m, 0);
            let oc = org_check(m);
            assert(all_sec_ok(m, oc)) by {
                if has_org(m) {
                    lemma_sec_cat(m, org_missing_from(m, 0), org_absent_from(m, 0));
                }
            }
            lemma_sec_md5(m, ds, 0);
            lemma_sec_collide(m, ds, 0);
            let p1 = all_comp_findings(m, cat, roles, 0);
            let p2 = p1 + sensor_from(m, cat, 0);
            lemma_sec_cat(m, p1, sensor_from(m, cat, 0));
            let p3 = p2 + dup_from(m, 0);
            lemma_sec_cat(m, p2, dup_from(m, 0));
            let p4 = p3 + trig_from(m, 0);
            lemma_sec_cat(m, p3, trig_from(m, 0));
            let p5 = p4 + refs_check_from(m, 0);
            lemma_sec_cat(m, p4, refs_check_from(m, 0));
            let p6 = p5 + oc;
            lemma_sec_cat(m, p5, oc);
            let p7 = p6 + md5_check(ds, 0);
            lemma_sec_cat(m, p6, md5_check(ds, 0));
            let p8 = p7 + collide_check(m, ds, 0);
            lemma_sec_cat(m, p7, collide_check(m, ds, 0));
            assert(raw_findings(m, cat) == p8);
            let all = env + p8;
            lemma_sec_cat(m, env, p8);
            lemma_sort_findings(all);
            assert(validate_model(m, cat) == sort_findings(all));
            assert(sort_findings(all).to_multiset().count(f) > 0);
            assert(all.to_multiset().count(f) > 0);
            assert(all.contains(f));
            let j = choose|j: int| 0 <= j < all.len() && all[j] == f;
            assert(sec_ok(m, all[j]));
        } else {
            assert(validate_model(m, cat)[0].code is None);
        }
    } else {
        assert(validate_model(m, cat)[0].code is None);
    }
}

// ---- executing the checks across components ------------------------------------------

fn all_comp_exec(
    d: &Doc,
    cat: &Vec<ModuleTemplate>,
    roles: &Option<Vec<Vec<char>>>,
    groups: &(Vec<Vec<char>>, Vec<Vec<char>>, Vec<Vec<char>>),
    out: &mut Vec<Finding>,
)
    requires
        d.wf(),
        view_all(groups.0@) == system_tags(),
        view_all(groups.1@) == type_tags(),
        view_all(groups.2@) == io_tags(),
    ensures
        findings_view(final(out)@) == findings_view(old(out)@) + all_comp_findings(
            d.model(),
            catalog_view(cat@),
            match roles {
                Some(v) => Some(view_all(v@)),
                None => None,
            },
            0,
        ),
{
    let ghost m = d.model();
    let ghost rv = match roles {
        Some(v) => Some(view_all(v@)),
        None => None::<Seq<Seq<char>>>,
    };
    let ghost base = findings_view(out@);
    let mut i: usize = 0;
    while i < d.nodes.len()
        invariant
            d.wf(),
            m == d.model(),
            i <= d.nodes.len(),
            rv == match roles {
                Some(v) => Some(view_all(v@)),
                None => None::<Seq<Seq<char>>>,
            },
            view_all(groups.0@) == system_tags(),
            view_all(groups.1@) == type_tags(),
            view_all(groups.2@) == io_tags(),
            findings_view(out@) + all_comp_findings(m, catalog_view(cat@), rv, i as int) == base
                + all_comp_findings(m, catalog_view(cat@), rv, 0),
        decreases d.nodes.len() - i,
    {
        let ghost before = findings_view(out@);
        if is_real_component_exec(&d.nodes[i]) && attr_value_str(&d.nodes[i], "Name").is_some() {
            comp_findings_exec(d, cat, roles, i, groups, out);
            assert(findings_view(out@) + all_comp_findings(m, catalog_view(cat@), rv, i + 1) =~= before
                + all_comp_findings(m, catalog_view(cat@), rv, i as int));
        }
        i = i + 1;
    }
    assert(findings_view(out@) =~= findings_view(out@) + all_comp_findings(m, catalog_view(cat@), rv, i as int));
}

fn first_of_name_exec(d: &Doc, i: usize) -> (b: bool)
    requires
        i < d.nodes.len(),
    ensures
        b == first_of_name(d.model(), i as int),
{
    if !is_real_component_exec(&d.nodes[i]) {
        return false;
    }
    match attr_value_str(&d.nodes[i], "Name") {
        Some(nm) => d.find_component(nm) == Some(i),
        None => false,
    }
}

fn sensor_exec(d: &Doc, cat: &Vec<ModuleTemplate>, out: &mut Vec<Finding>)
    requires
        d.wf(),
    ensures
        findings_view(final(out)@) == findings_view(old(out)@) + sensor_from(d.model(), catalog_view(cat@), 0),
{
    let ghost m = d.model();
    let ghost base = findings_view(out@);
    let mut i: usize = 0;
    while i < d.nodes.len()
        invariant
            d.wf(),
            m == d.model(),
            i <= d.nodes.len(),
            findings_view(out@) + sensor_from(m, catalog_view(cat@), i as int) == base + sensor_from(
                m,
                catalog_view(cat@),
                0,
            ),
        decreases d.nodes.len() - i,
    {
        let ghost before = findings_view(out@);
        if first_of_name_exec(d, i) {
            let nm = attr_value_str(&d.nodes[i], "Name").unwrap();
            let seg = last_segment_exec(nm);
            if eq_str(&seg, "Sensor") {
                let mut value = subvec(nm, 0, nm.len());
                push_str(&mut value, ".Value");
                assert(value@ =~= nm@ + ".Value"@);
                match last_named_exec(d, &value) {
                    Some(j) => {
                        let tags = eff_tags_exec(d, cat, j);
                        if !has_tag_exec(&tags, "Normal") {
                            let msg = strv("Sensor.Value needs the Normal Type tag; replace the existing Type tag with Normal rather than adding a conflicting tag (M1 Build warning 1649)");
                            push_finding(out, mk_finding(FindingLevel::Warning, &value, &msg, Some(1649)));
                        }
                    },
                    None => {},
                }
            }
        }
        assert(findings_view(out@) + sensor_from(m, catalog_view(cat@), i + 1) =~= before + sensor_from(
            m,
            catalog_view(cat@),
            i as int,
        ));
        i = i + 1;
    }
    assert(findings_view(out@) =~= findings_view(out@) + sensor_from(m, catalog_view(cat@), i as int));
}

fn sib_key_exec(nm: &Vec<char>) -> (r: (Vec<char>, Vec<char>))
    ensures
        (r.0@, r.1@) == sib_key(nm@),
{
    let p = match parent_of_exec(nm) {
        Some(p) => p,
        None => Vec::new(),
    };
    (p, last_segment_exec(nm))
}

fn dup_exec(d: &Doc, out: &mut Vec<Finding>)
    ensures
        findings_view(final(out)@) == findings_view(old(out)@) + dup_from(d.model(), 0),
{
    let ghost m = d.model();
    let n = d.nodes.len();
    // the sibling key of every listed node
    let mut keys: Vec<Option<(Vec<char>, Vec<char>)>> = Vec::new();
    let mut i: usize = 0;
    while i < n
        invariant
            i <= n,
            n == d.nodes.len(),
            m == d.model(),
            keys@.len() == i,
            forall|j: int| 0 <= j < i ==> match #[trigger] keys@[j] {
                Some(k) => crate::query::listed(m[j]) && (k.0@, k.1@) == sib_key(name_of(m, j)),
                None => !crate::query::listed(m[j]),
            },
        decreases n - i,
    {
        if is_real_component_exec(&d.nodes[i]) {
            match attr_value_str(&d.nodes[i], "Name") {
                Some(nm) => keys.push(Some(sib_key_exec(nm))),
                None => keys.push(None),
            }
        } else {
            keys.push(None);
        }
        i = i + 1;
    }
    let ghost base = findings_view(out@);
    let mut i: usize = 0;
    while i < n
        invariant
            i <= n,
            n == d.nodes.len(),
            m == d.model(),
            keys@.len() == n,
            forall|j: int| 0 <= j < n ==> match #[trigger] keys@[j] {
                Some(k) => crate::query::listed(m[j]) && (k.0@, k.1@) == sib_key(name_of(m, j)),
                None => !crate::query::listed(m[j]),
            },
            findings_view(out@) + dup_from(m, i as int) == base + dup_from(m, 0),
        decreases n - i,
    {
        let ghost before = findings_view(out@);
        match &keys[i] {
            Some(k) => {
                let ghost key = (k.0@, k.1@);
                // an earlier holder?
                let mut earlier = false;
                let mut j: usize = 0;
                while j < i && !earlier
                    invariant
                        j <= i < n,
                        n == d.nodes.len(),
                        m == d.model(),
                        key == (k.0@, k.1@),
                        keys@[i as int] == Some(*k),
                        keys@.len() == n,
                        forall|t: int| 0 <= t < n ==> match #[trigger] keys@[t] {
                            Some(kk) => crate::query::listed(m[t]) && (kk.0@, kk.1@) == sib_key(name_of(m, t)),
                            None => !crate::query::listed(m[t]),
                        },
                        earlier ==> key_in(m, key, i as int, 0, i as int),
                        !earlier ==> forall|t: int| 0 <= t < j ==> !(crate::query::listed(m[t]) && #[trigger] sib_key(name_of(m, t)) == key),
                    decreases i - j,
                {
                    match &keys[j] {
                        Some(o) => {
                            if seq_eq(&o.0, &k.0) && seq_eq(&o.1, &k.1) {
                                earlier = true;
                                assert(sib_key(name_of(m, j as int)) == key);
                            }
                        },
                        None => {},
                    }
                    j = j + 1;
                }
                let mut later = false;
                let mut j: usize = i + 1;
                while j < n && !later
                    invariant
                        i < j <= n,
                        n == d.nodes.len(),
                        m == d.model(),
                        key == (k.0@, k.1@),
                        keys@[i as int] == Some(*k),
                        keys@.len() == n,
                        forall|t: int| 0 <= t < n ==> match #[trigger] keys@[t] {
                            Some(kk) => crate::query::listed(m[t]) && (kk.0@, kk.1@) == sib_key(name_of(m, t)),
                            None => !crate::query::listed(m[t]),
                        },
                        later ==> key_in(m, key, i as int, i + 1, n as int),
                        !later ==> forall|t: int| i < t < j ==> !(crate::query::listed(m[t]) && #[trigger] sib_key(name_of(m, t)) == key),
                    decreases n - j,
                {
                    match &keys[j] {
                        Some(o) => {
                            if seq_eq(&o.0, &k.0) && seq_eq(&o.1, &k.1) {
                                later = true;
                                assert(sib_key(name_of(m, j as int)) == key);
                            }
                        },
                        None => {},
                    }
                    j = j + 1;
                }
                if !earlier && later {
                    let path = if k.0.len() == 0 {
                        subvec(&k.1, 0, k.1.len())
                    } else {
                        let mut p = subvec(&k.0, 0, k.0.len());
                        push_str(&mut p, ".");
                        push_all(&mut p, &k.1);
                        p
                    };
                    let mut msg = cat3("duplicate sibling Name `", &k.1, "` under `");
                    push_all(&mut msg, &k.0);
                    push_str(&mut msg, "`");
                    push_finding(out, mk_finding(FindingLevel::Error, &path, &msg, None));
                    assert(path@ =~= (if key.0.len() == 0 { key.1 } else { key.0 + "."@ + key.1 }));
                }
            },
            None => {},
        }
        assert(findings_view(out@) + dup_from(m, i + 1) =~= before + dup_from(m, i as int));
        i = i + 1;
    }
    assert(findings_view(out@) =~= findings_view(out@) + dup_from(m, i as int));
}

fn is_clock_exec(d: &Doc, p: &Vec<char>) -> (b: bool)
    ensures
        b == is_clock(d.model(), p@),
{
    let ghost m = d.model();
    let mut j: usize = 0;
    while j < d.nodes.len()
        invariant
            j <= d.nodes.len(),
            m == d.model(),
            forall|t: int| 0 <= t < j ==> !(crate::query::listed(m[t]) && #[trigger] name_of(m, t) == p@ && attr_val(
                m[t],
                "Classname"@,
            ) == Some("BuiltIn.EventKernel"@)),
        decreases d.nodes.len() - j,
    {
        let n = &d.nodes[j];
        if is_real_component_exec(n) {
            match (attr_value_str(n, "Name"), attr_value_str(n, "Classname")) {
                (Some(nm), Some(c)) => {
                    if seq_eq(nm, p) && eq_str(c, "BuiltIn.EventKernel") {
                        assert(name_of(m, j as int) == p@);
                        return true;
                    }
                },
                _ => {},
            }
        }
        j = j + 1;
    }
    false
}

fn trigger_exempt_exec(t: &Vec<char>) -> (b: bool)
    ensures
        b == trigger_exempt(t@),
{
    eq_ic(t, &chars_of("startup")) || ends_with_str(t, ".On Startup") || eq_str(t, "On Startup")
        || starts_with_str(t, "$(")
}

fn trig_exec(d: &Doc, out: &mut Vec<Finding>)
    requires
        d.wf(),
    ensures
        findings_view(final(out)@) == findings_view(old(out)@) + trig_from(d.model(), 0),
{
    let ghost m = d.model();
    let ghost base = findings_view(out@);
    let mut i: usize = 0;
    while i < d.nodes.len()
        invariant
            d.wf(),
            m == d.model(),
            i <= d.nodes.len(),
            findings_view(out@) + trig_from(m, i as int) == base + trig_from(m, 0),
        decreases d.nodes.len() - i,
    {
        let ghost before = findings_view(out@);
        if is_real_component_exec(&d.nodes[i]) && attr_value_str(&d.nodes[i], "Name").is_some() {
            let owner = attr_value_str(&d.nodes[i], "Name").unwrap();
            assert(node_wf(m, i as int, d.text@.len() as int));
            let t = match d.first_child(i, "Props") {
                Some(p) => attr_value_str(&d.nodes[p], "SelectedTrigger"),
                None => None,
            };
            match t {
                Some(tr) => {
                    if !trigger_exempt_exec(tr) {
                        let os = string_of(owner);
                        let ts = string_of(tr);
                        match crate::query::resolve_trigger(os.as_str(), ts.as_str()) {
                            None => {
                                let msg = cat3("cannot resolve SelectedTrigger `", tr, "` (malformed relative path)");
                                push_finding(out, mk_finding(FindingLevel::Error, owner, &msg, None));
                            },
                            Some(abs) => {
                                let av = crate::text::chars_of_string(&abs);
                                if !is_clock_exec(d, &av) {
                                    let mut msg = cat3("SelectedTrigger `", tr, "` resolves to `");
                                    push_all(&mut msg, &av);
                                    push_str(&mut msg, "` which is not a BuiltIn.EventKernel clock");
                                    push_finding(out, mk_finding(FindingLevel::Error, owner, &msg, None));
                                }
                            },
                        }
                    }
                },
                None => {},
            }
        }
        assert(findings_view(out@) + trig_from(m, i + 1) =~= before + trig_from(m, i as int));
        i = i + 1;
    }
    assert(findings_view(out@) =~= findings_view(out@) + trig_from(m, i as int));
}

fn resolves_in_exec(d: &Doc, abs: &String) -> (b: bool)
    ensures
        b == resolves_in(d.model(), abs@),
{
    let ghost m = d.model();
    let f = |p: &str| -> (r: bool)
        ensures
            r == (find_component(d.model(), p@) is Some),
        { d.find_component(&chars_of(p)).is_some() };
    let r = crate::query::reference_resolves(abs.as_str(), f);
    proof {
        let cs = crate::query::ref_candidates(abs@);
        if r {
            let (i, s) = choose|i: int, s: &str|
                0 <= i < cs.len() && s@ == cs[i] && f.ensures((s,), true);
            assert(find_component(m, cs[i]) is Some);
        } else {
            assert forall|i: int| 0 <= i < cs.len() implies !(#[trigger] find_component(m, cs[i]) is Some) by {
                let s = choose|s: &str| s@ == cs[i] && f.ensures((s,), false);
            }
        }
    }
    r
}

fn ref_check_exec(d: &Doc, k: usize, attr: &str, out: &mut Vec<Finding>)
    requires
        d.wf(),
        k < d.nodes.len(),
        crate::query::listed(d.model()[k as int]),
    ensures
        findings_view(final(out)@) == findings_view(old(out)@) + ref_check(d.model(), k as int, attr@),
{
    let ghost m = d.model();
    assert(node_wf(m, k as int, d.text@.len() as int));
    let owner = attr_value_str(&d.nodes[k], "Name").unwrap();
    let v = match d.first_child(k, "Props") {
        Some(p) => attr_value_str(&d.nodes[p], attr),
        None => None,
    };
    match v {
        None => {
            assert(findings_view(out@) =~= findings_view(old(out)@) + ref_check(m, k as int, attr@));
        },
        Some(val) => {
            if starts_with_str(val, "$(") {
                assert(findings_view(out@) =~= findings_view(old(out)@) + ref_check(m, k as int, attr@));
            } else {
                let os = string_of(owner);
                let vs = string_of(val);
                match crate::query::resolve_reference(os.as_str(), vs.as_str()) {
                    None => {
                        let mut msg = strv("cannot resolve ");
                        push_str(&mut msg, attr);
                        push_str(&mut msg, " `");
                        push_all(&mut msg, val);
                        push_str(&mut msg, "` (malformed relative path)");
                        push_finding(out, mk_finding(FindingLevel::Error, owner, &msg, None));
                        assert(findings_view(out@) =~= findings_view(old(out)@) + ref_check(m, k as int, attr@));
                    },
                    Some(abs) => {
                        if !resolves_in_exec(d, &abs) {
                            let av = crate::text::chars_of_string(&abs);
                            let mut msg = strv(attr);
                            push_str(&mut msg, " `");
                            push_all(&mut msg, val);
                            push_str(&mut msg, "` resolves to `");
                            push_all(&mut msg, &av);
                            push_str(&mut msg, "`, which is not a component (dangling reference \u{2014} M1-Build Error 1338)");
                            push_finding(out, mk_finding(FindingLevel::Error, owner, &msg, None));
                        }
                        assert(findings_view(out@) =~= findings_view(old(out)@) + ref_check(m, k as int, attr@));
                    },
                }
            }
        },
    }
}

fn refs_exec(d: &Doc, out: &mut Vec<Finding>)
    requires
        d.wf(),
    ensures
        findings_view(final(out)@) == findings_view(old(out)@) + refs_check_from(d.model(), 0),
{
    let ghost m = d.model();
    let ghost base = findings_view(out@);
    let mut i: usize = 0;
    while i < d.nodes.len()
        invariant
            d.wf(),
            m == d.model(),
            i <= d.nodes.len(),
            findings_view(out@) + refs_check_from(m, i as int) == base + refs_check_from(m, 0),
        decreases d.nodes.len() - i,
    {
        let ghost before = findings_view(out@);
        if is_real_component_exec(&d.nodes[i]) && attr_value_str(&d.nodes[i], "Name").is_some() {
            ref_check_exec(d, i, "Source", out);
            ref_check_exec(d, i, "Target", out);
            ref_check_exec(d, i, "NameTarget", out);
        }
        assert(findings_view(out@) + refs_check_from(m, i + 1) =~= before + refs_check_from(m, i as int));
        i = i + 1;
    }
    assert(findings_view(out@) =~= findings_view(out@) + refs_check_from(m, i as int));
}

pub open spec fn opt_paths(v: Seq<Option<Vec<char>>>) -> Seq<Option<Seq<char>>> {
    v.map_values(|o: Option<Vec<char>>| opt_cv(o))
}

/// The view-tree path of every node.
fn org_paths_exec(d: &Doc) -> (r: Vec<Option<Vec<char>>>)
    ensures
        r@.len() == d.nodes.len(),
        forall|k: int| 0 <= k < r@.len() ==> #[trigger] opt_cv(r@[k]) == org_path(d.model(), k),
{
    let ghost m = d.model();
    let mut r: Vec<Option<Vec<char>>> = Vec::new();
    let mut k: usize = 0;
    while k < d.nodes.len()
        invariant
            k <= d.nodes.len(),
            m == d.model(),
            r@.len() == k,
            forall|j: int| 0 <= j < k ==> #[trigger] opt_cv(r@[j]) == org_path(m, j),
        decreases d.nodes.len() - k,
    {
        let n = &d.nodes[k];
        let mut res: Option<Vec<char>> = None;
        if is_elem_str(n, "Component") {
            match attr_value_str(n, "Name") {
                Some(name) => match n.parent {
                    Some(p) => {
                        if p < k {
                            if is_elem_str(&d.nodes[p], "Organisation") {
                                res = Some(subvec(name, 0, name.len()));
                                assert(name@.subrange(0, name@.len() as int) =~= name@);
                            } else {
                                match &r[p] {
                                    Some(pp) => {
                                        if pp.len() == 0 {
                                            res = Some(subvec(name, 0, name.len()));
                                            assert(name@.subrange(0, name@.len() as int) =~= name@);
                                        } else {
                                            let mut x = subvec(pp, 0, pp.len());
                                            push_str(&mut x, ".");
                                            push_all(&mut x, name);
                                            assert(x@ =~= pp@ + "."@ + name@);
                                            res = Some(x);
                                        }
                                    },
                                    None => {},
                                }
                                assert(opt_cv(r@[p as int]) == org_path(m, p as int));
                            }
                        }
                    },
                    None => {},
                },
                None => {},
            }
        }
        assert(opt_cv(res) == org_path(m, k as int));
        r.push(res);
        k = k + 1;
    }
    r
}

fn path_listed_before(paths: &Vec<Option<Vec<char>>>, p: &Vec<char>, i: usize) -> (b: bool)
    requires
        i <= paths@.len(),
    ensures
        b == exists|j: int| 0 <= j < i && #[trigger] opt_cv(paths@[j]) == Some(p@),
{
    let mut j: usize = 0;
    while j < i
        invariant
            j <= i <= paths@.len(),
            forall|t: int| 0 <= t < j ==> #[trigger] opt_cv(paths@[t]) != Some(p@),
        decreases i - j,
    {
        match &paths[j] {
            Some(q) => {
                if seq_eq(q, p) {
                    assert(opt_cv(paths@[j as int]) == Some(p@));
                    return true;
                }
            },
            None => {},
        }
        j = j + 1;
    }
    false
}

fn org_exec(d: &Doc, out: &mut Vec<Finding>)
    ensures
        findings_view(final(out)@) == findings_view(old(out)@) + org_check(d.model()),
{
    let ghost m = d.model();
    let mut any = false;
    let mut i: usize = 0;
    while i < d.nodes.len() && !any
        invariant
            i <= d.nodes.len(),
            m == d.model(),
            any ==> has_org(m),
            !any ==> forall|t: int| 0 <= t < i ==> !#[trigger] is_elem(m[t], "Organisation"@),
        decreases d.nodes.len() - i,
    {
        if is_elem_str(&d.nodes[i], "Organisation") {
            assert(is_elem(m[i as int], "Organisation"@));
            any = true;
        }
        i = i + 1;
    }
    if !any {
        assert(findings_view(out@) =~= findings_view(old(out)@) + org_check(m));
        return;
    }
    let paths = org_paths_exec(d);
    let ghost base = findings_view(out@);
    let mut i: usize = 0;
    while i < d.nodes.len()
        invariant
            i <= d.nodes.len(),
            m == d.model(),
            paths@.len() == d.nodes.len(),
            forall|k: int| 0 <= k < paths@.len() ==> #[trigger] opt_cv(paths@[k]) == org_path(m, k),
            findings_view(out@) + org_missing_from(m, i as int) == base + org_missing_from(m, 0),
        decreases d.nodes.len() - i,
    {
        let ghost before = findings_view(out@);
        assert(opt_cv(paths@[i as int]) == org_path(m, i as int));
        match &paths[i] {
            Some(p) => {
                let seen = path_listed_before(&paths, p, i);
                proof {
                    if seen {
                        let j = choose|j: int| 0 <= j < i && #[trigger] opt_cv(paths@[j]) == Some(p@);
                        assert(org_path(m, j) == Some(p@));
                    } else {
                        assert forall|j: int| 0 <= j < i implies #[trigger] org_path(m, j) != Some(p@) by {
                            assert(opt_cv(paths@[j]) == org_path(m, j));
                        }
                    }
                }
                if !seen && d.find_component(p).is_none() {
                    let msg = strv("<Organisation> view references a component missing from <List> (M1-Build cannot bind its Properties)");
                    push_finding(out, mk_finding(FindingLevel::Error, p, &msg, Some(1338)));
                }
            },
            None => {},
        }
        assert(findings_view(out@) + org_missing_from(m, i + 1) =~= before + org_missing_from(m, i as int));
        i = i + 1;
    }
    let ghost mid = findings_view(out@);
    assert(findings_view(out@) =~= base + org_missing_from(m, 0));
    let mut i: usize = 0;
    while i < d.nodes.len()
        invariant
            i <= d.nodes.len(),
            m == d.model(),
            paths@.len() == d.nodes.len(),
            forall|k: int| 0 <= k < paths@.len() ==> #[trigger] opt_cv(paths@[k]) == org_path(m, k),
            findings_view(out@) + org_absent_from(m, i as int) == mid + org_absent_from(m, 0),
        decreases d.nodes.len() - i,
    {
        let ghost before = findings_view(out@);
        if first_of_name_exec(d, i) {
            let nm = attr_value_str(&d.nodes[i], "Name").unwrap();
            let found = path_listed_before(&paths, nm, paths.len());
            proof {
                if found {
                    let j = choose|j: int| 0 <= j < paths@.len() && #[trigger] opt_cv(paths@[j]) == Some(nm@);
                    assert(org_path(m, j) == Some(nm@));
                } else {
                    assert forall|j: int| 0 <= j < m.len() implies #[trigger] org_path(m, j) != Some(nm@) by {
                        assert(opt_cv(paths@[j]) == org_path(m, j));
                    }
                }
            }
            if !found {
                let msg = strv("component is absent from the <Organisation> view (M1-Build cannot bind its Properties; references error 1338)");
                push_finding(out, mk_finding(FindingLevel::Error, nm, &msg, Some(1338)));
            }
        }
        assert(findings_view(out@) + org_absent_from(m, i + 1) =~= before + org_absent_from(m, i as int));
        i = i + 1;
    }
    assert(findings_view(out@) =~= findings_view(old(out)@) + org_check(m));
}

pub open spec fn dbcs_view(v: Seq<(Vec<char>, Option<Vec<char>>)>) -> Seq<(Seq<char>, Option<Seq<char>>)> {
    v.map_values(|x: (Vec<char>, Option<Vec<char>>)| (x.0@, opt_cv(x.1)))
}

fn dbcs_exec(d: &Doc) -> (r: Vec<(Vec<char>, Option<Vec<char>>)>)
    ensures
        dbcs_view(r@) == dbcs_from(d.model(), 0),
{
    let ghost m = d.model();
    let mut r: Vec<(Vec<char>, Option<Vec<char>>)> = Vec::new();
    let mut i: usize = 0;
    while i < d.nodes.len()
        invariant
            i <= d.nodes.len(),
            m == d.model(),
            dbcs_from(m, 0) == dbcs_view(r@) + dbcs_from(m, i as int),
        decreases d.nodes.len() - i,
    {
        let n = &d.nodes[i];
        let ghost before = dbcs_view(r@);
        if is_real_component_exec(n) {
            match (attr_value_str(n, "Name"), attr_value_str(n, "Classname")) {
                (Some(nm), Some(c)) => {
                    if eq_str(c, "BuiltIn.CAN.DBC") {
                        let name = subvec(nm, 0, nm.len());
                        assert(name@ =~= nm@);
                        let md5 = match attr_value_str(n, "MD5") {
                            Some(h) => {
                                let cp = subvec(h, 0, h.len());
                                assert(cp@ =~= h@);
                                Some(cp)
                            },
                            None => None,
                        };
                        r.push((name, md5));
                        assert(dbcs_view(r@) =~= before + dbcs_from(m, i as int).take(1));
                    }
                },
                _ => {},
            }
        }
        i = i + 1;
    }
    assert(dbcs_view(r@) + Seq::<(Seq<char>, Option<Seq<char>>)>::empty() =~= dbcs_view(r@));
    r
}

fn md5_exec(ds: &Vec<(Vec<char>, Option<Vec<char>>)>, out: &mut Vec<Finding>)
    ensures
        findings_view(final(out)@) == findings_view(old(out)@) + md5_check(dbcs_view(ds@), 0),
{
    let ghost dv = dbcs_view(ds@);
    let zero = strv("00000000000000000000000000000000");
    let ghost base = findings_view(out@);
    let mut i: usize = 0;
    while i < ds.len()
        invariant
            i <= ds.len(),
            dv == dbcs_view(ds@),
            zero@ == zero_md5(),
            findings_view(out@) + md5_check(dv, i as int) == base + md5_check(dv, 0),
        decreases ds.len() - i,
    {
        let ghost before = findings_view(out@);
        assert(dv[i as int] == (ds@[i as int].0@, opt_cv(ds@[i as int].1)));
        match &ds[i].1 {
            None => {},
            Some(h) => {
                if eq_ic(h, &zero) {
                    let msg = strv("DBC module has the all-zero MD5 sentinel \u{2014} the CAN database was never imported; M1-Build cannot open the project");
                    push_finding(out, mk_finding(FindingLevel::Error, &ds[i].0, &msg, None));
                } else {
                    let mut j = i;
                    let mut prev: Option<usize> = None;
                    while j > 0 && prev.is_none()
                        invariant
                            j <= i < ds.len(),
                            dv == dbcs_view(ds@),
                            zero@ == zero_md5(),
                            prev is None ==> md5_prev(dv, h@, i as int) == md5_prev(dv, h@, j as int),
                            prev matches Some(t) ==> md5_prev(dv, h@, i as int) == Some(t as int) && t < ds.len(),
                        decreases j,
                    {
                        assert(dv[j - 1] == (ds@[j - 1].0@, opt_cv(ds@[j - 1].1)));
                        match &ds[j - 1].1 {
                            Some(h2) => {
                                if !eq_ic(h2, &zero) && eq_ic(h2, h) {
                                    prev = Some(j - 1);
                                }
                            },
                            None => {},
                        }
                        j = j - 1;
                    }
                    match prev {
                        Some(t) => {
                            let mut msg = cat3("duplicate DBC module hash: MD5 `", h, "` is already used by `");
                            push_all(&mut msg, &ds[t].0);
                            push_str(&mut msg, "` \u{2014} M1-Build cannot open a project with two identical CAN-database imports");
                            assert(dv[t as int].0 == ds@[t as int].0@);
                            push_finding(out, mk_finding(FindingLevel::Error, &ds[i].0, &msg, None));
                        },
                        None => {},
                    }
                }
            },
        }
        assert(findings_view(out@) + md5_check(dv, i + 1) =~= before + md5_check(dv, i as int));
        i = i + 1;
    }
    assert(findings_view(out@) =~= findings_view(out@) + md5_check(dv, i as int));
}

fn collision_exec(d: &Doc, name: &Vec<char>, leaf: &Vec<char>, parent: &str, out: &mut Vec<Finding>)
    ensures
        findings_view(final(out)@) == findings_view(old(out)@) + collision(d.model(), name@, leaf@, parent@),
{
    let mut cand = strv(parent);
    push_str(&mut cand, ".");
    push_all(&mut cand, leaf);
    if d.find_component(&cand).is_some() {
        let mut msg = cat3("DBC module name `", leaf, "` collides with the project object `");
        push_all(&mut msg, &cand);
        push_str(&mut msg, "` \u{2014} M1-Build may fail to open the project (a CAN-database name and an object name must not clash)");
        push_finding(out, mk_finding(FindingLevel::Warning, name, &msg, None));
        assert(findings_view(out@) =~= findings_view(old(out)@) + collision(d.model(), name@, leaf@, parent@));
    } else {
        assert(findings_view(out@) =~= findings_view(old(out)@) + collision(d.model(), name@, leaf@, parent@));
    }
}

fn collide_exec(d: &Doc, ds: &Vec<(Vec<char>, Option<Vec<char>>)>, out: &mut Vec<Finding>)
    ensures
        findings_view(final(out)@) == findings_view(old(out)@) + collide_check(d.model(), dbcs_view(ds@), 0),
{
    let ghost m = d.model();
    let ghost dv = dbcs_view(ds@);
    let ghost base = findings_view(out@);
    let mut i: usize = 0;
    while i < ds.len()
        invariant
            i <= ds.len(),
            m == d.model(),
            dv == dbcs_view(ds@),
            findings_view(out@) + collide_check(m, dv, i as int) == base + collide_check(m, dv, 0),
        decreases ds.len() - i,
    {
        let ghost before = findings_view(out@);
        let name = &ds[i].0;
        assert(dv[i as int].0 == name@);
        if starts_with_str(name, "DBC.") {
            proof {
                reveal_strlit("DBC.");
            }
            let leaf = subvec(name, 4, name.len());
            assert(leaf@ =~= name@.skip(4));
            collision_exec(d, name, &leaf, "Root.CAN", out);
            collision_exec(d, name, &leaf, "Root.Control", out);
        }
        assert(findings_view(out@) + collide_check(m, dv, i + 1) =~= before + collide_check(m, dv, i as int));
        i = i + 1;
    }
    assert(findings_view(out@) =~= findings_view(out@) + collide_check(m, dv, i as int));
}

/// All findings of a parsed project, with the module templates `cat`.
pub fn validate_doc(d: &Doc, cat: &Vec<ModuleTemplate>) -> (r: Vec<Finding>)
    requires
        d.wf(),
    ensures
        findings_view(r@) == validate_model(d.model(), catalog_view(cat@)),
{
    let ghost m = d.model();
    let mut root: Option<usize> = None;
    let mut i: usize = 1;
    while i < d.nodes.len() && root.is_none()
        invariant
            1 <= i,
            i <= d.nodes.len() || d.nodes.len() == 0,
            m == d.model(),
            root is None ==> root_from(m, 1) == root_from(m, i as int),
            root matches Some(r) ==> root_from(m, 1) == Some(r as int) && r < d.nodes.len(),
        decreases d.nodes.len() - i,
    {
        if d.nodes[i].element && d.nodes[i].parent == Some(0) {
            root = Some(i);
        }
        i = i + 1;
    }
    let mut out: Vec<Finding> = Vec::new();
    let r = match root {
        None => {
            let msg = strv("invalid project document envelope: root element must be exactly <MoTeCM1BuildSession>");
            push_finding(&mut out, mk_finding(FindingLevel::Error, &Vec::new(), &msg, None));
            assert(findings_view(out@) =~= validate_model(m, catalog_view(cat@)));
            return out;
        },
        Some(r) => r,
    };
    if !is_elem_str(&d.nodes[r], "MoTeCM1BuildSession") {
        let msg = strv("invalid project document envelope: root element must be exactly <MoTeCM1BuildSession>");
        push_finding(&mut out, mk_finding(FindingLevel::Error, &d.nodes[r].tag, &msg, None));
        assert(findings_view(out@) =~= validate_model(m, catalog_view(cat@)));
        return out;
    }
    assert(node_wf(m, r as int, d.text@.len() as int));
    let hi = match d.nodes[r].last {
        Some(l) => l,
        None => 0,
    };
    let mut count: usize = 0;
    let mut j: usize = r + 1;
    while j <= hi
        invariant
            m == d.model(),
            r < j,
            hi < d.nodes.len(),
            hi == last_of(m, r as int),
            count <= j,
            project_children(m, r as int, r + 1, hi + 1) == count + project_children(m, r as int, j as int, hi + 1),
        decreases hi + 1 - j,
    {
        if d.nodes[j].parent == Some(r) && is_elem_str(&d.nodes[j], "Project") {
            count = count + 1;
        }
        j = j + 1;
    }
    let ghost n = project_children(m, r as int, r + 1, last_of(m, r as int) + 1);
    assert(n == count);
    if count != 1 {
        let mut msg = strv("invalid project document envelope: expected exactly one direct <Project> child, found ");
        push_all(&mut msg, &decimal_exec(count as u64));
        push_finding(&mut out, mk_finding(FindingLevel::Error, &strv("MoTeCM1BuildSession"), &msg, None));
    }
    let ghost env = findings_view(out@);
    assert(env =~= (if n != 1 {
        seq![
            fv(
                FindingLevel::Error,
                "MoTeCM1BuildSession"@,
                "invalid project document envelope: expected exactly one direct <Project> child, found "@
                    + decimal(n),
                None,
            ),
        ]
    } else {
        Seq::<FindingV>::empty()
    }));
    let roles = crate::query::declared_roles(d);
    let groups = tag_groups();
    all_comp_exec(d, cat, &roles, &groups, &mut out);
    sensor_exec(d, cat, &mut out);
    dup_exec(d, &mut out);
    trig_exec(d, &mut out);
    refs_exec(d, &mut out);
    org_exec(d, &mut out);
    let ds = dbcs_exec(d);
    md5_exec(&ds, &mut out);
    collide_exec(d, &ds, &mut out);
    assert(findings_view(out@) =~= env + raw_findings(m, catalog_view(cat@)));
    let sorted = sort_by_path(out);
    assert(root_from(m, 1) == Some(r as int));
    assert(is_elem(m[r as int], "MoTeCM1BuildSession"@));
    sorted
}

/// Validate a project for structural correctness: every finding (not fail-fast),
/// sorted by path then message. Fails only when the text is not XML.
pub fn validate(xml: &str) -> (r: Result<Vec<Finding>, EditError>)
    ensures
        r matches Ok(v) ==> doc_model(xml@) matches Some(m) && findings_view(v@) == validate_model(
            m,
            Seq::empty(),
        ),
        r matches Err(e) ==> doc_model(xml@) is None && e@ == parse_err(xml@),
{
    let d = parse_doc(xml)?;
    let cat: Vec<ModuleTemplate> = Vec::new();
    assert(catalog_view(cat@) =~= Seq::<TemplateV>::empty());
    Ok(validate_doc(&d, &cat))
}

// ---- module templates from .m1mod files ---------------------------------------------

/// The relative path of a template component: `""` for `Base`, the rest after
/// `Base.`, `None` for anything else.
pub open spec fn template_rel(name: Seq<char>) -> Option<Seq<char>> {
    if name == "Base"@ {
        Some(Seq::empty())
    } else if has_prefix(name, "Base."@) {
        Some(name.skip(5))
    } else {
        None
    }
}

/// The entries of the template whose `<List>` is node `l`: its real component
/// children (from node `i` below `hi`) named `Base` or `Base.…`.
pub open spec fn template_from(m: Seq<NodeV>, l: int, i: int, hi: int) -> Seq<(Seq<char>, ModCompV)>
    decreases hi - i,
{
    if i < 0 || i >= hi || i >= m.len() {
        Seq::empty()
    } else {
        let rest = template_from(m, l, i + 1, hi);
        if m[i].parent == Some(l as usize) && crate::query::listed(m[i]) && template_rel(name_of(m, i)) is Some {
            seq![
                (
                    template_rel(name_of(m, i)).unwrap(),
                    ModCompV { tags: component_tags(m, i), tc: props_attr(m, i, "TargetCreation"@) },
                ),
            ] + rest
        } else {
            rest
        }
    }
}

/// The `<List>` of a `<Module>`: the first `<List>` child of its first
/// `<ComponentStream>` child.
pub open spec fn module_list(m: Seq<NodeV>, k: int) -> Option<int> {
    match first_child(m, k, "ComponentStream"@) {
        Some(c) => first_child(m, c, "List"@),
        None => None,
    }
}

/// The templates of the `<Module>` elements among nodes `i..` of a module set
/// named `set`.
pub open spec fn modules_from(m: Seq<NodeV>, set: Seq<char>, i: int) -> Seq<TemplateV>
    decreases m.len() - i,
{
    if i < 0 || i >= m.len() {
        Seq::empty()
    } else {
        let rest = modules_from(m, set, i + 1);
        if is_elem(m[i], "Module"@) && attr_val(m[i], "Name"@) is Some && module_list(m, i) is Some {
            let l = module_list(m, i).unwrap();
            seq![
                TemplateV {
                    class_name: set + "."@ + last_segment(attr_val(m[i], "Name"@).unwrap()),
                    entries: template_from(m, l, l + 1, last_of(m, l) + 1),
                },
            ] + rest
        } else {
            rest
        }
    }
}

/// The templates one `.m1mod` text contributes.
pub open spec fn module_templates(x: Seq<char>) -> Result<Seq<TemplateV>, ErrV> {
    match doc_model(x) {
        None => Err(
            ErrV::Invalid(
                "invalid .m1mod XML: "@ + match parse_err(x) {
                    ErrV::Xml(msg) => msg,
                    _ => Seq::empty(),
                },
            ),
        ),
        Some(m) => match root_from(m, 1) {
            None => Err(
                ErrV::Invalid(
                    "invalid .m1mod envelope: root element must be exactly <MoTecM1BuildModuleSet>, found <>"@,
                ),
            ),
            Some(r) => if !is_elem(m[r], "MoTecM1BuildModuleSet"@) {
                Err(
                    ErrV::Invalid(
                        "invalid .m1mod envelope: root element must be exactly <MoTecM1BuildModuleSet>, found <"@
                            + m[r].tag + ">"@,
                    ),
                )
            } else {
                match attr_val(m[r], "Name"@) {
                    None => Err(ErrV::Invalid("invalid .m1mod: module set has no Name"@)),
                    Some(set) => Ok(modules_from(m, set, 0)),
                }
            },
        },
    }
}

/// `module_catalog`: the templates of every module text, in order (a later one
/// overrides an earlier one of the same class); the first failing text's error.
pub open spec fn catalog_of(xs: Seq<Seq<char>>) -> Result<Seq<TemplateV>, ErrV>
    decreases xs.len(),
{
    if xs.len() == 0 {
        Ok(Seq::empty())
    } else {
        match catalog_of(xs.drop_last()) {
            Err(e) => Err(e),
            Ok(c) => match module_templates(xs.last()) {
                Err(e) => Err(e),
                Ok(t) => Ok(c + t),
            },
        }
    }
}

fn template_exec(d: &Doc, l: usize) -> (r: Vec<ModuleEntry>)
    requires
        d.wf(),
        l < d.nodes.len(),
    ensures
        r@.map_values(|e: ModuleEntry| (e.relative@, e.component@)) == template_from(
            d.model(),
            l as int,
            l + 1,
            last_of(d.model(), l as int) + 1,
        ),
{
    let ghost m = d.model();
    assert(node_wf(m, l as int, d.text@.len() as int));
    let hi = match d.nodes[l].last {
        Some(x) => x,
        None => 0,
    };
    let mut r: Vec<ModuleEntry> = Vec::new();
    let mut i: usize = l + 1;
    while i <= hi
        invariant
            d.wf(),
            m == d.model(),
            hi == last_of(m, l as int),
            hi < d.nodes.len(),
            l < i,
            template_from(m, l as int, l + 1, hi + 1) == r@.map_values(
                |e: ModuleEntry| (e.relative@, e.component@),
            ) + template_from(m, l as int, i as int, hi + 1),
        decreases hi + 1 - i,
    {
        let n = &d.nodes[i];
        let ghost before = r@.map_values(|e: ModuleEntry| (e.relative@, e.component@));
        if n.parent == Some(l) && is_real_component_exec(n) {
            match attr_value_str(n, "Name") {
                Some(nm) => {
                    let rel: Option<Vec<char>> = if eq_str(nm, "Base") {
                        Some(Vec::new())
                    } else if starts_with_str(nm, "Base.") {
                        proof {
                            reveal_strlit("Base.");
                        }
                        let x = subvec(nm, 5, nm.len());
                        assert(x@ =~= nm@.skip(5));
                        Some(x)
                    } else {
                        None
                    };
                    assert(opt_cv(rel) == template_rel(nm@));
                    match rel {
                        Some(relative) => {
                            let tags = component_tags_exec(d, i);
                            assert(node_wf(m, i as int, d.text@.len() as int));
                            let tc = match d.first_child(i, "Props") {
                                Some(p) => match attr_value_str(&d.nodes[p], "TargetCreation") {
                                    Some(v) => {
                                        let cp = subvec(v, 0, v.len());
                                        assert(cp@ =~= v@);
                                        Some(cp)
                                    },
                                    None => None,
                                },
                                None => None,
                            };
                            let e = ModuleEntry {
                                relative,
                                component: ModuleComponent { tags, target_creation: tc },
                            };
                            r.push(e);
                            assert(r@.map_values(|e: ModuleEntry| (e.relative@, e.component@)) =~= before
                                + template_from(m, l as int, i as int, hi + 1).take(1));
                        },
                        None => {},
                    }
                },
                None => {},
            }
        }
        i = i + 1;
    }
    assert(r@.map_values(|e: ModuleEntry| (e.relative@, e.component@)) + Seq::<(Seq<char>, ModCompV)>::empty()
        =~= r@.map_values(|e: ModuleEntry| (e.relative@, e.component@)));
    r
}

fn module_templates_exec(x: &str) -> (r: Result<Vec<ModuleTemplate>, EditError>)
    ensures
        match r {
            Ok(v) => module_templates(x@) == Ok::<Seq<TemplateV>, ErrV>(catalog_view(v@)),
            Err(e) => module_templates(x@) == Err::<Seq<TemplateV>, ErrV>(e@),
        },
{
    let d = match parse_doc(x) {
        Ok(d) => d,
        Err(e) => {
            let mut msg = strv("invalid .m1mod XML: ");
            match e {
                EditError::Xml(s) => push_all(&mut msg, &crate::text::chars_of_string(&s)),
                _ => {},
            }
            return Err(EditError::Invalid(string_of(&msg)));
        },
    };
    let ghost m = d.model();
    let mut root: Option<usize> = None;
    let mut i: usize = 1;
    while i < d.nodes.len() && root.is_none()
        invariant
            1 <= i,
            m == d.model(),
            root is None ==> root_from(m, 1) == root_from(m, i as int),
            root matches Some(r) ==> root_from(m, 1) == Some(r as int) && r < d.nodes.len(),
        decreases d.nodes.len() - i,
    {
        if d.nodes[i].element && d.nodes[i].parent == Some(0) {
            root = Some(i);
        }
        i = i + 1;
    }
    let r = match root {
        None => {
            let msg = strv("invalid .m1mod envelope: root element must be exactly <MoTecM1BuildModuleSet>, found <>");
            return Err(EditError::Invalid(string_of(&msg)));
        },
        Some(r) => r,
    };
    if !is_elem_str(&d.nodes[r], "MoTecM1BuildModuleSet") {
        let mut msg = cat3("invalid .m1mod envelope: root element must be exactly <MoTecM1BuildModuleSet>, found <", &d.nodes[r].tag, ">");
        return Err(EditError::Invalid(string_of(&msg)));
    }
    let set = match attr_value_str(&d.nodes[r], "Name") {
        Some(v) => v,
        None => {
            let msg = strv("invalid .m1mod: module set has no Name");
            return Err(EditError::Invalid(string_of(&msg)));
        },
    };
    let mut out: Vec<ModuleTemplate> = Vec::new();
    let mut k: usize = 0;
    while k < d.nodes.len()
        invariant
            d.wf(),
            m == d.model(),
            k <= d.nodes.len(),
            modules_from(m, set@, 0) == catalog_view(out@) + modules_from(m, set@, k as int),
        decreases d.nodes.len() - k,
    {
        let n = &d.nodes[k];
        let ghost before = catalog_view(out@);
        if is_elem_str(n, "Module") {
            match attr_value_str(n, "Name") {
                Some(mn) => {
                    assert(node_wf(m, k as int, d.text@.len() as int));
                    let list = match d.first_child(k, "ComponentStream") {
                        Some(c) => {
                            assert(node_wf(m, c as int, d.text@.len() as int));
                            d.first_child(c, "List")
                        },
                        None => None,
                    };
                    match list {
                        Some(l) => {
                            assert(node_wf(m, l as int, d.text@.len() as int));
                            let mut cls = subvec(set, 0, set.len());
                            push_str(&mut cls, ".");
                            push_all(&mut cls, &last_segment_exec(mn));
                            assert(cls@ =~= set@ + "."@ + last_segment(mn@));
                            let entries = template_exec(&d, l);
                            assert(module_list(m, k as int) == Some(l as int));
                            let t = ModuleTemplate { class_name: cls, entries };
                            assert(t@ == TemplateV {
                                class_name: set@ + "."@ + last_segment(mn@),
                                entries: template_from(m, l as int, l + 1, last_of(m, l as int) + 1),
                            });
                            out.push(t);
                            assert(catalog_view(out@) =~= before + modules_from(m, set@, k as int).take(1));
                        },
                        None => {},
                    }
                },
                None => {},
            }
        }
        k = k + 1;
    }
    assert(catalog_view(out@) + Seq::<TemplateV>::empty() =~= catalog_view(out@));
    Ok(out)
}

/// The module templates of the selected `.m1mod` texts.
pub fn module_catalog(module_xmls: &[&str]) -> (r: Result<Vec<ModuleTemplate>, EditError>)
    ensures
        match r {
            Ok(v) => catalog_of(module_xmls@.map_values(|x: &str| x@)) == Ok::<Seq<TemplateV>, ErrV>(
                catalog_view(v@),
            ),
            Err(e) => catalog_of(module_xmls@.map_values(|x: &str| x@)) == Err::<Seq<TemplateV>, ErrV>(e@),
        },
{
    let ghost xs = module_xmls@.map_values(|x: &str| x@);
    let mut cat: Vec<ModuleTemplate> = Vec::new();
    let mut i: usize = 0;
    assert(xs.take(0) =~= Seq::<Seq<char>>::empty());
    assert(catalog_view(cat@) =~= Seq::<TemplateV>::empty());
    while i < module_xmls.len()
        invariant
            i <= module_xmls@.len(),
            xs == module_xmls@.map_values(|x: &str| x@),
            catalog_of(xs.take(i as int)) == Ok::<Seq<TemplateV>, ErrV>(catalog_view(cat@)),
        decreases module_xmls@.len() - i,
    {
        assert(xs.take(i + 1).drop_last() =~= xs.take(i as int));
        assert(xs.take(i + 1).last() == module_xmls@[i as int]@);
        match module_templates_exec(module_xmls[i]) {
            Err(e) => {
                proof {
                    lemma_catalog_err(xs, i as int + 1, e@);
                }
                return Err(e);
            },
            Ok(mut ts) => {
                let ghost before = catalog_view(cat@);
                let ghost tv = catalog_view(ts@);
                cat.append(&mut ts);
                assert(catalog_view(cat@) =~= before + tv);
            },
        }
        i = i + 1;
    }
    assert(xs.take(i as int) =~= xs);
    Ok(cat)
}

/// Once a prefix of the texts fails, the whole catalog fails the same way.
proof fn lemma_catalog_err(xs: Seq<Seq<char>>, n: int, e: ErrV)
    requires
        0 < n <= xs.len(),
        catalog_of(xs.take(n)) == Err::<Seq<TemplateV>, ErrV>(e),
    ensures
        catalog_of(xs) == Err::<Seq<TemplateV>, ErrV>(e),
    decreases xs.len() - n,
{
    if n < xs.len() {
        assert(xs.take(n + 1).drop_last() =~= xs.take(n));
        lemma_catalog_err(xs, n + 1, e);
    } else {
        assert(xs.take(n) =~= xs);
    }
}

/// Validate a project with the selected module-set definitions: module instances
/// inherit tags and `TargetCreation` values their templates define. The module
/// texts are read first; a malformed one is refused.
pub fn validate_with_modules(xml: &str, module_xmls: &[&str]) -> (r: Result<Vec<Finding>, EditError>)
    ensures
        match catalog_of(module_xmls@.map_values(|x: &str| x@)) {
            Err(e) => r matches Err(e2) && e2@ == e,
            Ok(cat) => match doc_model(xml@) {
                None => r matches Err(e2) && e2@ == parse_err(xml@),
                Some(m) => r matches Ok(v) && findings_view(v@) == validate_model(m, cat),
            },
        },
{
    let cat = module_catalog(module_xmls)?;
    let d = parse_doc(xml)?;
    Ok(validate_doc(&d, &cat))
}

// ---- CAN-database modules ---------------------------------------------------------------

/// A DBCRoot module entry: the `BuiltIn.CAN.DBC` component's `Name`
/// (`DBC.<module>`), its module leaf, and the imported database's `MD5`.
#[derive(Debug, Clone)]
pub struct DbcModule {
    pub name: String,
    pub module: String,
    pub md5: Option<String>,
}

pub open spec fn dbc_view(v: Seq<DbcModule>) -> Seq<(Seq<char>, Seq<char>, Option<Seq<char>>)> {
    v.map_values(|d: DbcModule| (d.name@, d.module@, opt_view(d.md5)))
}

/// The module leaf of a `DBC.<module>` name (the name itself without the prefix).
pub open spec fn dbc_leaf(name: Seq<char>) -> Seq<char> {
    if has_prefix(name, "DBC."@) {
        name.skip(4)
    } else {
        name
    }
}

pub open spec fn dbc_modules_spec(m: Seq<NodeV>) -> Seq<(Seq<char>, Seq<char>, Option<Seq<char>>)> {
    dbcs_from(m, 0).map_values(|x: (Seq<char>, Option<Seq<char>>)| (x.0, dbc_leaf(x.0), x.1))
}

/// The project's DBCRoot module entries, in document order.
pub fn dbc_modules(xml: &str) -> (r: Result<Vec<DbcModule>, EditError>)
    ensures
        r matches Ok(v) ==> doc_model(xml@) matches Some(m) && dbc_view(v@) == dbc_modules_spec(m),
        r matches Err(e) ==> doc_model(xml@) is None && e@ == parse_err(xml@),
{
    let d = parse_doc(xml)?;
    let ds = dbcs_exec(&d);
    let ghost dv = dbcs_view(ds@);
    let mut out: Vec<DbcModule> = Vec::new();
    let mut i: usize = 0;
    while i < ds.len()
        invariant
            i <= ds.len(),
            dv == dbcs_view(ds@),
            dbc_view(out@) == dv.map_values(|x: (Seq<char>, Option<Seq<char>>)| (x.0, dbc_leaf(x.0), x.1)).take(
                i as int,
            ),
        decreases ds.len() - i,
    {
        let (name, md5) = &ds[i];
        let leaf = if starts_with_str(name, "DBC.") {
            proof {
                reveal_strlit("DBC.");
            }
            subvec(name, 4, name.len())
        } else {
            subvec(name, 0, name.len())
        };
        assert(leaf@ =~= dbc_leaf(name@));
        let ghost before = dbc_view(out@);
        let e = DbcModule {
            name: string_of(name),
            module: string_of(&leaf),
            md5: match md5 {
                Some(h) => Some(string_of(h)),
                None => None,
            },
        };
        assert(opt_view(e.md5) == opt_cv(*md5));
        let ghost ev = (e.name@, e.module@, opt_view(e.md5));
        out.push(e);
        assert(dbc_view(out@) =~= before.push(ev));
        assert(dv[i as int] == (name@, opt_cv(*md5)));
        assert(dbc_view(out@) =~= dv.map_values(|x: (Seq<char>, Option<Seq<char>>)| (x.0, dbc_leaf(x.0), x.1)).take(
            i + 1,
        ));
        i = i + 1;
    }
    assert(dv.map_values(|x: (Seq<char>, Option<Seq<char>>)| (x.0, dbc_leaf(x.0), x.1)).take(i as int)
        =~= dv.map_values(|x: (Seq<char>, Option<Seq<char>>)| (x.0, dbc_leaf(x.0), x.1)));
    Ok(out)
}

/// The first `BuiltIn.CAN.DBC` component among nodes `i..`.
pub open spec fn inner_dbc_from(m: Seq<NodeV>, i: int) -> Option<int>
    decreases m.len() - i,
{
    if i < 0 || i >= m.len() {
        None
    } else if is_real_component(m[i]) && attr_val(m[i], "Classname"@) == Some("BuiltIn.CAN.DBC"@) {
        Some(i)
    } else {
        inner_dbc_from(m, i + 1)
    }
}

pub open spec fn bq(s: Seq<char>) -> Seq<char> {
    "`"@ + s + "`"@
}

pub open spec fn dbc_none_message(file: Seq<char>) -> Seq<char> {
    bq(file) + " has no internal BuiltIn.CAN.DBC component \u{2014} it is not a valid CAN database file"@
}

pub open spec fn dbc_module_message(file: Seq<char>, inner: Seq<char>, module: Seq<char>) -> Seq<char> {
    bq(file) + " internal module name "@ + bq(inner) + " does not match the DBCRoot module "@ + bq(module)
}

pub open spec fn dbc_stem_message(file: Seq<char>, inner: Seq<char>, stem: Seq<char>) -> Seq<char> {
    bq(file) + " internal module name "@ + bq(inner) + " does not match its filename stem "@ + bq(stem)
}

pub open spec fn dbc_md5_message(file: Seq<char>, h: Seq<char>, e: Seq<char>) -> Seq<char> {
    bq(file) + " internal MD5 "@ + bq(h) + " does not match the DBCRoot MD5 "@ + bq(e)
        + " \u{2014} the imported database is out of sync"@
}

/// The checks of the database's own module component.
pub open spec fn dbc_inner_checks(
    m: Seq<NodeV>,
    comp: Seq<char>,
    module: Seq<char>,
    expected: Option<Seq<char>>,
    stem: Seq<char>,
    file: Seq<char>,
) -> Seq<FindingV> {
    match inner_dbc_from(m, 0) {
        None => seq![
            fv(
                FindingLevel::Error,
                comp,
                dbc_none_message(file),
                None,
            ),
        ],
        Some(k) => {
            let inner = attr_val(m[k], "Name"@).unwrap_or(Seq::empty());
            (if inner != module {
                seq![
                    fv(
                        FindingLevel::Error,
                        comp,
                        dbc_module_message(file, inner, module),
                        None,
                    ),
                ]
            } else if inner != stem {
                seq![
                    fv(
                        FindingLevel::Error,
                        comp,
                        dbc_stem_message(file, inner, stem),
                        None,
                    ),
                ]
            } else {
                Seq::empty()
            }) + match expected {
                Some(e) => {
                    let h = attr_val(m[k], "MD5"@).unwrap_or(Seq::empty());
                    if !eq_ignore_ascii_case(h, e) {
                        seq![
                            fv(
                                FindingLevel::Error,
                                comp,
                                dbc_md5_message(file, h, e),
                                None,
                            ),
                        ]
                    } else {
                        Seq::empty()
                    }
                },
                None => Seq::empty(),
            }
        },
    }
}

pub open spec fn has_org_path(m: Seq<NodeV>) -> bool {
    exists|k: int| 0 <= k < m.len() && #[trigger] org_path(m, k) is Some
}

pub open spec fn dbc_missing_from(m: Seq<NodeV>, comp: Seq<char>, file: Seq<char>, i: int) -> Seq<FindingV>
    decreases m.len() - i,
{
    if i < 0 || i >= m.len() {
        Seq::empty()
    } else {
        let rest = dbc_missing_from(m, comp, file, i + 1);
        match org_path(m, i) {
            Some(p) => if !(exists|j: int| 0 <= j < i && #[trigger] org_path(m, j) == Some(p)) && find_component(
                m,
                p,
            ) is None {
                seq![
                    fv(
                        FindingLevel::Error,
                        comp,
                        bq(file) + ": <Organisation> node "@ + bq(p)
                            + " has no matching <List> component \u{2014} M1-Build cannot find its Properties"@,
                        Some(1338),
                    ),
                ] + rest
            } else {
                rest
            },
            None => rest,
        }
    }
}

pub open spec fn dbc_absent_from(m: Seq<NodeV>, comp: Seq<char>, file: Seq<char>, i: int) -> Seq<FindingV>
    decreases m.len() - i,
{
    if i < 0 || i >= m.len() {
        Seq::empty()
    } else {
        let rest = dbc_absent_from(m, comp, file, i + 1);
        if first_of_name(m, i) && !in_org(m, name_of(m, i)) {
            seq![
                fv(
                    FindingLevel::Error,
                    comp,
                    bq(file) + ": <List> component "@ + bq(name_of(m, i))
                        + " is absent from the <Organisation> view \u{2014} M1-Build cannot bind its Properties"@,
                    Some(1338),
                ),
            ] + rest
        } else {
            rest
        }
    }
}

/// `validate_dbc_file`: the database's internal module name and MD5 against the
/// DBCRoot entry and its filename, and its own `<List>`/`<Organisation>` agreement
/// (checked only when it has view nodes), sorted by path then message.
pub open spec fn dbc_file_model(
    m: Seq<NodeV>,
    comp: Seq<char>,
    module: Seq<char>,
    expected: Option<Seq<char>>,
    stem: Seq<char>,
    file: Seq<char>,
) -> Seq<FindingV> {
    sort_findings(
        dbc_inner_checks(m, comp, module, expected, stem, file) + if has_org_path(m) {
            dbc_missing_from(m, comp, file, 0) + dbc_absent_from(m, comp, file, 0)
        } else {
            Seq::empty()
        },
    )
}

fn bq_exec(s: &Vec<char>) -> (r: Vec<char>)
    ensures
        r@ == bq(s@),
{
    cat3("`", s, "`")
}

fn is_dbc_comp(n: &crate::xml::XmlNode) -> (b: bool)
    ensures
        b == (is_real_component(n@) && attr_val(n@, "Classname"@) == Some("BuiltIn.CAN.DBC"@)),
{
    is_real_component_exec(n) && match attr_value_str(n, "Classname") {
        Some(c) => eq_str(c, "BuiltIn.CAN.DBC"),
        None => false,
    }
}

proof fn lemma_dbc_message_chars(file: Seq<char>, inner: Seq<char>, module: Seq<char>, stem: Seq<char>, h: Seq<char>, e: Seq<char>)
    ensures
        ({
            let n = bq(file).len() as int;
            let j = n + 22 + bq(inner).len() + 16;
            &&& dbc_none_message(file).len() > n + 10 && dbc_none_message(file)[n + 1] == 'h'
            &&& dbc_module_message(file, inner, module).len() > j
            &&& dbc_module_message(file, inner, module)[n + 1] == 'i'
            &&& dbc_module_message(file, inner, module)[n + 10] == 'm'
            &&& dbc_module_message(file, inner, module)[j] == 't'
            &&& dbc_stem_message(file, inner, stem).len() > j
            &&& dbc_stem_message(file, inner, stem)[n + 1] == 'i'
            &&& dbc_stem_message(file, inner, stem)[n + 10] == 'm'
            &&& dbc_stem_message(file, inner, stem)[j] == 'i'
            &&& dbc_md5_message(file, h, e).len() > n + 10
            &&& dbc_md5_message(file, h, e)[n + 1] == 'i'
            &&& dbc_md5_message(file, h, e)[n + 10] == 'M'
        }),
{
    reveal_strlit(" has no internal BuiltIn.CAN.DBC component \u{2014} it is not a valid CAN database file");
    reveal_strlit(" internal module name ");
    reveal_strlit(" does not match the DBCRoot module ");
    reveal_strlit(" does not match its filename stem ");
    reveal_strlit(" internal MD5 ");
    reveal_strlit("`");
}

pub open spec fn dbc_org_like(f: FindingV, comp: Seq<char>) -> bool {
    f.path == comp && f.level == FindingLevel::Error && f.code == Some(1338u32)
}

proof fn lemma_dbc_org_like(m: Seq<NodeV>, comp: Seq<char>, file: Seq<char>, i: int)
    ensures
        forall|j: int| 0 <= j < dbc_missing_from(m, comp, file, i).len() ==> dbc_org_like(
            #[trigger] dbc_missing_from(m, comp, file, i)[j],
            comp,
        ),
        forall|j: int| 0 <= j < dbc_absent_from(m, comp, file, i).len() ==> dbc_org_like(
            #[trigger] dbc_absent_from(m, comp, file, i)[j],
            comp,
        ),
    decreases m.len() - i,
{
    if !(i < 0 || i >= m.len()) {
        lemma_dbc_org_like(m, comp, file, i + 1);
        let r1 = dbc_missing_from(m, comp, file, i + 1);
        let r2 = dbc_absent_from(m, comp, file, i + 1);
        assert forall|x: FindingV| dbc_org_like(x, comp) implies forall|j: int| 0 <= j < (seq![x] + r1).len()
            ==> dbc_org_like(#[trigger] (seq![x] + r1)[j], comp) by {
            assert forall|j: int| 0 <= j < (seq![x] + r1).len() implies dbc_org_like(#[trigger] (seq![x] + r1)[j], comp) by {
                if j > 0 {
                    assert((seq![x] + r1)[j] == r1[j - 1]);
                }
            }
        }
        assert forall|x: FindingV| dbc_org_like(x, comp) implies forall|j: int| 0 <= j < (seq![x] + r2).len()
            ==> dbc_org_like(#[trigger] (seq![x] + r2)[j], comp) by {
            assert forall|j: int| 0 <= j < (seq![x] + r2).len() implies dbc_org_like(#[trigger] (seq![x] + r2)[j], comp) by {
                if j > 0 {
                    assert((seq![x] + r2)[j] == r2[j - 1]);
                }
            }
        }
    }
}

/// The database's module component is out of sync: it exists, an MD5 is expected
/// and its own (`""` when absent) differs from it, ignoring ASCII case.
pub open spec fn dbc_md5_out_of_sync(m: Seq<NodeV>, expected: Option<Seq<char>>) -> bool {
    match (inner_dbc_from(m, 0), expected) {
        (Some(k), Some(e)) => !eq_ignore_ascii_case(attr_val(m[k], "MD5"@).unwrap_or(Seq::empty()), e),
        _ => false,
    }
}

/// What `validate_dbc_file` reports: every finding is an error at `comp`, the
/// findings are ordered by message, an MD5 finding comes exactly when the module
/// component's MD5 is out of sync, and the filename-stem finding comes exactly when
/// the module component's `Name` matches the module and not the stem.
pub proof fn lemma_dbc_file_findings(
    m: Seq<NodeV>,
    comp: Seq<char>,
    module: Seq<char>,
    expected: Option<Seq<char>>,
    stem: Seq<char>,
    file: Seq<char>,
)
    ensures
        forall|j: int| 0 <= j < dbc_file_model(m, comp, module, expected, stem, file).len() ==> (#[trigger] dbc_file_model(m, comp, module, expected, stem, file)[j]).path == comp
            && dbc_file_model(m, comp, module, expected, stem, file)[j].level == FindingLevel::Error,
        forall|i: int, j: int| 0 <= i < j < dbc_file_model(m, comp, module, expected, stem, file).len() ==> lex_le(
            dbc_file_model(m, comp, module, expected, stem, file)[i].message,
            dbc_file_model(m, comp, module, expected, stem, file)[j].message,
        ),
        (exists|h: Seq<char>, e: Seq<char>| dbc_file_model(m, comp, module, expected, stem, file).contains(
            #[trigger] fv(FindingLevel::Error, comp, dbc_md5_message(file, h, e), None),
        )) == dbc_md5_out_of_sync(m, expected),
        inner_dbc_from(m, 0) matches Some(k) ==> dbc_file_model(m, comp, module, expected, stem, file).contains(
            fv(FindingLevel::Error, comp, dbc_stem_message(file, attr_val(m[k], "Name"@).unwrap_or(Seq::empty()), stem), None),
        ) == (attr_val(m[k], "Name"@).unwrap_or(Seq::empty()) == module && module != stem),
{
    broadcast use vstd::seq_lib::to_multiset_contains;

    let inner = dbc_inner_checks(m, comp, module, expected, stem, file);
    let org = if has_org_path(m) {
        dbc_missing_from(m, comp, file, 0) + dbc_absent_from(m, comp, file, 0)
    } else {
        Seq::empty()
    };
    let u = inner + org;
    let out = dbc_file_model(m, comp, module, expected, stem, file);
    lemma_sort_findings(u);
    assert(out == sort_findings(u));
    lemma_dbc_org_like(m, comp, file, 0);
    assert forall|j: int| 0 <= j < org.len() implies dbc_org_like(#[trigger] org[j], comp) by {
        if has_org_path(m) {
            let a = dbc_missing_from(m, comp, file, 0);
            if j >= a.len() {
                assert(org[j] == dbc_absent_from(m, comp, file, 0)[j - a.len()]);
            } else {
                assert(org[j] == a[j]);
            }
        }
    }
    // every finding of the inner checks is an error at `comp` with no code
    assert forall|j: int| 0 <= j < inner.len() implies (#[trigger] inner[j]).path == comp && inner[j].level
        == FindingLevel::Error && inner[j].code is None by {
        match inner_dbc_from(m, 0) {
            None => {},
            Some(k) => {
                let nm = attr_val(m[k], "Name"@).unwrap_or(Seq::empty());
                let np: Seq<FindingV> = if nm != module {
                    seq![fv(FindingLevel::Error, comp, dbc_module_message(file, nm, module), None)]
                } else if nm != stem {
                    seq![fv(FindingLevel::Error, comp, dbc_stem_message(file, nm, stem), None)]
                } else {
                    Seq::empty()
                };
                if j >= np.len() {
                    assert(inner[j] == inner.skip(np.len() as int)[j - np.len()]);
                }
            },
        }
    }
    assert forall|j: int| 0 <= j < u.len() implies (#[trigger] u[j]).path == comp && u[j].level == FindingLevel::Error
        && (u[j].code is None ==> j < inner.len() && u[j] == inner[j]) by {
        if j < inner.len() {
            assert(u[j] == inner[j]);
        } else {
            assert(u[j] == org[j - inner.len()]);
        }
    }
    assert forall|f: FindingV| #[trigger] out.contains(f) implies u.contains(f) by {
        assert(out.to_multiset().count(f) > 0);
    }
    assert forall|j: int| 0 <= j < out.len() implies (#[trigger] out[j]).path == comp && out[j].level
        == FindingLevel::Error by {
        assert(out.contains(out[j]));
        assert(u.contains(out[j]));
    }
    assert forall|i: int, j: int| 0 <= i < j < out.len() implies lex_le(out[i].message, out[j].message) by {
        assert(finding_le(out[i], out[j]));
        assert(out.contains(out[i]));
        assert(out.contains(out[j]));
    }
    assert forall|f: FindingV| u.contains(f) implies #[trigger] out.contains(f) by {
        assert(u.to_multiset().count(f) > 0);
    }
    let n = bq(file).len() as int;
    // the MD5 finding
    if exists|h: Seq<char>, e: Seq<char>| out.contains(#[trigger] fv(FindingLevel::Error, comp, dbc_md5_message(file, h, e), None)) {
        let (h, e) = choose|h: Seq<char>, e: Seq<char>| out.contains(#[trigger] fv(FindingLevel::Error, comp, dbc_md5_message(file, h, e), None));
        let f = fv(FindingLevel::Error, comp, dbc_md5_message(file, h, e), None);
        assert(u.contains(f));
        let j = choose|j: int| 0 <= j < u.len() && u[j] == f;
        assert(inner[j] == f);
        match inner_dbc_from(m, 0) {
            None => {
                lemma_dbc_message_chars(file, Seq::empty(), module, stem, h, e);
                assert(f.message[n + 1] == inner[0].message[n + 1]);
            },
            Some(k) => {
                let nm = attr_val(m[k], "Name"@).unwrap_or(Seq::empty());
                lemma_dbc_message_chars(file, nm, module, stem, h, e);
                let np: Seq<FindingV> = if nm != module {
                    seq![fv(FindingLevel::Error, comp, dbc_module_message(file, nm, module), None)]
                } else if nm != stem {
                    seq![fv(FindingLevel::Error, comp, dbc_stem_message(file, nm, stem), None)]
                } else {
                    Seq::empty()
                };
                if j < np.len() {
                    assert(inner[j] == np[j]);
                    assert(f.message[n + 10] == np[j].message[n + 10]);
                } else {
                    assert(inner[j] == inner.skip(np.len() as int)[j - np.len()]);
                }
            },
        }
        assert(dbc_md5_out_of_sync(m, expected));
    }
    if dbc_md5_out_of_sync(m, expected) {
        let k = inner_dbc_from(m, 0).unwrap();
        let e = expected.unwrap();
        let h = attr_val(m[k], "MD5"@).unwrap_or(Seq::empty());
        let nm = attr_val(m[k], "Name"@).unwrap_or(Seq::empty());
        let f = fv(FindingLevel::Error, comp, dbc_md5_message(file, h, e), None);
        let np: Seq<FindingV> = if nm != module {
            seq![fv(FindingLevel::Error, comp, dbc_module_message(file, nm, module), None)]
        } else if nm != stem {
            seq![fv(FindingLevel::Error, comp, dbc_stem_message(file, nm, stem), None)]
        } else {
            Seq::empty()
        };
        assert(inner == np + seq![f]);
        assert(u[np.len() as int] == f);
        assert(u.contains(f));
        assert(out.contains(f));
    }
    // the filename-stem finding
    if let Some(k) = inner_dbc_from(m, 0) {
        let nm = attr_val(m[k], "Name"@).unwrap_or(Seq::empty());
        let f = fv(FindingLevel::Error, comp, dbc_stem_message(file, nm, stem), None);
        let np: Seq<FindingV> = if nm != module {
            seq![fv(FindingLevel::Error, comp, dbc_module_message(file, nm, module), None)]
        } else if nm != stem {
            seq![f]
        } else {
            Seq::empty()
        };
        if nm == module && nm != stem {
            assert(u[0] == f);
            assert(u.contains(f));
        }
        if out.contains(f) {
            assert(u.contains(f));
            let j = choose|j: int| 0 <= j < u.len() && u[j] == f;
            assert(inner[j] == f);
            let mp = inner.skip(np.len() as int);
            if j < np.len() {
                assert(inner[j] == np[j]);
                if nm != module {
                    lemma_dbc_message_chars(file, nm, module, stem, Seq::empty(), Seq::empty());
                    let jj = n + 22 + bq(nm).len() + 16;
                    assert(f.message[jj] == np[j].message[jj]);
                }
            } else {
                assert(inner[j] == mp[j - np.len()]);
                let e = expected.unwrap();
                let h = attr_val(m[k], "MD5"@).unwrap_or(Seq::empty());
                lemma_dbc_message_chars(file, nm, module, stem, h, e);
                assert(f.message[n + 10] == mp[j - np.len()].message[n + 10]);
            }
        }
    }
}

/// Check one `.m1dbc` CAN-database text against its DBCRoot entry: `dbc_component`
/// (the finding path), the `module` leaf and `expected_md5` of the entry, the file's
/// `stem`, and `file` (the path named in the findings).
#[verifier::spinoff_prover]
#[verifier::rlimit(40)]
pub fn validate_dbc_file(
    dbc_xml: &str,
    dbc_component: &str,
    module: &str,
    expected_md5: Option<&str>,
    stem: &str,
    file: &str,
) -> (r: Result<Vec<Finding>, EditError>)
    ensures
        r matches Ok(v) ==> doc_model(dbc_xml@) matches Some(m) && findings_view(v@) == dbc_file_model(
            m,
            dbc_component@,
            module@,
            match expected_md5 {
                Some(e) => Some(e@),
                None => None,
            },
            stem@,
            file@,
        ),
        r matches Err(e) ==> doc_model(dbc_xml@) is None && e@ == parse_err(dbc_xml@),
{
    let d = parse_doc(dbc_xml)?;
    let ghost m = d.model();
    let comp = chars_of(dbc_component);
    let fl = chars_of(file);
    let modv = chars_of(module);
    let stemv = chars_of(stem);
    let mut out: Vec<Finding> = Vec::new();
    let mut k: usize = 0;
    while k < d.nodes.len() && !is_dbc_comp(&d.nodes[k])
        invariant
            k <= d.nodes.len(),
            m == d.model(),
            inner_dbc_from(m, 0) == inner_dbc_from(m, k as int),
        decreases d.nodes.len() - k,
    {
        k = k + 1;
    }
    if k == d.nodes.len() {
        let mut msg = bq_exec(&fl);
        push_str(&mut msg, " has no internal BuiltIn.CAN.DBC component \u{2014} it is not a valid CAN database file");
        push_finding(&mut out, mk_finding(FindingLevel::Error, &comp, &msg, None));
    } else {
        let inner = match attr_value_str(&d.nodes[k], "Name") {
            Some(v) => subvec(v, 0, v.len()),
            None => Vec::new(),
        };
        assert(inner@ =~= attr_val(m[k as int], "Name"@).unwrap_or(Seq::empty()));
        if !seq_eq(&inner, &modv) {
            let mut msg = bq_exec(&fl);
            push_str(&mut msg, " internal module name ");
            push_all(&mut msg, &bq_exec(&inner));
            push_str(&mut msg, " does not match the DBCRoot module ");
            push_all(&mut msg, &bq_exec(&modv));
            push_finding(&mut out, mk_finding(FindingLevel::Error, &comp, &msg, None));
        } else if !seq_eq(&inner, &stemv) {
            let mut msg = bq_exec(&fl);
            push_str(&mut msg, " internal module name ");
            push_all(&mut msg, &bq_exec(&inner));
            push_str(&mut msg, " does not match its filename stem ");
            push_all(&mut msg, &bq_exec(&stemv));
            push_finding(&mut out, mk_finding(FindingLevel::Error, &comp, &msg, None));
        }
        match expected_md5 {
            Some(e) => {
                let ev = chars_of(e);
                let h = match attr_value_str(&d.nodes[k], "MD5") {
                    Some(v) => subvec(v, 0, v.len()),
                    None => Vec::new(),
                };
                assert(h@ =~= attr_val(m[k as int], "MD5"@).unwrap_or(Seq::empty()));
                if !eq_ic(&h, &ev) {
                    let mut msg = bq_exec(&fl);
                    push_str(&mut msg, " internal MD5 ");
                    push_all(&mut msg, &bq_exec(&h));
                    push_str(&mut msg, " does not match the DBCRoot MD5 ");
                    push_all(&mut msg, &bq_exec(&ev));
                    push_str(&mut msg, " \u{2014} the imported database is out of sync");
                    push_finding(&mut out, mk_finding(FindingLevel::Error, &comp, &msg, None));
                }
            },
            None => {},
        }
    }
    let ghost inner_part = findings_view(out@);
    assert(inner_part =~= dbc_inner_checks(m, comp@, modv@, match expected_md5 {
        Some(e) => Some(e@),
        None => None,
    }, stemv@, fl@));
    let paths = org_paths_exec(&d);
    let mut any = false;
    let mut i: usize = 0;
    while i < paths.len() && !any
        invariant
            i <= paths@.len(),
            paths@.len() == d.nodes.len(),
            m == d.model(),
            forall|k: int| 0 <= k < paths@.len() ==> #[trigger] opt_cv(paths@[k]) == org_path(m, k),
            any ==> has_org_path(m),
            !any ==> forall|t: int| 0 <= t < i ==> !(#[trigger] org_path(m, t) is Some),
        decreases paths@.len() - i,
    {
        assert(opt_cv(paths@[i as int]) == org_path(m, i as int));
        if paths[i].is_some() {
            any = true;
        }
        i = i + 1;
    }
    if any {
        let ghost base = findings_view(out@);
        let mut i: usize = 0;
        while i < d.nodes.len()
            invariant
                i <= d.nodes.len(),
                m == d.model(),
                paths@.len() == d.nodes.len(),
                forall|k: int| 0 <= k < paths@.len() ==> #[trigger] opt_cv(paths@[k]) == org_path(m, k),
                findings_view(out@) + dbc_missing_from(m, comp@, fl@, i as int) == base + dbc_missing_from(m, comp@, fl@, 0),
            decreases d.nodes.len() - i,
        {
            let ghost before = findings_view(out@);
            assert(opt_cv(paths@[i as int]) == org_path(m, i as int));
            match &paths[i] {
                Some(p) => {
                    let seen = path_listed_before(&paths, p, i);
                    proof {
                        if seen {
                            let j = choose|j: int| 0 <= j < i && #[trigger] opt_cv(paths@[j]) == Some(p@);
                            assert(org_path(m, j) == Some(p@));
                        } else {
                            assert forall|j: int| 0 <= j < i implies #[trigger] org_path(m, j) != Some(p@) by {
                                assert(opt_cv(paths@[j]) == org_path(m, j));
                            }
                        }
                    }
                    if !seen && d.find_component(p).is_none() {
                        let mut msg = bq_exec(&fl);
                        push_str(&mut msg, ": <Organisation> node ");
                        push_all(&mut msg, &bq_exec(p));
                        push_str(&mut msg, " has no matching <List> component \u{2014} M1-Build cannot find its Properties");
                        push_finding(&mut out, mk_finding(FindingLevel::Error, &comp, &msg, Some(1338)));
                    }
                },
                None => {},
            }
            assert(findings_view(out@) + dbc_missing_from(m, comp@, fl@, i + 1) =~= before + dbc_missing_from(m, comp@, fl@, i as int));
            i = i + 1;
        }
        let ghost mid = findings_view(out@);
        assert(findings_view(out@) =~= base + dbc_missing_from(m, comp@, fl@, 0));
        let mut i: usize = 0;
        while i < d.nodes.len()
            invariant
                i <= d.nodes.len(),
                m == d.model(),
                paths@.len() == d.nodes.len(),
                forall|k: int| 0 <= k < paths@.len() ==> #[trigger] opt_cv(paths@[k]) == org_path(m, k),
                findings_view(out@) + dbc_absent_from(m, comp@, fl@, i as int) == mid + dbc_absent_from(m, comp@, fl@, 0),
            decreases d.nodes.len() - i,
        {
            let ghost before = findings_view(out@);
            if first_of_name_exec(&d, i) {
                let nm = attr_value_str(&d.nodes[i], "Name").unwrap();
                let found = path_listed_before(&paths, nm, paths.len());
                proof {
                    if found {
                        let j = choose|j: int| 0 <= j < paths@.len() && #[trigger] opt_cv(paths@[j]) == Some(nm@);
                        assert(org_path(m, j) == Some(nm@));
                    } else {
                        assert forall|j: int| 0 <= j < m.len() implies #[trigger] org_path(m, j) != Some(nm@) by {
                            assert(opt_cv(paths@[j]) == org_path(m, j));
                        }
                    }
                }
                if !found {
                    let mut msg = bq_exec(&fl);
                    push_str(&mut msg, ": <List> component ");
                    push_all(&mut msg, &bq_exec(nm));
                    push_str(&mut msg, " is absent from the <Organisation> view \u{2014} M1-Build cannot bind its Properties");
                    push_finding(&mut out, mk_finding(FindingLevel::Error, &comp, &msg, Some(1338)));
                }
            }
            assert(findings_view(out@) + dbc_absent_from(m, comp@, fl@, i + 1) =~= before + dbc_absent_from(m, comp@, fl@, i as int));
            i = i + 1;
        }
        assert(findings_view(out@) =~= inner_part + (dbc_missing_from(m, comp@, fl@, 0) + dbc_absent_from(m, comp@, fl@, 0)));
    } else {
        assert(!has_org_path(m));
        assert(findings_view(out@) =~= inner_part + Seq::<FindingV>::empty());
    }
    Ok(sort_by_path(out))
}

// ---- mandatory tags ---------------------------------------------------------------------

/// Some ancestor of `path` (from `cand` up) is an instance of a package class
/// (not `BuiltIn.…`).
pub open spec fn owned_from(m: Seq<NodeV>, cand: Seq<char>) -> bool
    decreases cand.len(),
{
    match parent_of(cand) {
        None => false,
        Some(p) => if p.len() < cand.len() {
            match class_of_path(m, p) {
                Some(c) => if !has_prefix(c, "BuiltIn."@) {
                    true
                } else {
                    owned_from(m, p)
                },
                None => owned_from(m, p),
            }
        } else {
            false
        },
    }
}

/// Warning 1142 for the known cases: a project-local table, or an assigned IO
/// resource, without a Type tag.
pub open spec fn mandatory_from(m: Seq<NodeV>, i: int) -> Seq<FindingV>
    decreases m.len() - i,
{
    if i < 0 || i >= m.len() {
        Seq::empty()
    } else {
        let rest = mandatory_from(m, i + 1);
        if crate::query::listed(m[i]) {
            let nm = name_of(m, i);
            let cls = attr_val(m[i], "Classname"@).unwrap();
            let table = (cls == "BuiltIn.Table"@ || cls == "BuiltIn.CalibrationTable"@) && !owned_from(m, nm);
            if (table || assigned_io(m, i)) && tags_in_group(component_tags(m, i), type_tags()).len() == 0 {
                seq![
                    fv(
                        FindingLevel::Warning,
                        nm,
                        "mandatory Type tag not selected (M1 Build warning 1142)"@,
                        Some(1142),
                    ),
                ] + rest
            } else {
                rest
            }
        } else {
            rest
        }
    }
}

fn owned_exec(d: &Doc, path: &Vec<char>) -> (b: bool)
    ensures
        b == owned_from(d.model(), path@),
{
    let ghost m = d.model();
    let mut cand = subvec(path, 0, path.len());
    assert(cand@ =~= path@);
    loop
        invariant
            m == d.model(),
            owned_from(m, path@) == owned_from(m, cand@),
        decreases cand.len(),
    {
        match parent_of_exec(&cand) {
            None => return false,
            Some(p) => {
                if p.len() >= cand.len() {
                    return false;
                }
                match class_of_path_exec(d, &p) {
                    Some(c) => {
                        if !starts_with_str(&c, "BuiltIn.") {
                            return true;
                        }
                    },
                    None => {},
                }
                cand = p;
            },
        }
    }
}

/// The opt-in mandatory-Type-tag warnings (M1-Build warning 1142), sorted.
pub fn mandatory_tag_findings(xml: &str) -> (r: Result<Vec<Finding>, EditError>)
    ensures
        r matches Ok(v) ==> doc_model(xml@) matches Some(m) && findings_view(v@) == sort_findings(
            mandatory_from(m, 0),
        ),
        r matches Err(e) ==> doc_model(xml@) is None && e@ == parse_err(xml@),
{
    let d = parse_doc(xml)?;
    let ghost m = d.model();
    let groups = tag_groups();
    let mut out: Vec<Finding> = Vec::new();
    let mut i: usize = 0;
    while i < d.nodes.len()
        invariant
            d.wf(),
            i <= d.nodes.len(),
            m == d.model(),
            view_all(groups.1@) == type_tags(),
            findings_view(out@) + mandatory_from(m, i as int) == mandatory_from(m, 0),
        decreases d.nodes.len() - i,
    {
        let ghost before = findings_view(out@);
        if is_real_component_exec(&d.nodes[i]) && attr_value_str(&d.nodes[i], "Name").is_some() {
            let nm = attr_value_str(&d.nodes[i], "Name").unwrap();
            let cls = attr_value_str(&d.nodes[i], "Classname").unwrap();
            let table = (eq_str(cls, "BuiltIn.Table") || eq_str(cls, "BuiltIn.CalibrationTable")) && !owned_exec(&d, nm);
            if table || assigned_io_exec(&d, i) {
                let tags = component_tags_exec(&d, i);
                let sel = tags_in_group_exec(&tags, &groups.1);
                if sel.len() == 0 {
                    let msg = strv("mandatory Type tag not selected (M1 Build warning 1142)");
                    push_finding(&mut out, mk_finding(FindingLevel::Warning, nm, &msg, Some(1142)));
                }
            }
        }
        assert(findings_view(out@) + mandatory_from(m, i + 1) =~= before + mandatory_from(m, i as int));
        i = i + 1;
    }
    assert(findings_view(out@) =~= findings_view(out@) + mandatory_from(m, i as int));
    Ok(sort_by_path(out))
}

} // verus!
