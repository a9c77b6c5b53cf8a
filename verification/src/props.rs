//! The `<Props>` machinery every property edit shares: creating a component's
//! `<Props>`, setting/removing an attribute on it, the Display-section
//! `<Default>` attributes, and the `<List.UserTags>` entries.
use vstd::prelude::*;
use crate::{EditError, ErrV, chars_result};
use crate::text::{
    chars_of, push_str, push_all, push_range, subvec, splice, splice_exec, escape, escape_exec,
    trim_end, trim_end_len_exec, has_suffix, ends_with_str, find_seq, rfind_seq, find_char,
    rfind_exec, lemma_trim_end_len_bound, string_of, seq_eq, find_from, match_at,
};
use crate::xml::{
    Doc, NodeV, XmlNode, doc_wf, node_wf, last_of, indent_at, indent_at_exec, is_elem, attr_idx,
    attr_val, has_attr, find_component, first_child, is_elem_str, attr_index, attr_value_str,
    line_extended_start, line_extended_start_exec, lemma_find_bounds, lemma_attr_from_bound,
    lemma_component_from_bound, lemma_child_from_bound, doc_nested, node_nested, attr_wf,
    doc_tags, node_tags, component_from, component_named, child_from,
};

verus! {

pub open spec fn elem_text(s: Seq<char>, m: Seq<NodeV>, i: int) -> Seq<char> {
    s.subrange(m[i].start, m[i].end)
}

/// `text.trim_end().ends_with("/>")`.
pub open spec fn self_closing(t: Seq<char>) -> bool {
    has_suffix(trim_end(t), "/>"@)
}

/// A self-closing tag without its `/>`.
pub open spec fn open_part(t: Seq<char>) -> Seq<char> {
    let te = trim_end(t);
    te.take(te.len() - 2)
}

/// Give component `c`, which has no `<Props>`, the element `props` as a new first
/// child on its own line one space deeper than the component: a self-closing
/// `<Component …/>` is opened and closed around it.
pub open spec fn props_insert(s: Seq<char>, m: Seq<NodeV>, c: int, props: Seq<char>) -> Result<
    Seq<char>,
    ErrV,
> {
    let t = elem_text(s, m, c);
    let indent = indent_at(s, m[c].start);
    if self_closing(t) {
        Ok(
            splice(
                s,
                m[c].start,
                m[c].end,
                open_part(t) + ">\n"@ + indent + " "@ + props + "\n"@ + indent + "</Component>"@,
            ),
        )
    } else {
        match find_seq(t, ">"@) {
            None => Err(ErrV::Invalid("malformed <Component>"@)),
            Some(k) => Ok(
                splice(s, m[c].start + k + 1, m[c].start + k + 1, "\n"@ + indent + " "@ + props),
            ),
        }
    }
}

/// Append `block` as the last content of element text `t` whose closing tag is
/// `close`, re-indenting the closing tag at `indent`; a self-closing element is
/// opened. `None` when a non-self-closing `t` has no `close`.
pub open spec fn append_into(t: Seq<char>, close: Seq<char>, block: Seq<char>, indent: Seq<char>) -> Option<
    Seq<char>,
> {
    if self_closing(t) {
        Some(open_part(t) + ">"@ + block + "\n"@ + indent + close)
    } else {
        match rfind_seq(t, close) {
            None => None,
            Some(k) => Some(trim_end(t.take(k)) + block + "\n"@ + indent + t.skip(k)),
        }
    }
}

/// The component's `<Props>` child.
pub open spec fn props_of(m: Seq<NodeV>, c: int) -> Option<int> {
    first_child(m, c, "Props"@)
}

/// ` attr="value"` with the value escaped.
pub open spec fn attr_frag(attr: Seq<char>, value: Seq<char>) -> Seq<char> {
    " "@ + attr + "=\""@ + escape(value) + "\""@
}

/// `ensure_props`: the component named `comp` with a `<Props/>` child.
pub open spec fn ensure_props_spec(s: Seq<char>, m: Seq<NodeV>, comp: Seq<char>) -> Result<
    Seq<char>,
    ErrV,
> {
    match find_component(m, comp) {
        None => Err(ErrV::NoSuchComponent(comp)),
        Some(c) => match props_of(m, c) {
            Some(_) => Ok(s),
            None => props_insert(s, m, c, "<Props/>"@),
        },
    }
}

/// `set_props_attr`: set or replace `attr` on the component's `<Props>`, creating
/// the `<Props>` when absent. An existing attribute keeps its place and only its
/// value changes; a new one is inserted right after the `<Props` tag name.
pub open spec fn set_props_attr_spec(
    s: Seq<char>,
    m: Seq<NodeV>,
    comp: Seq<char>,
    attr: Seq<char>,
    value: Seq<char>,
) -> Result<Seq<char>, ErrV> {
    match find_component(m, comp) {
        None => Err(ErrV::NoSuchComponent(comp)),
        Some(c) => match props_of(m, c) {
            Some(p) => match attr_idx(m[p], attr) {
                Some(a) => Ok(
                    splice(s, m[p].attrs[a].vstart, m[p].attrs[a].vend, escape(value)),
                ),
                None => if m[p].start + 6 <= m[p].end {
                    Ok(splice(s, m[p].start + 6, m[p].start + 6, attr_frag(attr, value)))
                } else {
                    Err(ErrV::Invalid("malformed <Props>"@))
                },
            },
            None => props_insert(s, m, c, "<Props"@ + attr_frag(attr, value) + "/>"@),
        },
    }
}

/// `remove_props_attr`: drop ` attr="value"` (and the single space before it) from
/// the component's `<Props>`; the text is unchanged when there is no `<Props>` or
/// no such attribute.
pub open spec fn remove_props_attr_spec(s: Seq<char>, m: Seq<NodeV>, comp: Seq<char>, attr: Seq<char>) -> Result<
    Seq<char>,
    ErrV,
> {
    match find_component(m, comp) {
        None => Err(ErrV::NoSuchComponent(comp)),
        Some(c) => match props_of(m, c) {
            Some(p) => match attr_idx(m[p], attr) {
                Some(a) => {
                    let r = m[p].attrs[a];
                    let start = if r.start > 0 && s[r.start - 1] == ' ' {
                        r.start - 1
                    } else {
                        r.start
                    };
                    Ok(splice(s, start, r.end, Seq::empty()))
                },
                None => Ok(s),
            },
            None => Ok(s),
        },
    }
}

fn tag_matches(n: &XmlNode, tag: &str) -> (b: bool)
    ensures
        b == is_elem(n@, tag@),
{
    is_elem_str(n, tag)
}

pub fn elem_text_exec(d: &Doc, i: usize) -> (t: Vec<char>)
    requires
        d.wf(),
        i < d.nodes.len(),
    ensures
        t@ == elem_text(d.text@, d.model(), i as int),
{
    let ghost m = d.model();
    assert(node_wf(m, i as int, d.text@.len() as int));
    subvec(&d.text, d.nodes[i].range.start, d.nodes[i].range.end)
}

pub fn trim_end_exec(t: &Vec<char>) -> (r: Vec<char>)
    ensures
        r@ == trim_end(t@),
{
    let e = trim_end_len_exec(t);
    proof {
        lemma_trim_end_len_bound(t@);
    }
    subvec(t, 0, e)
}

pub fn self_closing_exec(t: &Vec<char>) -> (b: bool)
    ensures
        b == self_closing(t@),
{
    let te = trim_end_exec(t);
    ends_with_str(&te, "/>")
}

/// `open_part` for a self-closing element text.
pub fn open_part_exec(t: &Vec<char>) -> (r: Vec<char>)
    requires
        self_closing(t@),
    ensures
        r@ == open_part(t@),
{
    let te = trim_end_exec(t);
    proof {
        reveal_strlit("/>");
    }
    subvec(&te, 0, te.len() - 2)
}

pub fn props_insert_exec(d: &Doc, c: usize, props: &Vec<char>) -> (r: Result<Vec<char>, EditError>)
    requires
        d.wf(),
        c < d.nodes.len(),
    ensures
        chars_result(r) == props_insert(d.text@, d.model(), c as int, props@),
{
    let ghost m = d.model();
    assert(node_wf(m, c as int, d.text@.len() as int));
    let t = elem_text_exec(d, c);
    let start = d.nodes[c].range.start;
    let end = d.nodes[c].range.end;
    let indent = indent_at_exec(&d.text, start);
    if self_closing_exec(&t) {
        let mut new: Vec<char> = open_part_exec(&t);
        push_str(&mut new, ">\n");
        push_all(&mut new, &indent);
        push_str(&mut new, " ");
        push_all(&mut new, props);
        push_str(&mut new, "\n");
        push_all(&mut new, &indent);
        push_str(&mut new, "</Component>");
        Ok(splice_exec(&d.text, start, end, &new))
    } else {
        proof {
            lemma_find_bounds(t@, seq!['>'], 0);
            reveal_strlit(">");
            assert(">"@ =~= seq!['>']);
        }
        match find_char(&t, '>') {
            None => {
                let mut msg: Vec<char> = Vec::new();
                push_str(&mut msg, "malformed <Component>");
                Err(EditError::Invalid(string_of(&msg)))
            },
            Some(k) => {
                let mut new: Vec<char> = Vec::new();
                push_str(&mut new, "\n");
                push_all(&mut new, &indent);
                push_str(&mut new, " ");
                push_all(&mut new, props);
                let at = start + k + 1;
                Ok(splice_exec(&d.text, at, at, &new))
            },
        }
    }
}

pub fn append_into_exec(t: &Vec<char>, close: &str, block: &Vec<char>, indent: &Vec<char>) -> (r:
    Option<Vec<char>>)
    ensures
        r matches Some(v) ==> append_into(t@, close@, block@, indent@) == Some(v@),
        r is None ==> append_into(t@, close@, block@, indent@) is None,
{
    if self_closing_exec(t) {
        let mut new = open_part_exec(t);
        push_str(&mut new, ">");
        push_all(&mut new, block);
        push_str(&mut new, "\n");
        push_all(&mut new, indent);
        push_str(&mut new, close);
        Some(new)
    } else {
        let cl = chars_of(close);
        proof {
            crate::xml::lemma_rfind_bounds(t@, cl@, t@.len() - cl@.len());
        }
        match rfind_exec(t, &cl) {
            None => None,
            Some(k) => {
                let head = subvec(t, 0, k);
                assert(head@ =~= t@.take(k as int));
                let mut new = trim_end_exec(&head);
                push_all(&mut new, block);
                push_str(&mut new, "\n");
                push_all(&mut new, indent);
                push_range(&mut new, t, k, t.len());
                assert(t@.subrange(k as int, t@.len() as int) =~= t@.skip(k as int));
                Some(new)
            },
        }
    }
}

pub fn attr_frag_exec(attr: &str, value: &Vec<char>) -> (r: Vec<char>)
    ensures
        r@ == attr_frag(attr@, value@),
{
    let mut r: Vec<char> = Vec::new();
    push_str(&mut r, " ");
    push_str(&mut r, attr);
    push_str(&mut r, "=\"");
    let e = escape_exec(value);
    push_all(&mut r, &e);
    push_str(&mut r, "\"");
    r
}

fn no_such(comp: &Vec<char>) -> (e: EditError)
    ensures
        e@ == ErrV::NoSuchComponent(comp@),
{
    EditError::NoSuchComponent(string_of(comp))
}

fn invalid(msg: &str) -> (e: EditError)
    ensures
        e@ == ErrV::Invalid(msg@),
{
    let v = chars_of(msg);
    EditError::Invalid(string_of(&v))
}

pub fn ensure_props(d: &Doc, comp: &Vec<char>) -> (r: Result<Vec<char>, EditError>)
    requires
        d.wf(),
    ensures
        chars_result(r) == ensure_props_spec(d.text@, d.model(), comp@),
{
    let c = match d.find_component(comp) {
        None => return Err(no_such(comp)),
        Some(c) => c,
    };
    match d.first_child(c, "Props") {
        Some(_) => {
            let same = subvec(&d.text, 0, d.text.len());
            assert(same@ =~= d.text@);
            Ok(same)
        },
        None => {
            let p = chars_of("<Props/>");
            props_insert_exec(d, c, &p)
        },
    }
}

pub fn set_props_attr(d: &Doc, comp: &Vec<char>, attr: &str, value: &Vec<char>) -> (r: Result<
    Vec<char>,
    EditError,
>)
    requires
        d.wf(),
    ensures
        chars_result(r) == set_props_attr_spec(d.text@, d.model(), comp@, attr@, value@),
{
    let ghost m = d.model();
    let c = match d.find_component(comp) {
        None => return Err(no_such(comp)),
        Some(c) => c,
    };
    match d.first_child(c, "Props") {
        Some(p) => {
            assert(node_wf(m, c as int, d.text@.len() as int));
            assert(node_wf(m, p as int, d.text@.len() as int));
            let an = chars_of(attr);
            match attr_index(&d.nodes[p], &an) {
                Some(a) => {
                    assert(crate::xml::attr_wf(m[p as int].attrs[a as int], d.text@.len() as int));
                    let vr = &d.nodes[p].attrs[a].value_range;
                    let e = escape_exec(value);
                    Ok(splice_exec(&d.text, vr.start, vr.end, &e))
                },
                None => {
                    let ps = d.nodes[p].range.start;
                    let pe = d.nodes[p].range.end;
                    if ps <= pe && pe - ps >= 6 {
                        let f = attr_frag_exec(attr, value);
                        Ok(splice_exec(&d.text, ps + 6, ps + 6, &f))
                    } else {
                        Err(invalid("malformed <Props>"))
                    }
                },
            }
        },
        None => {
            let mut pe: Vec<char> = Vec::new();
            push_str(&mut pe, "<Props");
            let f = attr_frag_exec(attr, value);
            push_all(&mut pe, &f);
            push_str(&mut pe, "/>");
            props_insert_exec(d, c, &pe)
        },
    }
}

pub fn remove_props_attr(d: &Doc, comp: &Vec<char>, attr: &str) -> (r: Result<Vec<char>, EditError>)
    requires
        d.wf(),
    ensures
        chars_result(r) == remove_props_attr_spec(d.text@, d.model(), comp@, attr@),
{
    let ghost m = d.model();
    let c = match d.find_component(comp) {
        None => return Err(no_such(comp)),
        Some(c) => c,
    };
    let same = subvec(&d.text, 0, d.text.len());
    assert(same@ =~= d.text@);
    match d.first_child(c, "Props") {
        Some(p) => {
            assert(node_wf(m, c as int, d.text@.len() as int));
            assert(node_wf(m, p as int, d.text@.len() as int));
            let an = chars_of(attr);
            match attr_index(&d.nodes[p], &an) {
                Some(a) => {
                    assert(crate::xml::attr_wf(m[p as int].attrs[a as int], d.text@.len() as int));
                    let rs = d.nodes[p].attrs[a].range.start;
                    let re = d.nodes[p].attrs[a].range.end;
                    let start = if rs > 0 && d.text[rs - 1] == ' ' {
                        rs - 1
                    } else {
                        rs
                    };
                    let empty: Vec<char> = Vec::new();
                    Ok(splice_exec(&d.text, start, re, &empty))
                },
                None => Ok(same),
            }
        },
        None => Ok(same),
    }
}

// ---- Display-section <Default> attributes ----------------------------------------

/// The first `<Default>` at or after `i` (below `hi`) that has (`want`) or lacks
/// (`!want`) attribute `attr`.
pub open spec fn default_from(m: Seq<NodeV>, hi: int, attr: Seq<char>, want: bool, i: int) -> Option<int>
    decreases hi - i,
{
    if i < 0 || i >= hi || i >= m.len() {
        None
    } else if is_elem(m[i], "Default"@) && has_attr(m[i], attr) == want {
        Some(i)
    } else {
        default_from(m, hi, attr, want, i + 1)
    }
}

/// `props.descendants().find(|d| d.has_tag_name("Default") && d.has_attribute(attr) == want)`.
pub open spec fn default_in(m: Seq<NodeV>, p: int, attr: Seq<char>, want: bool) -> Option<int> {
    default_from(m, last_of(m, p) + 1, attr, want, p)
}

/// The `<Locale><Default attr="value"/></Locale>` block M1-Build writes inside a
/// `<Props>` indented at `pind`.
pub open spec fn locale_block(pind: Seq<char>, attr: Seq<char>, value: Seq<char>) -> Seq<char> {
    "\n"@ + pind + " <Locale>\n"@ + pind + "  <Default "@ + attr + "=\""@ + escape(value) + "\"/>\n"@
        + pind + " </Locale>"@
}

/// `set_default_attr`: set or replace `attr` on the component's
/// `<Props><Locale><Default>`: replace the value on the first `<Default>` that has
/// it, else add it to the first `<Default>` that lacks it, else append a new
/// `<Locale>` block to the `<Props>` (creating the `<Props>` when absent).
pub open spec fn set_default_attr_spec(
    s: Seq<char>,
    m: Seq<NodeV>,
    comp: Seq<char>,
    attr: Seq<char>,
    value: Seq<char>,
) -> Result<Seq<char>, ErrV> {
    match find_component(m, comp) {
        None => Err(ErrV::NoSuchComponent(comp)),
        Some(c) => match props_of(m, c) {
            Some(p) => match default_in(m, p, attr, true) {
                Some(dn) => {
                    let a = m[dn].attrs[attr_idx(m[dn], attr).unwrap()];
                    Ok(splice(s, a.vstart, a.vend, escape(value)))
                },
                None => match default_in(m, p, attr, false) {
                    Some(dn) => if m[dn].start + 8 <= m[dn].end {
                        Ok(splice(s, m[dn].start + 8, m[dn].start + 8, attr_frag(attr, value)))
                    } else {
                        Err(ErrV::Invalid("malformed <Default>"@))
                    },
                    None => {
                        let pind = indent_at(s, m[p].start);
                        match append_into(
                            elem_text(s, m, p),
                            "</Props>"@,
                            locale_block(pind, attr, value),
                            pind,
                        ) {
                            None => Err(ErrV::Invalid("malformed <Props>"@)),
                            Some(np) => Ok(splice(s, m[p].start, m[p].end, np)),
                        }
                    },
                },
            },
            None => {
                let pind = indent_at(s, m[c].start) + " "@;
                props_insert(
                    s,
                    m,
                    c,
                    "<Props>"@ + locale_block(pind, attr, value) + "\n"@ + pind + "</Props>"@,
                )
            },
        },
    }
}

/// The part of [`locale_block`] before the escaped value.
pub open spec fn locale_head(pind: Seq<char>, attr: Seq<char>) -> Seq<char> {
    "\n"@ + pind + " <Locale>\n"@ + pind + "  <Default "@ + attr + "=\""@
}

/// The part of [`locale_block`] after the escaped value.
pub open spec fn locale_tail(pind: Seq<char>) -> Seq<char> {
    "\"/>\n"@ + pind + " </Locale>"@
}

/// What `set_default_attr` writes around the escaped value: the text before it and
/// the text after it, which do not depend on the value; `None` where the edit is
/// refused.
pub open spec fn default_frame(s: Seq<char>, m: Seq<NodeV>, comp: Seq<char>, attr: Seq<char>) -> Option<
    (Seq<char>, Seq<char>),
> {
    match find_component(m, comp) {
        None => None,
        Some(c) => match props_of(m, c) {
            Some(p) => match default_in(m, p, attr, true) {
                Some(dn) => {
                    let a = m[dn].attrs[attr_idx(m[dn], attr).unwrap()];
                    Some((s.take(a.vstart), s.skip(a.vend)))
                },
                None => match default_in(m, p, attr, false) {
                    Some(dn) => if m[dn].start + 8 <= m[dn].end {
                        Some(
                            (
                                s.take(m[dn].start + 8) + " "@ + attr + "=\""@,
                                "\""@ + s.skip(m[dn].start + 8),
                            ),
                        )
                    } else {
                        None
                    },
                    None => {
                        let pind = indent_at(s, m[p].start);
                        let t = elem_text(s, m, p);
                        let close = "</Props>"@;
                        let after = locale_tail(pind) + "\n"@ + pind;
                        if self_closing(t) {
                            Some(
                                (
                                    s.take(m[p].start) + open_part(t) + ">"@ + locale_head(pind, attr),
                                    after + close + s.skip(m[p].end),
                                ),
                            )
                        } else {
                            match rfind_seq(t, close) {
                                None => None,
                                Some(k) => Some(
                                    (
                                        s.take(m[p].start) + trim_end(t.take(k)) + locale_head(pind, attr),
                                        after + t.skip(k) + s.skip(m[p].end),
                                    ),
                                ),
                            }
                        }
                    },
                },
            },
            None => {
                let indent = indent_at(s, m[c].start);
                let pind = indent + " "@;
                let t = elem_text(s, m, c);
                let head = "<Props>"@ + locale_head(pind, attr);
                let tail = locale_tail(pind) + "\n"@ + pind + "</Props>"@;
                if self_closing(t) {
                    Some(
                        (
                            s.take(m[c].start) + open_part(t) + ">\n"@ + indent + " "@ + head,
                            tail + "\n"@ + indent + "</Component>"@ + s.skip(m[c].end),
                        ),
                    )
                } else {
                    match find_seq(t, ">"@) {
                        None => None,
                        Some(k) => Some(
                            (
                                s.take(m[c].start + k + 1) + "\n"@ + indent + " "@ + head,
                                tail + s.skip(m[c].start + k + 1),
                            ),
                        ),
                    }
                }
            },
        },
    }
}

proof fn lemma_frame_default_attr(s: Seq<char>, x: int, attr: Seq<char>, value: Seq<char>)
    ensures
        splice(s, x, x, attr_frag(attr, value)) == (s.take(x) + " "@ + attr + "=\""@) + escape(value) + ("\""@
            + s.skip(x)),
{
    assert(splice(s, x, x, attr_frag(attr, value)) =~= (s.take(x) + " "@ + attr + "=\""@) + escape(value) + ("\""@
        + s.skip(x)));
}

proof fn lemma_frame_locale(pind: Seq<char>, attr: Seq<char>, value: Seq<char>)
    ensures
        locale_block(pind, attr, value) == locale_head(pind, attr) + escape(value) + locale_tail(pind),
{
    assert(locale_block(pind, attr, value) =~= locale_head(pind, attr) + escape(value) + locale_tail(pind));
}

proof fn lemma_frame_append(s: Seq<char>, a: int, b: int, pre: Seq<char>, post: Seq<char>, pind: Seq<char>, attr: Seq<char>, value: Seq<char>)
    ensures
        splice(s, a, b, pre + locale_block(pind, attr, value) + post) == (s.take(a) + pre + locale_head(pind, attr))
            + escape(value) + (locale_tail(pind) + post + s.skip(b)),
{
    lemma_frame_locale(pind, attr, value);
    assert(splice(s, a, b, pre + locale_block(pind, attr, value) + post) =~= (s.take(a) + pre + locale_head(pind, attr))
        + escape(value) + (locale_tail(pind) + post + s.skip(b)));
}

proof fn lemma_default_frame_props(s: Seq<char>, m: Seq<NodeV>, comp: Seq<char>, attr: Seq<char>, value: Seq<char>, c: int, p: int)
    requires
        find_component(m, comp) == Some(c),
        props_of(m, c) == Some(p),
    ensures
        match default_frame(s, m, comp, attr) {
            Some(pq) => set_default_attr_spec(s, m, comp, attr, value) == Ok::<Seq<char>, ErrV>(
                pq.0 + escape(value) + pq.1,
            ),
            None => set_default_attr_spec(s, m, comp, attr, value) is Err,
        },
{
    match default_in(m, p, attr, true) {
        Some(dn) => {},
        None => match default_in(m, p, attr, false) {
            Some(dn) => {
                lemma_frame_default_attr(s, m[dn].start + 8, attr, value);
                if m[dn].start + 8 <= m[dn].end {
                    assert(set_default_attr_spec(s, m, comp, attr, value) == Ok::<Seq<char>, ErrV>(
                        splice(s, m[dn].start + 8, m[dn].start + 8, attr_frag(attr, value)),
                    ));
                    assert(default_frame(s, m, comp, attr) == Some(
                        (
                            s.take(m[dn].start + 8) + " "@ + attr + "=\""@,
                            "\""@ + s.skip(m[dn].start + 8),
                        ),
                    ));
                }
            },
            None => {
                let pind = indent_at(s, m[p].start);
                let t = elem_text(s, m, p);
                let close = "</Props>"@;
                let block = locale_block(pind, attr, value);
                if self_closing(t) {
                    lemma_frame_append(s, m[p].start, m[p].end, open_part(t) + ">"@, "\n"@ + pind + close, pind, attr, value);
                    assert(open_part(t) + ">"@ + block + "\n"@ + pind + close =~= open_part(t) + ">"@ + block + ("\n"@
                        + pind + close));
                    assert(locale_tail(pind) + ("\n"@ + pind + close) + s.skip(m[p].end) =~= locale_tail(pind) + "\n"@
                        + pind + close + s.skip(m[p].end));
                    assert(s.take(m[p].start) + (open_part(t) + ">"@) + locale_head(pind, attr) =~= s.take(m[p].start)
                        + open_part(t) + ">"@ + locale_head(pind, attr));
                } else if let Some(k) = rfind_seq(t, close) {
                    lemma_frame_append(s, m[p].start, m[p].end, trim_end(t.take(k)), "\n"@ + pind + t.skip(k), pind, attr, value);
                    assert(trim_end(t.take(k)) + block + "\n"@ + pind + t.skip(k) =~= trim_end(t.take(k)) + block + ("\n"@
                        + pind + t.skip(k)));
                    assert(locale_tail(pind) + ("\n"@ + pind + t.skip(k)) + s.skip(m[p].end) =~= locale_tail(pind)
                        + "\n"@ + pind + t.skip(k) + s.skip(m[p].end));
                }
            },
        },
    }
}

#[verifier::rlimit(60)]
proof fn lemma_default_frame_no_props(s: Seq<char>, m: Seq<NodeV>, comp: Seq<char>, attr: Seq<char>, value: Seq<char>, c: int)
    requires
        find_component(m, comp) == Some(c),
        props_of(m, c) is None,
    ensures
        match default_frame(s, m, comp, attr) {
            Some(pq) => set_default_attr_spec(s, m, comp, attr, value) == Ok::<Seq<char>, ErrV>(
                pq.0 + escape(value) + pq.1,
            ),
            None => set_default_attr_spec(s, m, comp, attr, value) is Err,
        },
{
    let indent = indent_at(s, m[c].start);
    let pind = indent + " "@;
    let t = elem_text(s, m, c);
    let block = locale_block(pind, attr, value);
    let props = "<Props>"@ + block + "\n"@ + pind + "</Props>"@;
    let tail = locale_tail(pind) + "\n"@ + pind + "</Props>"@;
    if self_closing(t) {
        let pre = open_part(t) + ">\n"@ + indent + " "@ + "<Props>"@;
        let post = "\n"@ + pind + "</Props>"@ + "\n"@ + indent + "</Component>"@;
        lemma_frame_append(s, m[c].start, m[c].end, pre, post, pind, attr, value);
        assert(open_part(t) + ">\n"@ + indent + " "@ + props + "\n"@ + indent + "</Component>"@ =~= pre + block
            + post);
        assert(s.take(m[c].start) + pre + locale_head(pind, attr) =~= s.take(m[c].start) + open_part(t) + ">\n"@
            + indent + " "@ + ("<Props>"@ + locale_head(pind, attr)));
        assert(locale_tail(pind) + post + s.skip(m[c].end) =~= tail + "\n"@ + indent + "</Component>"@ + s.skip(
            m[c].end,
        ));
    } else if let Some(k) = find_seq(t, ">"@) {
        let x = m[c].start + k + 1;
        let pre = "\n"@ + indent + " "@ + "<Props>"@;
        let post = "\n"@ + pind + "</Props>"@;
        lemma_frame_append(s, x, x, pre, post, pind, attr, value);
        assert("\n"@ + indent + " "@ + props =~= pre + block + post);
        assert(s.take(x) + pre + locale_head(pind, attr) =~= s.take(x) + "\n"@ + indent + " "@ + ("<Props>"@
            + locale_head(pind, attr)));
        assert(locale_tail(pind) + post + s.skip(x) =~= tail + s.skip(x));
    }
}

/// `set_default_attr` writes the escaped value between the two parts of
/// [`default_frame`], and is refused exactly where there is no frame.
pub proof fn lemma_default_frame(s: Seq<char>, m: Seq<NodeV>, comp: Seq<char>, attr: Seq<char>, value: Seq<char>)
    ensures
        match default_frame(s, m, comp, attr) {
            Some(pq) => set_default_attr_spec(s, m, comp, attr, value) == Ok::<Seq<char>, ErrV>(
                pq.0 + escape(value) + pq.1,
            ),
            None => set_default_attr_spec(s, m, comp, attr, value) is Err,
        },
{
    if let Some(c) = find_component(m, comp) {
        match props_of(m, c) {
            Some(p) => lemma_default_frame_props(s, m, comp, attr, value, c, p),
            None => lemma_default_frame_no_props(s, m, comp, attr, value, c),
        }
    }
}

proof fn lemma_regroup(s: Seq<char>, a: int, b: int, pre: Seq<char>, head: Seq<char>, e: Seq<char>, tail: Seq<char>, post: Seq<char>)
    ensures
        splice(s, a, b, pre + (head + e + tail) + post) == (s.take(a) + pre + head) + e + (tail + post + s.skip(b)),
{
    assert(splice(s, a, b, pre + (head + e + tail) + post) =~= (s.take(a) + pre + head) + e + (tail + post + s.skip(b)));
}

/// Where [`props_insert`] puts a new `<Props attr="…"/>`: the text before its
/// value and the text after it.
pub open spec fn props_insert_frame(s: Seq<char>, m: Seq<NodeV>, c: int, attr: Seq<char>) -> Option<(Seq<char>, Seq<char>)> {
    let t = elem_text(s, m, c);
    let indent = indent_at(s, m[c].start);
    let head = "<Props"@ + " "@ + attr + "=\""@;
    let tail = "\""@ + "/>"@;
    if self_closing(t) {
        Some(
            (
                s.take(m[c].start) + (open_part(t) + ">\n"@ + indent + " "@) + head,
                tail + ("\n"@ + indent + "</Component>"@) + s.skip(m[c].end),
            ),
        )
    } else {
        match find_seq(t, ">"@) {
            None => None,
            Some(k) => Some(
                (
                    s.take(m[c].start + k + 1) + ("\n"@ + indent + " "@) + head,
                    tail + Seq::<char>::empty() + s.skip(m[c].start + k + 1),
                ),
            ),
        }
    }
}

proof fn lemma_frame_props_insert(s: Seq<char>, m: Seq<NodeV>, c: int, attr: Seq<char>, v: Seq<char>)
    ensures
        match props_insert_frame(s, m, c, attr) {
            Some(pq) => props_insert(s, m, c, "<Props"@ + attr_frag(attr, v) + "/>"@) == Ok::<Seq<char>, ErrV>(
                pq.0 + escape(v) + pq.1,
            ),
            None => props_insert(s, m, c, "<Props"@ + attr_frag(attr, v) + "/>"@) is Err,
        },
{
    let t = elem_text(s, m, c);
    let indent = indent_at(s, m[c].start);
    let head = "<Props"@ + " "@ + attr + "=\""@;
    let tail = "\""@ + "/>"@;
    let props = "<Props"@ + attr_frag(attr, v) + "/>"@;
    assert(props =~= head + escape(v) + tail);
    if self_closing(t) {
        let a = open_part(t) + ">\n"@ + indent + " "@;
        let b = "\n"@ + indent + "</Component>"@;
        lemma_regroup(s, m[c].start, m[c].end, a, head, escape(v), tail, b);
        assert(open_part(t) + ">\n"@ + indent + " "@ + props + "\n"@ + indent + "</Component>"@ =~= a + props + b);
    } else if let Some(k) = find_seq(t, ">"@) {
        let x = m[c].start + k + 1;
        let a = "\n"@ + indent + " "@;
        lemma_regroup(s, x, x, a, head, escape(v), tail, Seq::empty());
        assert("\n"@ + indent + " "@ + props =~= a + props + Seq::<char>::empty());
    }
}

/// Setting a `<Props>` attribute to two values gives two texts that differ only in
/// the escaped value written at one place: both succeed or both fail, and when they
/// succeed one text is `p + escape(v1) + q` and the other `p + escape(v2) + q`.
pub proof fn lemma_props_value_written(
    s: Seq<char>,
    m: Seq<NodeV>,
    comp: Seq<char>,
    attr: Seq<char>,
    v1: Seq<char>,
    v2: Seq<char>,
)
    ensures
        (set_props_attr_spec(s, m, comp, attr, v1) is Ok) == (set_props_attr_spec(s, m, comp, attr, v2) is Ok),
        set_props_attr_spec(s, m, comp, attr, v1) is Ok ==> exists|pq: (Seq<char>, Seq<char>)|
            set_props_attr_spec(s, m, comp, attr, v1) == Ok::<Seq<char>, ErrV>(pq.0 + escape(v1) + pq.1)
                && #[trigger] set_props_attr_spec(s, m, comp, attr, v2) == Ok::<Seq<char>, ErrV>(
                pq.0 + escape(v2) + pq.1,
            ),
{
    if let Some(c) = find_component(m, comp) {
        match props_of(m, c) {
            Some(p) => match attr_idx(m[p], attr) {
                Some(a) => {
                    let r = m[p].attrs[a];
                    let pq = (s.take(r.vstart), s.skip(r.vend));
                    assert(set_props_attr_spec(s, m, comp, attr, v1) == Ok::<Seq<char>, ErrV>(pq.0 + escape(v1) + pq.1));
                    assert(set_props_attr_spec(s, m, comp, attr, v2) == Ok::<Seq<char>, ErrV>(pq.0 + escape(v2) + pq.1));
                },
                None => if m[p].start + 6 <= m[p].end {
                    let x = m[p].start + 6;
                    lemma_frame_default_attr(s, x, attr, v1);
                    lemma_frame_default_attr(s, x, attr, v2);
                    let pq = (s.take(x) + " "@ + attr + "=\""@, "\""@ + s.skip(x));
                    assert(set_props_attr_spec(s, m, comp, attr, v1) == Ok::<Seq<char>, ErrV>(pq.0 + escape(v1) + pq.1));
                    assert(set_props_attr_spec(s, m, comp, attr, v2) == Ok::<Seq<char>, ErrV>(pq.0 + escape(v2) + pq.1));
                },
            },
            None => {
                lemma_frame_props_insert(s, m, c, attr, v1);
                lemma_frame_props_insert(s, m, c, attr, v2);
                if let Some(pq) = props_insert_frame(s, m, c, attr) {
                    assert(set_props_attr_spec(s, m, comp, attr, v2) == Ok::<Seq<char>, ErrV>(pq.0 + escape(v2) + pq.1));
                }
            },
        }
    }
}

/// The range of the value of `attr` on the first `<Default>` of the component's
/// `<Props>` that has it.
pub open spec fn default_value_range(m: Seq<NodeV>, comp: Seq<char>, attr: Seq<char>) -> Option<(int, int)> {
    match find_component(m, comp) {
        Some(c) => match props_of(m, c) {
            Some(p) => match default_in(m, p, attr, true) {
                Some(dn) => {
                    let a = m[dn].attrs[attr_idx(m[dn], attr).unwrap()];
                    Some((a.vstart, a.vend))
                },
                None => None,
            },
            None => None,
        },
        None => None,
    }
}

pub proof fn lemma_default_from(m: Seq<NodeV>, hi: int, attr: Seq<char>, want: bool, i: int)
    ensures
        default_from(m, hi, attr, want, i) matches Some(k) ==> i <= k < hi && k < m.len() && is_elem(
            m[k],
            "Default"@,
        ) && has_attr(m[k], attr) == want,
    decreases hi - i,
{
    if !(i < 0 || i >= hi || i >= m.len()) && !(is_elem(m[i], "Default"@) && has_attr(m[i], attr)
        == want) {
        lemma_default_from(m, hi, attr, want, i + 1);
    }
}

pub fn find_default(d: &Doc, p: usize, attr: &Vec<char>, want: bool) -> (r: Option<usize>)
    requires
        d.wf(),
        p < d.nodes.len(),
    ensures
        r matches Some(i) ==> default_in(d.model(), p as int, attr@, want) == Some(i as int) && p
            <= i < d.nodes.len(),
        r is None ==> default_in(d.model(), p as int, attr@, want) is None,
{
    let ghost m = d.model();
    assert(node_wf(m, p as int, d.text@.len() as int));
    let hi = match d.nodes[p].last {
        Some(l) => l,
        None => 0,
    };
    let mut i: usize = p;
    while i <= hi
        invariant
            m == d.model(),
            hi == last_of(m, p as int),
            hi < d.nodes.len(),
            p <= i,
            default_in(m, p as int, attr@, want) == default_from(m, hi + 1, attr@, want, i as int),
        decreases hi + 1 - i,
    {
        if is_elem_str(&d.nodes[i], "Default") && attr_index(&d.nodes[i], attr).is_some() == want {
            return Some(i);
        }
        i = i + 1;
    }
    None
}

pub fn locale_block_exec(pind: &Vec<char>, attr: &str, value: &Vec<char>) -> (r: Vec<char>)
    ensures
        r@ == locale_block(pind@, attr@, value@),
{
    let mut r: Vec<char> = Vec::new();
    push_str(&mut r, "\n");
    push_all(&mut r, pind);
    push_str(&mut r, " <Locale>\n");
    push_all(&mut r, pind);
    push_str(&mut r, "  <Default ");
    push_str(&mut r, attr);
    push_str(&mut r, "=\"");
    let e = escape_exec(value);
    push_all(&mut r, &e);
    push_str(&mut r, "\"/>\n");
    push_all(&mut r, pind);
    push_str(&mut r, " </Locale>");
    r
}

pub fn set_default_attr(d: &Doc, comp: &Vec<char>, attr: &str, value: &Vec<char>) -> (r: Result<
    Vec<char>,
    EditError,
>)
    requires
        d.wf(),
    ensures
        chars_result(r) == set_default_attr_spec(d.text@, d.model(), comp@, attr@, value@),
{
    let ghost m = d.model();
    let ghost len = d.text@.len() as int;
    let c = match d.find_component(comp) {
        None => return Err(no_such(comp)),
        Some(c) => c,
    };
    assert(node_wf(m, c as int, len));
    match d.first_child(c, "Props") {
        Some(p) => {
            assert(node_wf(m, p as int, len));
            let an = chars_of(attr);
            match find_default(d, p, &an, true) {
                Some(dn) => {
                    assert(node_wf(m, dn as int, len));
                    proof {
                        lemma_default_from(m, last_of(m, p as int) + 1, an@, true, p as int);
                    }
                    let a = match attr_index(&d.nodes[dn], &an) {
                        Some(a) => a,
                        None => {
                            assert(false);
                            return Err(invalid("malformed <Default>"));
                        },
                    };
                    assert(crate::xml::attr_wf(m[dn as int].attrs[a as int], len));
                    let vr = &d.nodes[dn].attrs[a].value_range;
                    let e = escape_exec(value);
                    Ok(splice_exec(&d.text, vr.start, vr.end, &e))
                },
                None => match find_default(d, p, &an, false) {
                    Some(dn) => {
                        assert(node_wf(m, dn as int, len));
                        let ds = d.nodes[dn].range.start;
                        let de = d.nodes[dn].range.end;
                        if de - ds >= 8 {
                            let f = attr_frag_exec(attr, value);
                            Ok(splice_exec(&d.text, ds + 8, ds + 8, &f))
                        } else {
                            Err(invalid("malformed <Default>"))
                        }
                    },
                    None => {
                        let pind = indent_at_exec(&d.text, d.nodes[p].range.start);
                        let block = locale_block_exec(&pind, attr, value);
                        let t = elem_text_exec(d, p);
                        match append_into_exec(&t, "</Props>", &block, &pind) {
                            None => Err(invalid("malformed <Props>")),
                            Some(np) => Ok(
                                splice_exec(&d.text, d.nodes[p].range.start, d.nodes[p].range.end, &np),
                            ),
                        }
                    },
                },
            }
        },
        None => {
            let mut pind = indent_at_exec(&d.text, d.nodes[c].range.start);
            push_str(&mut pind, " ");
            let block = locale_block_exec(&pind, attr, value);
            let mut pe: Vec<char> = Vec::new();
            push_str(&mut pe, "<Props>");
            push_all(&mut pe, &block);
            push_str(&mut pe, "\n");
            push_all(&mut pe, &pind);
            push_str(&mut pe, "</Props>");
            props_insert_exec(d, c, &pe)
        },
    }
}

// ---- <List.UserTags> ---------------------------------------------------------------

/// The component's `<Props><List.UserTags>` element.
pub open spec fn tags_list(m: Seq<NodeV>, c: int) -> Option<int> {
    match props_of(m, c) {
        Some(p) => first_child(m, p, "List.UserTags"@),
        None => None,
    }
}

/// The `Value`s of the `<Entry>` children of `l` at or after `i` (below `hi`).
pub open spec fn entries_from(m: Seq<NodeV>, l: int, i: int, hi: int) -> Seq<Seq<char>>
    decreases hi - i,
{
    if i < 0 || i >= hi || i >= m.len() {
        Seq::empty()
    } else {
        let rest = entries_from(m, l, i + 1, hi);
        if m[i].parent == Some(l as usize) && is_elem(m[i], "Entry"@) && attr_val(m[i], "Value"@)
            is Some {
            seq![attr_val(m[i], "Value"@).unwrap()] + rest
        } else {
            rest
        }
    }
}

/// `user_tags`: the `<Entry Value>`s of the component's `<List.UserTags>`, in
/// document order (empty when there is no such list).
pub open spec fn user_tags(m: Seq<NodeV>, c: int) -> Seq<Seq<char>> {
    match tags_list(m, c) {
        Some(l) => entries_from(m, l, l + 1, last_of(m, l) + 1),
        None => Seq::empty(),
    }
}

pub fn tags_list_exec(d: &Doc, c: usize) -> (r: Option<usize>)
    requires
        d.wf(),
        c < d.nodes.len(),
    ensures
        r matches Some(l) ==> tags_list(d.model(), c as int) == Some(l as int) && l
            < d.nodes.len(),
        r is None ==> tags_list(d.model(), c as int) is None,
{
    let ghost m = d.model();
    assert(node_wf(m, c as int, d.text@.len() as int));
    match d.first_child(c, "Props") {
        Some(p) => {
            assert(node_wf(m, p as int, d.text@.len() as int));
            match d.first_child(p, "List.UserTags") {
                Some(l) => {
                    assert(node_wf(m, l as int, d.text@.len() as int));
                    Some(l)
                },
                None => None,
            }
        },
        None => None,
    }
}

pub open spec fn view_all(v: Seq<Vec<char>>) -> Seq<Seq<char>> {
    v.map_values(|x: Vec<char>| x@)
}

pub fn user_tags_exec(d: &Doc, c: usize) -> (r: Vec<Vec<char>>)
    requires
        d.wf(),
        c < d.nodes.len(),
    ensures
        view_all(r@) == user_tags(d.model(), c as int),
{
    let ghost m = d.model();
    match tags_list_exec(d, c) {
        None => {
            let r: Vec<Vec<char>> = Vec::new();
            assert(view_all(r@) =~= Seq::<Seq<char>>::empty());
            r
        },
        Some(l) => {
            assert(node_wf(m, l as int, d.text@.len() as int));
            let hi = match d.nodes[l].last {
                Some(x) => x,
                None => 0,
            };
            let mut r: Vec<Vec<char>> = Vec::new();
            let mut i: usize = l + 1;
            while i <= hi
                invariant
                    m == d.model(),
                    hi == last_of(m, l as int),
                    hi < d.nodes.len(),
                    l < i,
                    user_tags(m, c as int) == view_all(r@) + entries_from(m, l as int, i as int, hi + 1),
                decreases hi + 1 - i,
            {
                let n = &d.nodes[i];
                let ghost before = view_all(r@);
                if n.parent == Some(l) && is_elem_str(n, "Entry") {
                    match attr_value_str(n, "Value") {
                        Some(v) => {
                            let cp = subvec(v, 0, v.len());
                            assert(cp@ =~= v@);
                            r.push(cp);
                            assert(view_all(r@) =~= before + seq![v@]);
                        },
                        None => {},
                    }
                }
                i = i + 1;
            }
            assert(view_all(r@) =~= view_all(r@) + Seq::<Seq<char>>::empty());
            r
        },
    }
}

/// Whether `tags` holds `tag`.
pub fn contains_tag(tags: &Vec<Vec<char>>, tag: &Vec<char>) -> (b: bool)
    ensures
        b == view_all(tags@).contains(tag@),
{
    let mut i: usize = 0;
    while i < tags.len()
        invariant
            i <= tags.len(),
            forall|k: int| 0 <= k < i ==> view_all(tags@)[k] != tag@,
        decreases tags.len() - i,
    {
        if seq_eq(&tags[i], tag) {
            assert(view_all(tags@)[i as int] == tag@);
            return true;
        }
        i = i + 1;
    }
    false
}

/// `<Entry Value="tag"/>`.
pub open spec fn entry_elem(tag: Seq<char>) -> Seq<char> {
    "<Entry Value=\""@ + escape(tag) + "\"/>"@
}

/// The `<List.UserTags>` block holding one entry, inside a `<Props>` at `pind`.
pub open spec fn tags_block(pind: Seq<char>, entry: Seq<char>) -> Seq<char> {
    "\n"@ + pind + " <List.UserTags>\n"@ + pind + "  "@ + entry + "\n"@ + pind + " </List.UserTags>"@
}

/// `add_tag`: add a user tag as a new `<Entry>` line in the component's
/// `<List.UserTags>`, creating the list (and the `<Props>`) when absent; the text
/// is unchanged when the tag is already there.
pub open spec fn add_tag_spec(s: Seq<char>, m: Seq<NodeV>, comp: Seq<char>, tag: Seq<char>) -> Result<
    Seq<char>,
    ErrV,
> {
    if crate::text::all_ws(tag) {
        Err(ErrV::Invalid("tag must not be empty"@))
    } else {
        match find_component(m, comp) {
            None => Err(ErrV::NoSuchComponent(comp)),
            Some(c) => match props_of(m, c) {
                None => {
                    let pind = indent_at(s, m[c].start) + " "@;
                    props_insert(
                        s,
                        m,
                        c,
                        "<Props>"@ + tags_block(pind, entry_elem(tag)) + "\n"@ + pind + "</Props>"@,
                    )
                },
                Some(p) => if user_tags(m, c).contains(tag) {
                    Ok(s)
                } else {
                    match tags_list(m, c) {
                        Some(l) => {
                            let ind = indent_at(s, m[l].start);
                            match append_into(
                                elem_text(s, m, l),
                                "</List.UserTags>"@,
                                "\n"@ + ind + " "@ + entry_elem(tag),
                                ind,
                            ) {
                                None => Err(ErrV::Invalid("malformed <List.UserTags>"@)),
                                Some(nl) => Ok(splice(s, m[l].start, m[l].end, nl)),
                            }
                        },
                        None => {
                            let pind = indent_at(s, m[p].start);
                            match append_into(
                                elem_text(s, m, p),
                                "</Props>"@,
                                tags_block(pind, entry_elem(tag)),
                                pind,
                            ) {
                                None => Err(ErrV::Invalid("malformed <Props>"@)),
                                Some(np) => Ok(splice(s, m[p].start, m[p].end, np)),
                            }
                        },
                    }
                },
            },
        }
    }
}

fn entry_elem_exec(tag: &Vec<char>) -> (r: Vec<char>)
    ensures
        r@ == entry_elem(tag@),
{
    let mut r: Vec<char> = Vec::new();
    push_str(&mut r, "<Entry Value=\"");
    let e = escape_exec(tag);
    push_all(&mut r, &e);
    push_str(&mut r, "\"/>");
    r
}

fn tags_block_exec(pind: &Vec<char>, entry: &Vec<char>) -> (r: Vec<char>)
    ensures
        r@ == tags_block(pind@, entry@),
{
    let mut r: Vec<char> = Vec::new();
    push_str(&mut r, "\n");
    push_all(&mut r, pind);
    push_str(&mut r, " <List.UserTags>\n");
    push_all(&mut r, pind);
    push_str(&mut r, "  ");
    push_all(&mut r, entry);
    push_str(&mut r, "\n");
    push_all(&mut r, pind);
    push_str(&mut r, " </List.UserTags>");
    r
}

pub fn add_tag_doc(d: &Doc, comp: &Vec<char>, tag: &Vec<char>) -> (r: Result<Vec<char>, EditError>)
    requires
        d.wf(),
    ensures
        chars_result(r) == add_tag_spec(d.text@, d.model(), comp@, tag@),
{
    let ghost m = d.model();
    let ghost len = d.text@.len() as int;
    if crate::text::is_blank(tag) {
        return Err(invalid("tag must not be empty"));
    }
    let c = match d.find_component(comp) {
        None => return Err(no_such(comp)),
        Some(c) => c,
    };
    assert(node_wf(m, c as int, len));
    let entry = entry_elem_exec(tag);
    match d.first_child(c, "Props") {
        None => {
            let mut pind = indent_at_exec(&d.text, d.nodes[c].range.start);
            push_str(&mut pind, " ");
            let block = tags_block_exec(&pind, &entry);
            let mut pe: Vec<char> = Vec::new();
            push_str(&mut pe, "<Props>");
            push_all(&mut pe, &block);
            push_str(&mut pe, "\n");
            push_all(&mut pe, &pind);
            push_str(&mut pe, "</Props>");
            props_insert_exec(d, c, &pe)
        },
        Some(p) => {
            assert(node_wf(m, p as int, len));
            let tags = user_tags_exec(d, c);
            if contains_tag(&tags, tag) {
                let same = subvec(&d.text, 0, d.text.len());
                assert(same@ =~= d.text@);
                return Ok(same);
            }
            match tags_list_exec(d, c) {
                Some(l) => {
                    assert(node_wf(m, l as int, len));
                    let ind = indent_at_exec(&d.text, d.nodes[l].range.start);
                    let mut block: Vec<char> = Vec::new();
                    push_str(&mut block, "\n");
                    push_all(&mut block, &ind);
                    push_str(&mut block, " ");
                    push_all(&mut block, &entry);
                    let t = elem_text_exec(d, l);
                    match append_into_exec(&t, "</List.UserTags>", &block, &ind) {
                        None => Err(invalid("malformed <List.UserTags>")),
                        Some(nl) => Ok(
                            splice_exec(&d.text, d.nodes[l].range.start, d.nodes[l].range.end, &nl),
                        ),
                    }
                },
                None => {
                    let pind = indent_at_exec(&d.text, d.nodes[p].range.start);
                    let block = tags_block_exec(&pind, &entry);
                    let t = elem_text_exec(d, p);
                    match append_into_exec(&t, "</Props>", &block, &pind) {
                        None => Err(invalid("malformed <Props>")),
                        Some(np) => Ok(
                            splice_exec(&d.text, d.nodes[p].range.start, d.nodes[p].range.end, &np),
                        ),
                    }
                },
            }
        },
    }
}

/// `tags` without every occurrence of `tag`.
pub open spec fn remove_all(tags: Seq<Seq<char>>, tag: Seq<char>) -> Seq<Seq<char>>
    decreases tags.len(),
{
    if tags.len() == 0 {
        Seq::empty()
    } else {
        remove_all(tags.drop_last(), tag) + if tags.last() == tag {
            Seq::empty()
        } else {
            seq![tags.last()]
        }
    }
}

/// One `<Entry>` line per tag, one space deeper than `ind`.
pub open spec fn entry_lines(ind: Seq<char>, tags: Seq<Seq<char>>) -> Seq<char>
    decreases tags.len(),
{
    if tags.len() == 0 {
        Seq::empty()
    } else {
        entry_lines(ind, tags.drop_last()) + "\n"@ + ind + " "@ + entry_elem(tags.last())
    }
}

/// `remove_tag`: drop the tag's `<Entry>`; the surviving entries are rewritten one
/// per line, and when none survives the whole `<List.UserTags>` line goes.
pub open spec fn remove_tag_spec(s: Seq<char>, m: Seq<NodeV>, comp: Seq<char>, tag: Seq<char>) -> Result<
    Seq<char>,
    ErrV,
> {
    match find_component(m, comp) {
        None => Err(ErrV::NoSuchComponent(comp)),
        Some(c) => {
            let tags = user_tags(m, c);
            if !tags.contains(tag) {
                Err(ErrV::Invalid("`"@ + comp + "` has no user tag `"@ + tag + "`"@))
            } else {
                match tags_list(m, c) {
                    None => Err(ErrV::Invalid("no <List.UserTags> to edit"@)),
                    Some(l) => {
                        let remaining = remove_all(tags, tag);
                        if remaining.len() == 0 {
                            Ok(
                                splice(
                                    s,
                                    line_extended_start(s, m[l].start),
                                    m[l].end,
                                    Seq::empty(),
                                ),
                            )
                        } else {
                            let ind = indent_at(s, m[l].start);
                            Ok(
                                splice(
                                    s,
                                    m[l].start,
                                    m[l].end,
                                    "<List.UserTags>"@ + entry_lines(ind, remaining) + "\n"@ + ind
                                        + "</List.UserTags>"@,
                                ),
                            )
                        }
                    },
                }
            }
        },
    }
}

proof fn lemma_remove_all_filter(tags: Seq<Seq<char>>, tag: Seq<char>)
    ensures
        remove_all(tags, tag) == tags.filter(|t: Seq<char>| t != tag),
    decreases tags.len(),
{
    reveal(Seq::filter);
    if tags.len() > 0 {
        lemma_remove_all_filter(tags.drop_last(), tag);
        if tags.last() == tag {
            assert(remove_all(tags, tag) =~= remove_all(tags.drop_last(), tag));
        } else {
            assert(remove_all(tags, tag) =~= remove_all(tags.drop_last(), tag).push(tags.last()));
        }
    }
}

/// A successful `remove_tag` leaves the component's user tags as the input's tags
/// with every occurrence of `tag` taken out, in their order: while some remain,
/// the component's `<List.UserTags>` element is rewritten to hold one `<Entry>` per
/// remaining tag, each on its own line; when none remain, the element goes with
/// its line.
pub proof fn lemma_remove_tag_keeps_the_rest(s: Seq<char>, m: Seq<NodeV>, comp: Seq<char>, tag: Seq<char>)
    ensures
        remove_tag_spec(s, m, comp, tag) matches Ok(out) ==> (find_component(m, comp) matches Some(c) && tags_list(
            m,
            c,
        ) matches Some(l) && user_tags(m, c).contains(tag) && ({
            let rest = user_tags(m, c).filter(|t: Seq<char>| t != tag);
            let ind = indent_at(s, m[l].start);
            if rest.len() == 0 {
                out == splice(s, line_extended_start(s, m[l].start), m[l].end, Seq::empty())
            } else {
                out == splice(
                    s,
                    m[l].start,
                    m[l].end,
                    "<List.UserTags>"@ + entry_lines(ind, rest) + "\n"@ + ind + "</List.UserTags>"@,
                )
            }
        })),
{
    if let Some(c) = find_component(m, comp) {
        lemma_remove_all_filter(user_tags(m, c), tag);
    }
}

pub fn remove_tag_doc(d: &Doc, comp: &Vec<char>, tag: &Vec<char>) -> (r: Result<Vec<char>, EditError>)
    requires
        d.wf(),
    ensures
        chars_result(r) == remove_tag_spec(d.text@, d.model(), comp@, tag@),
{
    let ghost m = d.model();
    let ghost len = d.text@.len() as int;
    let c = match d.find_component(comp) {
        None => return Err(no_such(comp)),
        Some(c) => c,
    };
    assert(node_wf(m, c as int, len));
    let tags = user_tags_exec(d, c);
    if !contains_tag(&tags, tag) {
        let mut msg: Vec<char> = Vec::new();
        push_str(&mut msg, "`");
        push_all(&mut msg, comp);
        push_str(&mut msg, "` has no user tag `");
        push_all(&mut msg, tag);
        push_str(&mut msg, "`");
        return Err(EditError::Invalid(string_of(&msg)));
    }
    let l = match tags_list_exec(d, c) {
        None => return Err(invalid("no <List.UserTags> to edit")),
        Some(l) => l,
    };
    assert(node_wf(m, l as int, len));
    let ghost tv = view_all(tags@);
    let ind = indent_at_exec(&d.text, d.nodes[l].range.start);
    let mut remaining: Vec<Vec<char>> = Vec::new();
    let mut lines: Vec<char> = Vec::new();
    let mut i: usize = 0;
    while i < tags.len()
        invariant
            i <= tags.len(),
            tv == view_all(tags@),
            view_all(remaining@) == remove_all(tv.take(i as int), tag@),
            lines@ == entry_lines(ind@, view_all(remaining@)),
        decreases tags.len() - i,
    {
        assert(tv.take(i + 1).drop_last() =~= tv.take(i as int));
        if !seq_eq(&tags[i], tag) {
            let ghost before = view_all(remaining@);
            let cp = subvec(&tags[i], 0, tags[i].len());
            assert(cp@ =~= tv[i as int]);
            remaining.push(cp);
            assert(view_all(remaining@) =~= before + seq![tv[i as int]]);
            assert(view_all(remaining@).drop_last() =~= before);
            push_str(&mut lines, "\n");
            push_all(&mut lines, &ind);
            push_str(&mut lines, " ");
            let e = entry_elem_exec(&tags[i]);
            push_all(&mut lines, &e);
        } else {
            assert(remove_all(tv.take(i + 1), tag@) =~= remove_all(tv.take(i as int), tag@));
        }
        i = i + 1;
    }
    assert(tv.take(tags.len() as int) =~= tv);
    let ls = d.nodes[l].range.start;
    let le = d.nodes[l].range.end;
    if remaining.len() == 0 {
        let start = line_extended_start_exec(&d.text, ls);
        let empty: Vec<char> = Vec::new();
        Ok(splice_exec(&d.text, start, le, &empty))
    } else {
        let mut new: Vec<char> = Vec::new();
        push_str(&mut new, "<List.UserTags>");
        push_all(&mut new, &lines);
        push_str(&mut new, "\n");
        push_all(&mut new, &ind);
        push_str(&mut new, "</List.UserTags>");
        Ok(splice_exec(&d.text, ls, le, &new))
    }
}

// ---- every property edit stays inside its component -----------------------------------

/// `t` is `s` with one stretch inside `s[lo..hi]` replaced: the text before `lo`
/// and after `hi` is unchanged.
pub open spec fn splice_within(s: Seq<char>, t: Seq<char>, lo: int, hi: int) -> bool {
    exists|a: int, b: int, r: Seq<char>| lo <= a <= b <= hi && t == #[trigger] splice(s, a, b, r)
}

/// `t` differs from `s` only inside the element of the component named `comp`.
pub open spec fn inside_component(s: Seq<char>, m: Seq<NodeV>, comp: Seq<char>, t: Seq<char>) -> bool {
    find_component(m, comp) matches Some(c) && splice_within(s, t, m[c].start, m[c].end)
}

proof fn lemma_splice_within(s: Seq<char>, a: int, b: int, r: Seq<char>, lo: int, hi: int)
    requires
        lo <= a <= b <= hi,
    ensures
        splice_within(s, splice(s, a, b, r), lo, hi),
{
}

proof fn lemma_component_from_named(ns: Seq<NodeV>, name: Seq<char>, i: int)
    ensures
        component_from(ns, name, i) matches Some(c) ==> 0 <= c < ns.len() && component_named(ns[c], name),
    decreases ns.len() - i,
{
    if !(i < 0 || i >= ns.len()) && !component_named(ns[i], name) {
        lemma_component_from_named(ns, name, i + 1);
    }
}

proof fn lemma_child_from_elem(ns: Seq<NodeV>, p: int, tag: Seq<char>, i: int, hi: int)
    ensures
        child_from(ns, p, tag, i, hi) matches Some(c) ==> 0 <= c < ns.len() && is_elem(ns[c], tag),
    decreases hi - i,
{
    if !(i < 0 || i >= hi || i >= ns.len()) && !(ns[i].parent == Some(p as usize) && is_elem(ns[i], tag)) {
        lemma_child_from_elem(ns, p, tag, i + 1, hi);
    }
}

proof fn lemma_find_last(t: Seq<char>, c: char, i: int)
    requires
        0 <= i < t.len(),
        t[t.len() - 1] == c,
    ensures
        find_from(t, seq![c], i) is Some,
    decreases t.len() - i,
{
    if !match_at(t, seq![c], i) {
        if i == t.len() - 1 {
            assert(t.subrange(i, i + 1) =~= seq![c]);
        } else {
            lemma_find_last(t, c, i + 1);
        }
    }
}

/// Giving a component that has no `<Props>` a new one is never refused.
proof fn lemma_props_insert_ok(s: Seq<char>, m: Seq<NodeV>, c: int, props: Seq<char>)
    requires
        doc_wf(m, s.len() as int),
        doc_tags(m, s),
        0 <= c < m.len(),
        m[c].element,
    ensures
        props_insert(s, m, c, props) is Ok,
{
    assert(node_wf(m, c, s.len() as int));
    assert(node_tags(m[c], s));
    let t = elem_text(s, m, c);
    if !self_closing(t) {
        reveal_strlit(">");
        assert(">"@ == seq!['>']);
        assert(t[t.len() - 1] == s[m[c].end - 1]);
        lemma_find_last(t, '>', 0);
    }
}

/// Setting a `<Props>` attribute of a component that exists is never refused.
pub proof fn lemma_set_props_attr_ok(s: Seq<char>, m: Seq<NodeV>, comp: Seq<char>, attr: Seq<char>, value: Seq<char>)
    requires
        doc_wf(m, s.len() as int),
        doc_tags(m, s),
        find_component(m, comp) is Some,
    ensures
        set_props_attr_spec(s, m, comp, attr, value) is Ok,
{
    lemma_component_from_named(m, comp, 0);
    let c = find_component(m, comp).unwrap();
    assert(node_wf(m, c, s.len() as int));
    lemma_child_from_elem(m, c, "Props"@, c + 1, last_of(m, c) + 1);
    match props_of(m, c) {
        Some(p) => {
            if attr_idx(m[p], attr) is None {
                assert(node_tags(m[p], s));
                reveal_strlit("Props");
            }
        },
        None => lemma_props_insert_ok(s, m, c, "<Props"@ + attr_frag(attr, value) + "/>"@),
    }
}

proof fn lemma_component_node(m: Seq<NodeV>, len: int, comp: Seq<char>)
    requires
        doc_wf(m, len),
    ensures
        find_component(m, comp) matches Some(c) ==> 0 <= c < m.len() && node_wf(m, c, len),
{
    lemma_component_from_bound(m, comp, 0);
}

/// A node of `p`'s subtree lies inside `p`'s text.
proof fn lemma_in_subtree(m: Seq<NodeV>, len: int, p: int, k: int)
    requires
        doc_wf(m, len),
        doc_nested(m),
        0 <= p < m.len(),
        p <= k <= last_of(m, p),
    ensures
        0 <= k < m.len(),
        node_wf(m, k, len),
        m[p].start <= m[k].start,
        m[k].end <= m[p].end,
{
    assert(node_wf(m, p, len));
    assert(node_nested(m, p));
    if k > p {
        assert(m[p].start <= m[k].start && m[k].end <= m[p].end);
    }
    assert(node_wf(m, k, len));
}

/// A child found by `first_child` lies inside its parent's text.
proof fn lemma_child_inside(m: Seq<NodeV>, len: int, p: int, tag: Seq<char>)
    requires
        doc_wf(m, len),
        doc_nested(m),
        0 <= p < m.len(),
    ensures
        first_child(m, p, tag) matches Some(k) ==> p < k <= last_of(m, p) && k < m.len() && node_wf(
            m,
            k,
            len,
        ) && m[p].start <= m[k].start && m[k].end <= m[p].end,
{
    assert(node_wf(m, p, len));
    lemma_child_from_bound(m, p, tag, p + 1, last_of(m, p) + 1);
    if let Some(k) = first_child(m, p, tag) {
        lemma_in_subtree(m, len, p, k);
    }
}

/// An attribute of node `k` lies inside `k`'s text.
proof fn lemma_attr_inside(m: Seq<NodeV>, len: int, k: int, attr: Seq<char>)
    requires
        doc_wf(m, len),
        doc_nested(m),
        0 <= k < m.len(),
    ensures
        attr_idx(m[k], attr) matches Some(a) ==> 0 <= a < m[k].attrs.len() && m[k].start
            <= m[k].attrs[a].start && m[k].attrs[a].end <= m[k].end && m[k].start <= m[k].attrs[a].vstart
            <= m[k].attrs[a].vend <= m[k].end,
{
    assert(node_wf(m, k, len));
    assert(node_nested(m, k));
    lemma_attr_from_bound(m[k].attrs, attr, 0);
    if let Some(a) = attr_idx(m[k], attr) {
        assert(attr_wf(m[k].attrs[a], len));
    }
}

proof fn lemma_tags_list_inside(m: Seq<NodeV>, len: int, c: int)
    requires
        doc_wf(m, len),
        doc_nested(m),
        0 <= c < m.len(),
    ensures
        tags_list(m, c) matches Some(l) ==> 0 <= l < m.len() && node_wf(m, l, len) && m[c].start
            <= m[l].start && m[l].end <= m[c].end,
{
    lemma_child_inside(m, len, c, "Props"@);
    if let Some(p) = props_of(m, c) {
        lemma_child_inside(m, len, p, "List.UserTags"@);
    }
}

pub proof fn lemma_props_insert_inside(s: Seq<char>, m: Seq<NodeV>, c: int, props: Seq<char>)
    requires
        doc_wf(m, s.len() as int),
        0 <= c < m.len(),
    ensures
        props_insert(s, m, c, props) matches Ok(t) ==> splice_within(s, t, m[c].start, m[c].end),
{
    assert(node_wf(m, c, s.len() as int));
    let t = elem_text(s, m, c);
    if self_closing(t) {
        lemma_splice_within(
            s,
            m[c].start,
            m[c].end,
            open_part(t) + ">\n"@ + indent_at(s, m[c].start) + " "@ + props + "\n"@ + indent_at(s, m[c].start)
                + "</Component>"@,
            m[c].start,
            m[c].end,
        );
    } else {
        reveal_strlit(">");
        lemma_find_bounds(t, ">"@, 0);
        if let Some(k) = find_seq(t, ">"@) {
            lemma_splice_within(
                s,
                m[c].start + k + 1,
                m[c].start + k + 1,
                "\n"@ + indent_at(s, m[c].start) + " "@ + props,
                m[c].start,
                m[c].end,
            );
        }
    }
}

/// Setting a `<Props>` attribute changes only text inside the component's element.
pub proof fn lemma_set_props_attr_inside(
    s: Seq<char>,
    m: Seq<NodeV>,
    comp: Seq<char>,
    attr: Seq<char>,
    value: Seq<char>,
)
    requires
        doc_wf(m, s.len() as int),
        doc_nested(m),
    ensures
        set_props_attr_spec(s, m, comp, attr, value) matches Ok(t) ==> inside_component(s, m, comp, t),
{
    let len = s.len() as int;
    lemma_component_node(m, len, comp);
    if let Some(c) = find_component(m, comp) {
        lemma_child_inside(m, len, c, "Props"@);
        match props_of(m, c) {
            Some(p) => {
                lemma_attr_inside(m, len, p, attr);
                match attr_idx(m[p], attr) {
                    Some(a) => lemma_splice_within(
                        s,
                        m[p].attrs[a].vstart,
                        m[p].attrs[a].vend,
                        escape(value),
                        m[c].start,
                        m[c].end,
                    ),
                    None => if m[p].start + 6 <= m[p].end {
                        lemma_splice_within(
                            s,
                            m[p].start + 6,
                            m[p].start + 6,
                            attr_frag(attr, value),
                            m[c].start,
                            m[c].end,
                        );
                    },
                }
            },
            None => lemma_props_insert_inside(s, m, c, "<Props"@ + attr_frag(attr, value) + "/>"@),
        }
    }
}

/// Setting a display `<Default>` attribute changes only text inside the
/// component's element.
pub proof fn lemma_set_default_attr_inside(
    s: Seq<char>,
    m: Seq<NodeV>,
    comp: Seq<char>,
    attr: Seq<char>,
    value: Seq<char>,
)
    requires
        doc_wf(m, s.len() as int),
        doc_nested(m),
    ensures
        set_default_attr_spec(s, m, comp, attr, value) matches Ok(t) ==> inside_component(s, m, comp, t),
{
    let len = s.len() as int;
    lemma_component_node(m, len, comp);
    if let Some(c) = find_component(m, comp) {
        lemma_child_inside(m, len, c, "Props"@);
        match props_of(m, c) {
            Some(p) => {
                lemma_default_from(m, last_of(m, p) + 1, attr, true, p);
                lemma_default_from(m, last_of(m, p) + 1, attr, false, p);
                match default_in(m, p, attr, true) {
                    Some(dn) => {
                        lemma_in_subtree(m, len, p, dn);
                        lemma_attr_inside(m, len, dn, attr);
                        let a = m[dn].attrs[attr_idx(m[dn], attr).unwrap()];
                        lemma_splice_within(s, a.vstart, a.vend, escape(value), m[c].start, m[c].end);
                    },
                    None => match default_in(m, p, attr, false) {
                        Some(dn) => {
                            lemma_in_subtree(m, len, p, dn);
                            if m[dn].start + 8 <= m[dn].end {
                                lemma_splice_within(
                                    s,
                                    m[dn].start + 8,
                                    m[dn].start + 8,
                                    attr_frag(attr, value),
                                    m[c].start,
                                    m[c].end,
                                );
                            }
                        },
                        None => {
                            let pind = indent_at(s, m[p].start);
                            if let Some(np) = append_into(
                                elem_text(s, m, p),
                                "</Props>"@,
                                locale_block(pind, attr, value),
                                pind,
                            ) {
                                lemma_splice_within(s, m[p].start, m[p].end, np, m[c].start, m[c].end);
                            }
                        },
                    },
                }
            },
            None => {
                let pind = indent_at(s, m[c].start) + " "@;
                lemma_props_insert_inside(
                    s,
                    m,
                    c,
                    "<Props>"@ + locale_block(pind, attr, value) + "\n"@ + pind + "</Props>"@,
                );
            },
        }
    }
}

/// Adding a user tag changes only text inside the component's element.
pub proof fn lemma_add_tag_inside(s: Seq<char>, m: Seq<NodeV>, comp: Seq<char>, tag: Seq<char>)
    requires
        doc_wf(m, s.len() as int),
        doc_nested(m),
    ensures
        add_tag_spec(s, m, comp, tag) matches Ok(t) ==> inside_component(s, m, comp, t),
{
    let len = s.len() as int;
    lemma_component_node(m, len, comp);
    if let Some(c) = find_component(m, comp) {
        lemma_child_inside(m, len, c, "Props"@);
        lemma_splice_within(s, m[c].start, m[c].start, Seq::empty(), m[c].start, m[c].end);
        assert(splice(s, m[c].start, m[c].start, Seq::empty()) =~= s);
        match props_of(m, c) {
            None => {
                let pind = indent_at(s, m[c].start) + " "@;
                lemma_props_insert_inside(
                    s,
                    m,
                    c,
                    "<Props>"@ + tags_block(pind, entry_elem(tag)) + "\n"@ + pind + "</Props>"@,
                );
            },
            Some(p) => {
                lemma_tags_list_inside(m, len, c);
                match tags_list(m, c) {
                    Some(l) => {
                        let ind = indent_at(s, m[l].start);
                        if let Some(nl) = append_into(
                            elem_text(s, m, l),
                            "</List.UserTags>"@,
                            "\n"@ + ind + " "@ + entry_elem(tag),
                            ind,
                        ) {
                            lemma_splice_within(s, m[l].start, m[l].end, nl, m[c].start, m[c].end);
                        }
                    },
                    None => {
                        let pind = indent_at(s, m[p].start);
                        if let Some(np) = append_into(
                            elem_text(s, m, p),
                            "</Props>"@,
                            tags_block(pind, entry_elem(tag)),
                            pind,
                        ) {
                            lemma_splice_within(s, m[p].start, m[p].end, np, m[c].start, m[c].end);
                        }
                    },
                }
            },
        }
    }
}

} // verus!
