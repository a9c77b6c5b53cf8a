//! Structure edits: creating components (kept in sync with the `<Organisation>`
//! view tree), deleting a component or subtree, and renaming one.
//!
//! A project pairs a flat `<List>` of real components with a nested
//! `<Organisation>` view tree that uses short names, one `<Component Name="leaf">`
//! per level. M1-Build binds each object's Properties through the view tree, so
//! every structure edit mirrors itself there (a project without a view tree is
//! left alone there).
use vstd::prelude::*;
use crate::{EditError, ErrV, text_result, chars_result};
use crate::text::{
    chars_of, string_of, push_str, push_all, push_range, subvec, seq_eq, splice, splice_exec,
    escape, escape_exec, rfind_seq, rfind_exec, rfind_char, has_prefix, starts_with, all_ws,
    is_blank, find_seq, find_char, match_at,
};
use crate::xml::{
    Doc, NodeV, XmlNode, doc_model, parse_doc, parse_err, node_wf, last_of, is_elem, attr_val,
    attr_idx, has_attr, is_real_component, is_real_component_exec, find_component, is_elem_str,
    attr_value_str, attr_index, indent_at, indent_at_exec, line_extended_start,
    line_extended_start_exec, lemma_rfind_bounds,
};
use crate::props::{
    elem_text, elem_text_exec, self_closing, self_closing_exec, open_part, open_part_exec,
    view_all,
};
use crate::query::{split_dot, split_dot_exec};
use crate::sort::KeyOrder;
use crate::edits::{
    last_segment, last_segment_exec, parent_of, parent_of_exec, parse_chars, finish, on_doc,
    security_ok, security_error, type_ok, type_error, validate_type, validate_security,
    validate_name_segment, name_segment_error, script_relpath_spec, script_relpath_chars,
};

verus! {

// ---- <Organisation> navigation --------------------------------------------------

/// The first child of `p` among nodes `i..hi` that is a `<Component>` named `seg`.
pub open spec fn child_named_from(m: Seq<NodeV>, p: int, seg: Seq<char>, i: int, hi: int) -> Option<
    int,
>
    decreases hi - i,
{
    if i < 0 || i >= hi || i >= m.len() {
        None
    } else if m[i].parent == Some(p as usize) && is_elem(m[i], "Component"@) && attr_val(
        m[i],
        "Name"@,
    ) == Some(seg) {
        Some(i)
    } else {
        child_named_from(m, p, seg, i + 1, hi)
    }
}

/// Follow `segs` down the view tree from node `cur`, one named child per segment.
pub open spec fn walk_org(m: Seq<NodeV>, cur: int, segs: Seq<Seq<char>>) -> Option<int>
    decreases segs.len(),
{
    if segs.len() == 0 {
        Some(cur)
    } else {
        match child_named_from(m, cur, segs[0], cur + 1, last_of(m, cur) + 1) {
            None => None,
            Some(k) => walk_org(m, k, segs.drop_first()),
        }
    }
}

/// The view node for `segs` in the first `<Organisation>` (at or after node `i`)
/// that has one.
pub open spec fn org_find(m: Seq<NodeV>, segs: Seq<Seq<char>>, i: int) -> Option<int>
    decreases m.len() - i,
{
    if i < 0 || i >= m.len() {
        None
    } else if is_elem(m[i], "Organisation"@) && walk_org(m, i, segs) is Some {
        walk_org(m, i, segs)
    } else {
        org_find(m, segs, i + 1)
    }
}

/// `org_locate(xml, path)`: the view node of a dotted path, `None` when no view
/// tree has it.
pub open spec fn org_locate_spec(m: Seq<NodeV>, path: Seq<char>) -> Result<Option<int>, ErrV> {
    match org_find(m, split_dot(path), 0) {
        None => Ok(None),
        Some(k) => if has_attr(m[k], "Name"@) {
            Ok(Some(k))
        } else {
            Err(ErrV::Invalid("Organisation node lacks Name"@))
        },
    }
}

/// Position of the line break before `pos` (`pos` itself when there is none).
pub open spec fn nl_before(s: Seq<char>, pos: int) -> int {
    match rfind_seq(s.take(pos), seq!['\n']) {
        Some(i) => i,
        None => pos,
    }
}

/// The view node `<Component Name="leaf"/>` on its own line at `indent`.
pub open spec fn org_child(indent: Seq<char>, leaf: Seq<char>) -> Seq<char> {
    "\n"@ + indent + " <Component Name=\""@ + escape(leaf) + "\"/>"@
}

/// `org_insert_child`: add a view node for `leaf` as the last child of `parent`'s
/// view node; `Ok(None)` when the view tree has no node for `parent`.
pub open spec fn org_insert_spec(s: Seq<char>, m: Seq<NodeV>, parent: Seq<char>, leaf: Seq<char>) -> Result<
    Option<Seq<char>>,
    ErrV,
> {
    match org_locate_spec(m, parent) {
        Err(e) => Err(e),
        Ok(None) => Ok(None),
        Ok(Some(k)) => {
            let t = elem_text(s, m, k);
            let pind = indent_at(s, m[k].start);
            let child = org_child(pind, leaf);
            if self_closing(t) {
                Ok(
                    Some(
                        splice(
                            s,
                            m[k].start,
                            m[k].end,
                            open_part(t) + ">"@ + child + "\n"@ + pind + "</Component>"@,
                        ),
                    ),
                )
            } else {
                match rfind_seq(t, "</Component>"@) {
                    None => Err(ErrV::Invalid("malformed Organisation node"@)),
                    Some(r) => {
                        let ls = nl_before(s, m[k].start + r);
                        Ok(Some(splice(s, ls, ls, child)))
                    },
                }
            }
        },
    }
}

fn child_named_exec(d: &Doc, p: usize, seg: &Vec<char>) -> (r: Option<usize>)
    requires
        d.wf(),
        p < d.nodes.len(),
    ensures
        r matches Some(k) ==> child_named_from(
            d.model(),
            p as int,
            seg@,
            p + 1,
            last_of(d.model(), p as int) + 1,
        ) == Some(k as int) && p < k < d.nodes.len(),
        r is None ==> child_named_from(
            d.model(),
            p as int,
            seg@,
            p + 1,
            last_of(d.model(), p as int) + 1,
        ) is None,
{
    let ghost m = d.model();
    assert(node_wf(m, p as int, d.text@.len() as int));
    let hi = match d.nodes[p].last {
        Some(l) => l,
        None => 0,
    };
    let mut i: usize = p + 1;
    while i <= hi
        invariant
            m == d.model(),
            p < i,
            hi < d.nodes.len(),
            hi == last_of(m, p as int),
            child_named_from(m, p as int, seg@, p + 1, hi + 1) == child_named_from(
                m,
                p as int,
                seg@,
                i as int,
                hi + 1,
            ),
        decreases hi + 1 - i,
    {
        let n = &d.nodes[i];
        if n.parent == Some(p) && is_elem_str(n, "Component") {
            match attr_value_str(n, "Name") {
                Some(v) => {
                    if seq_eq(v, seg) {
                        return Some(i);
                    }
                },
                None => {},
            }
        }
        i = i + 1;
    }
    None
}

fn walk_org_exec(d: &Doc, org: usize, segs: &Vec<Vec<char>>) -> (r: Option<usize>)
    requires
        d.wf(),
        org < d.nodes.len(),
    ensures
        r matches Some(k) ==> walk_org(d.model(), org as int, view_all(segs@)) == Some(k as int) && k
            < d.nodes.len(),
        r is None ==> walk_org(d.model(), org as int, view_all(segs@)) is None,
{
    let ghost sv = view_all(segs@);
    let mut cur = org;
    let mut j: usize = 0;
    assert(sv.skip(0) =~= sv);
    while j < segs.len()
        invariant
            d.wf(),
            cur < d.nodes.len(),
            j <= segs.len(),
            sv == view_all(segs@),
            walk_org(d.model(), org as int, sv) == walk_org(d.model(), cur as int, sv.skip(j as int)),
        decreases segs.len() - j,
    {
        assert(sv.skip(j as int)[0] == segs@[j as int]@);
        assert(sv.skip(j as int).drop_first() =~= sv.skip(j + 1));
        match child_named_exec(d, cur, &segs[j]) {
            None => return None,
            Some(k) => {
                cur = k;
            },
        }
        j = j + 1;
    }
    assert(sv.skip(j as int) =~= Seq::<Seq<char>>::empty());
    Some(cur)
}

/// The view node for `path`, if any view tree has one.
pub fn org_locate(d: &Doc, path: &Vec<char>) -> (r: Result<Option<usize>, EditError>)
    requires
        d.wf(),
    ensures
        r matches Ok(Some(k)) ==> org_locate_spec(d.model(), path@) == Ok::<Option<int>, ErrV>(
            Some(k as int),
        ) && k < d.nodes.len(),
        r matches Ok(None) ==> org_locate_spec(d.model(), path@) == Ok::<Option<int>, ErrV>(None),
        r matches Err(e) ==> org_locate_spec(d.model(), path@) == Err::<Option<int>, ErrV>(e@),
{
    let ghost m = d.model();
    let segs = split_dot_exec(path);
    let mut i: usize = 0;
    while i < d.nodes.len()
        invariant
            d.wf(),
            m == d.model(),
            i <= d.nodes.len(),
            view_all(segs@) == split_dot(path@),
            org_find(m, split_dot(path@), 0) == org_find(m, split_dot(path@), i as int),
        decreases d.nodes.len() - i,
    {
        if is_elem_str(&d.nodes[i], "Organisation") {
            match walk_org_exec(d, i, &segs) {
                Some(k) => {
                    if attr_index(&d.nodes[k], &chars_of("Name")).is_some() {
                        return Ok(Some(k));
                    } else {
                        let msg = chars_of("Organisation node lacks Name");
                        return Err(EditError::Invalid(string_of(&msg)));
                    }
                },
                None => {},
            }
        }
        i = i + 1;
    }
    Ok(None)
}

fn nl_before_exec(s: &Vec<char>, pos: usize) -> (r: usize)
    requires
        pos <= s.len(),
    ensures
        r == nl_before(s@, pos as int),
        r <= pos,
{
    let head = subvec(s, 0, pos);
    assert(head@ =~= s@.take(pos as int));
    proof {
        lemma_rfind_bounds(head@, seq!['\n'], head@.len() - 1);
    }
    match rfind_char(&head, '\n') {
        Some(i) => i,
        None => pos,
    }
}

fn org_child_exec(indent: &Vec<char>, leaf: &Vec<char>) -> (r: Vec<char>)
    ensures
        r@ == org_child(indent@, leaf@),
{
    let mut r: Vec<char> = Vec::new();
    push_str(&mut r, "\n");
    push_all(&mut r, indent);
    push_str(&mut r, " <Component Name=\"");
    let e = escape_exec(leaf);
    push_all(&mut r, &e);
    push_str(&mut r, "\"/>");
    r
}

/// Add a view node for `leaf` under `parent`'s view node.
pub fn org_insert_child(d: &Doc, parent: &Vec<char>, leaf: &Vec<char>) -> (r: Result<
    Option<Vec<char>>,
    EditError,
>)
    requires
        d.wf(),
    ensures
        r matches Ok(Some(v)) ==> org_insert_spec(d.text@, d.model(), parent@, leaf@) == Ok::<
            Option<Seq<char>>,
            ErrV,
        >(Some(v@)),
        r matches Ok(None) ==> org_insert_spec(d.text@, d.model(), parent@, leaf@) == Ok::<
            Option<Seq<char>>,
            ErrV,
        >(None),
        r matches Err(e) ==> org_insert_spec(d.text@, d.model(), parent@, leaf@) == Err::<
            Option<Seq<char>>,
            ErrV,
        >(e@),
{
    let ghost m = d.model();
    let k = match org_locate(d, parent) {
        Err(e) => return Err(e),
        Ok(None) => return Ok(None),
        Ok(Some(k)) => k,
    };
    assert(node_wf(m, k as int, d.text@.len() as int));
    let t = elem_text_exec(d, k);
    let start = d.nodes[k].range.start;
    let end = d.nodes[k].range.end;
    let pind = indent_at_exec(&d.text, start);
    let child = org_child_exec(&pind, leaf);
    if self_closing_exec(&t) {
        let mut new = open_part_exec(&t);
        push_str(&mut new, ">");
        push_all(&mut new, &child);
        push_str(&mut new, "\n");
        push_all(&mut new, &pind);
        push_str(&mut new, "</Component>");
        Ok(Some(splice_exec(&d.text, start, end, &new)))
    } else {
        let cl = chars_of("</Component>");
        proof {
            lemma_rfind_bounds(t@, cl@, t@.len() - cl@.len());
        }
        match rfind_exec(&t, &cl) {
            None => {
                let msg = chars_of("malformed Organisation node");
                Err(EditError::Invalid(string_of(&msg)))
            },
            Some(r) => {
                let ls = nl_before_exec(&d.text, start + r);
                Ok(Some(splice_exec(&d.text, ls, ls, &child)))
            },
        }
    }
}

// ---- inserting a component ------------------------------------------------------------

/// The inner content of a new component element.
pub enum Body {
    /// A value component (Channel/Parameter): `<Props>` from the optional type,
    /// unit and security, or the empty `<Comment/>` when none is set.
    Value(Option<Vec<char>>, Option<Vec<char>>, Option<Vec<char>>),
    /// The empty `<Comment/>` placeholder.
    Comment,
    /// The empty `<Signature>` block of a new parametric function.
    Signature,
    /// No content: the element is self-closing.
    Empty,
}

pub enum BodyV {
    Value(Option<Seq<char>>, Option<Seq<char>>, Option<Seq<char>>),
    Comment,
    Signature,
    Empty,
}

pub open spec fn opt_chars_view(o: Option<Vec<char>>) -> Option<Seq<char>> {
    match o {
        Some(v) => Some(v@),
        None => None,
    }
}

impl View for Body {
    type V = BodyV;

    open spec fn view(&self) -> BodyV {
        match self {
            Body::Value(t, u, s) => BodyV::Value(opt_chars_view(*t), opt_chars_view(*u), opt_chars_view(*s)),
            Body::Comment => BodyV::Comment,
            Body::Signature => BodyV::Signature,
            Body::Empty => BodyV::Empty,
        }
    }
}

/// `build_props(ty, unit, security)`: the `<Props>` element of a new value
/// component, empty when nothing is set.
pub open spec fn build_props(ty: Option<Seq<char>>, unit: Option<Seq<char>>, sec: Option<Seq<char>>) -> Seq<
    char,
> {
    let attrs = (match ty {
        Some(t) => " Type=\""@ + escape(t) + "\""@,
        None => Seq::empty(),
    }) + (match sec {
        Some(s) => " Security=\""@ + escape(s) + "\""@,
        None => Seq::empty(),
    });
    match unit {
        Some(u) => "<Props"@ + attrs + "><Locale><Default Unit=\""@ + escape(u)
            + "\"/></Locale></Props>"@,
        None => if attrs.len() == 0 {
            Seq::empty()
        } else {
            "<Props"@ + attrs + "/>"@
        },
    }
}

/// The empty `<Signature>` M1-Build writes for a new parametric function; its CDATA
/// lines sit at column 0.
pub open spec fn signature_block(i: Seq<char>) -> Seq<char> {
    "\n"@ + i + " <Signature Name=\"\">\n"@ + i + "  <Description>\n<![CDATA[]]>\n"@ + i
        + "  </Description>\n"@ + i + "  <DescriptionFull>\n<![CDATA[]]>\n"@ + i
        + "  </DescriptionFull>\n"@ + i + " </Signature>"@
}

/// The inner content for `body` at indentation `indent`; `None` for a
/// self-closing element.
pub open spec fn body_text(body: BodyV, indent: Seq<char>) -> Option<Seq<char>> {
    match body {
        BodyV::Value(t, u, s) => {
            let props = build_props(t, u, s);
            if props.len() == 0 {
                Some("\n"@ + indent + " <Comment/>"@)
            } else {
                Some("\n"@ + indent + " "@ + props)
            }
        },
        BodyV::Comment => Some("\n"@ + indent + " <Comment/>"@),
        BodyV::Signature => Some(signature_block(indent)),
        BodyV::Empty => None,
    }
}

/// A direct child name of `parent`: `parent.` followed by one non-empty segment.
pub open spec fn direct_child_name(nm: Seq<char>, prefix: Seq<char>) -> bool {
    has_prefix(nm, prefix) && nm.len() > prefix.len() && find_seq(nm.skip(prefix.len() as int), seq!['.'])
        is None
}

/// The insertion anchor: the end (and start) of the last-ending direct child of the
/// parent among nodes `i..`, starting from `(end, start)`.
pub open spec fn anchor_from(m: Seq<NodeV>, prefix: Seq<char>, i: int, end: int, start: int) -> (
    int,
    int,
)
    decreases m.len() - i,
{
    if i < 0 || i >= m.len() {
        (end, start)
    } else if is_real_component(m[i]) && attr_val(m[i], "Name"@) is Some && direct_child_name(
        attr_val(m[i], "Name"@).unwrap(),
        prefix,
    ) && m[i].end > end {
        anchor_from(m, prefix, i + 1, m[i].end, m[i].start)
    } else {
        anchor_from(m, prefix, i + 1, end, start)
    }
}

/// Node `n` is a real component whose name is a direct child of `prefix`'s group.
pub open spec fn is_direct_child(n: NodeV, prefix: Seq<char>) -> bool {
    is_real_component(n) && attr_val(n, "Name"@) is Some && direct_child_name(attr_val(n, "Name"@).unwrap(), prefix)
}

proof fn lemma_anchor_from(m: Seq<NodeV>, prefix: Seq<char>, i: int, end: int, start: int)
    requires
        0 <= i,
    ensures
        anchor_from(m, prefix, i, end, start).0 >= end,
        forall|k: int|
            i <= k < m.len() && is_direct_child(#[trigger] m[k], prefix) ==> m[k].end <= anchor_from(
                m,
                prefix,
                i,
                end,
                start,
            ).0,
        anchor_from(m, prefix, i, end, start).0 == end || exists|k: int|
            i <= k < m.len() && is_direct_child(#[trigger] m[k], prefix) && m[k].end == anchor_from(
                m,
                prefix,
                i,
                end,
                start,
            ).0,
    decreases m.len() - i,
{
    if i < m.len() {
        if is_direct_child(m[i], prefix) && m[i].end > end {
            lemma_anchor_from(m, prefix, i + 1, m[i].end, m[i].start);
        } else {
            lemma_anchor_from(m, prefix, i + 1, end, start);
        }
    }
}

/// Where a new component goes: right after the element of the parent's
/// last-ending direct child — no direct child of the parent ends later, and the
/// point is the end of one of them — or right after the parent's own element when
/// no direct child ends later than it. `insert_on` splices the new element in at
/// exactly this point.
pub proof fn lemma_insert_point(m: Seq<NodeV>, parent: Seq<char>, pc: int)
    requires
        0 <= pc < m.len(),
    ensures
        forall|k: int|
            0 <= k < m.len() && is_direct_child(#[trigger] m[k], parent + "."@) ==> m[k].end <= anchor_from(
                m,
                parent + "."@,
                0,
                m[pc].end,
                m[pc].start,
            ).0,
        anchor_from(m, parent + "."@, 0, m[pc].end, m[pc].start).0 == m[pc].end || exists|k: int|
            0 <= k < m.len() && is_direct_child(#[trigger] m[k], parent + "."@) && m[k].end == anchor_from(
                m,
                parent + "."@,
                0,
                m[pc].end,
                m[pc].start,
            ).0,
        anchor_from(m, parent + "."@, 0, m[pc].end, m[pc].start).0 >= m[pc].end,
{
    lemma_anchor_from(m, parent + "."@, 0, m[pc].end, m[pc].start);
}

/// The new `<Component …>` element on its own line at `indent`.
pub open spec fn new_element(
    indent: Seq<char>,
    classname: Seq<char>,
    attrs: Seq<char>,
    name: Seq<char>,
    body: Option<Seq<char>>,
) -> Seq<char> {
    "\n"@ + indent + "<Component Classname=\""@ + classname + "\""@ + attrs + " Name=\""@ + escape(name)
        + match body {
        None => "\"/>"@,
        Some(inner) => "\">"@ + inner + "\n"@ + indent + "</Component>"@,
    }
}

/// `insert_component`: place the new component after the last direct child of its
/// parent group (right after the parent when it has none), at that sibling's
/// indentation, then mirror it into the view tree of the resulting text.
pub open spec fn insert_on(
    s: Seq<char>,
    m: Seq<NodeV>,
    name: Seq<char>,
    classname: Seq<char>,
    attrs: Seq<char>,
    body: BodyV,
) -> Result<Seq<char>, ErrV> {
    if find_component(m, name) is Some {
        Err(ErrV::Duplicate(name))
    } else {
        match parent_of(name) {
            None => Err(ErrV::Invalid("`"@ + name + "` has no parent group"@)),
            Some(parent) => match find_component(m, parent) {
                None => Err(ErrV::NoSuchComponent(parent)),
                Some(pc) => {
                    let (ae, ai) = anchor_from(m, parent + "."@, 0, m[pc].end, m[pc].start);
                    let indent = indent_at(s, ai);
                    let out = s.take(ae) + new_element(
                        indent,
                        classname,
                        attrs,
                        name,
                        body_text(body, indent),
                    ) + s.skip(ae);
                    match doc_model(out) {
                        None => Err(parse_err(out)),
                        Some(m2) => match org_insert_spec(out, m2, parent, last_segment(name)) {
                            Err(e) => Err(e),
                            Ok(None) => Ok(out),
                            Ok(Some(o)) => Ok(o),
                        },
                    }
                },
            },
        }
    }
}

fn build_props_exec(ty: &Option<Vec<char>>, unit: &Option<Vec<char>>, sec: &Option<Vec<char>>) -> (r:
    Vec<char>)
    ensures
        r@ == build_props(opt_chars_view(*ty), opt_chars_view(*unit), opt_chars_view(*sec)),
{
    let mut attrs: Vec<char> = Vec::new();
    match ty {
        Some(t) => {
            push_str(&mut attrs, " Type=\"");
            push_all(&mut attrs, &escape_exec(t));
            push_str(&mut attrs, "\"");
        },
        None => {},
    }
    let ghost a1 = attrs@;
    match sec {
        Some(s) => {
            push_str(&mut attrs, " Security=\"");
            push_all(&mut attrs, &escape_exec(s));
            push_str(&mut attrs, "\"");
        },
        None => {},
    }
    assert(attrs@ =~= a1 + (match opt_chars_view(*sec) {
        Some(s) => " Security=\""@ + escape(s) + "\""@,
        None => Seq::<char>::empty(),
    }));
    let mut r: Vec<char> = Vec::new();
    match unit {
        Some(u) => {
            push_str(&mut r, "<Props");
            push_all(&mut r, &attrs);
            push_str(&mut r, "><Locale><Default Unit=\"");
            push_all(&mut r, &escape_exec(u));
            push_str(&mut r, "\"/></Locale></Props>");
        },
        None => {
            if attrs.len() > 0 {
                push_str(&mut r, "<Props");
                push_all(&mut r, &attrs);
                push_str(&mut r, "/>");
            }
        },
    }
    r
}

fn body_text_exec(body: &Body, indent: &Vec<char>) -> (r: Option<Vec<char>>)
    ensures
        match r {
            Some(v) => body_text(body@, indent@) == Some(v@),
            None => body_text(body@, indent@) is None,
        },
{
    match body {
        Body::Value(t, u, s) => {
            let props = build_props_exec(t, u, s);
            let mut r: Vec<char> = Vec::new();
            push_str(&mut r, "\n");
            push_all(&mut r, indent);
            if props.len() == 0 {
                push_str(&mut r, " <Comment/>");
            } else {
                push_str(&mut r, " ");
                push_all(&mut r, &props);
            }
            Some(r)
        },
        Body::Comment => {
            let mut r: Vec<char> = Vec::new();
            push_str(&mut r, "\n");
            push_all(&mut r, indent);
            push_str(&mut r, " <Comment/>");
            Some(r)
        },
        Body::Signature => {
            let mut r: Vec<char> = Vec::new();
            push_str(&mut r, "\n");
            push_all(&mut r, indent);
            push_str(&mut r, " <Signature Name=\"\">\n");
            push_all(&mut r, indent);
            push_str(&mut r, "  <Description>\n<![CDATA[]]>\n");
            push_all(&mut r, indent);
            push_str(&mut r, "  </Description>\n");
            push_all(&mut r, indent);
            push_str(&mut r, "  <DescriptionFull>\n<![CDATA[]]>\n");
            push_all(&mut r, indent);
            push_str(&mut r, "  </DescriptionFull>\n");
            push_all(&mut r, indent);
            push_str(&mut r, " </Signature>");
            Some(r)
        },
        Body::Empty => None,
    }
}

fn direct_child_exec(nm: &Vec<char>, prefix: &Vec<char>) -> (b: bool)
    ensures
        b == direct_child_name(nm@, prefix@),
{
    if !starts_with(nm, prefix) || nm.len() <= prefix.len() {
        return false;
    }
    let rest = subvec(nm, prefix.len(), nm.len());
    assert(rest@ =~= nm@.skip(prefix@.len() as int));
    find_char(&rest, '.').is_none()
}

/// Insert a new component named `name` of class `classname` (with extra attributes
/// `attrs` after the class) and content `body`.
pub fn insert_component(d: &Doc, name: &Vec<char>, classname: &str, attrs: &Vec<char>, body: &Body) -> (r:
    Result<Vec<char>, EditError>)
    requires
        d.wf(),
    ensures
        chars_result(r) == insert_on(d.text@, d.model(), name@, classname@, attrs@, body@),
{
    let ghost m = d.model();
    if d.find_component(name).is_some() {
        return Err(EditError::Duplicate(string_of(name)));
    }
    let parent = match parent_of_exec(name) {
        None => {
            let mut msg: Vec<char> = Vec::new();
            push_str(&mut msg, "`");
            push_all(&mut msg, name);
            push_str(&mut msg, "` has no parent group");
            return Err(EditError::Invalid(string_of(&msg)));
        },
        Some(p) => p,
    };
    let pc = match d.find_component(&parent) {
        None => return Err(EditError::NoSuchComponent(string_of(&parent))),
        Some(pc) => pc,
    };
    assert(node_wf(m, pc as int, d.text@.len() as int));
    let mut prefix = subvec(&parent, 0, parent.len());
    push_str(&mut prefix, ".");
    assert(prefix@ =~= parent@ + "."@);
    let mut ae = d.nodes[pc].range.end;
    let mut ai = d.nodes[pc].range.start;
    let mut i: usize = 0;
    while i < d.nodes.len()
        invariant
            d.wf(),
            m == d.model(),
            i <= d.nodes.len(),
            pc < d.nodes.len(),
            ae <= d.text@.len(),
            ai <= d.text@.len(),
            anchor_from(m, prefix@, 0, m[pc as int].end, m[pc as int].start) == anchor_from(
                m,
                prefix@,
                i as int,
                ae as int,
                ai as int,
            ),
        decreases d.nodes.len() - i,
    {
        let n = &d.nodes[i];
        if is_real_component_exec(n) {
            match attr_value_str(n, "Name") {
                Some(nm) => {
                    if direct_child_exec(nm, &prefix) && n.range.end > ae {
                        assert(node_wf(m, i as int, d.text@.len() as int));
                        ae = n.range.end;
                        ai = n.range.start;
                    }
                },
                None => {},
            }
        }
        i = i + 1;
    }
    let indent = indent_at_exec(&d.text, ai);
    let inner = body_text_exec(body, &indent);
    let mut el: Vec<char> = Vec::new();
    push_str(&mut el, "\n");
    push_all(&mut el, &indent);
    push_str(&mut el, "<Component Classname=\"");
    push_str(&mut el, classname);
    push_str(&mut el, "\"");
    push_all(&mut el, attrs);
    push_str(&mut el, " Name=\"");
    push_all(&mut el, &escape_exec(name));
    let ghost head = el@;
    match inner {
        None => {
            push_str(&mut el, "\"/>");
            assert(el@ =~= new_element(indent@, classname@, attrs@, name@, body_text(body@, indent@)));
        },
        Some(v) => {
            push_str(&mut el, "\">");
            push_all(&mut el, &v);
            push_str(&mut el, "\n");
            push_all(&mut el, &indent);
            push_str(&mut el, "</Component>");
            assert(el@ =~= new_element(indent@, classname@, attrs@, name@, body_text(body@, indent@)));
        },
    }
    let out = splice_exec(&d.text, ae, ae, &el);
    assert(out@ =~= d.text@.take(ae as int) + el@ + d.text@.skip(ae as int));
    let d2 = parse_chars(&out)?;
    let leaf = last_segment_exec(name);
    match org_insert_child(&d2, &parent, &leaf) {
        Err(e) => Err(e),
        Ok(None) => Ok(out),
        Ok(Some(o)) => Ok(o),
    }
}

// ---- create_* ------------------------------------------------------------------------

pub open spec fn opt_str(o: Option<&str>) -> Option<Seq<char>> {
    match o {
        Some(x) => Some(x@),
        None => None,
    }
}

/// `create_channel`/`create_parameter`: validate the optional type and unit (a
/// blank unit is refused), then, on the parsed project, the optional security
/// group (one the project accepts), then insert the value component.
pub open spec fn create_value_spec(
    xml: Seq<char>,
    name: Seq<char>,
    classname: Seq<char>,
    ty: Option<Seq<char>>,
    unit: Option<Seq<char>>,
    sec: Option<Seq<char>>,
) -> Result<Seq<char>, ErrV> {
    if ty is Some && !type_ok(ty.unwrap()) {
        Err(type_error(ty.unwrap()))
    } else if unit is Some && all_ws(unit.unwrap()) {
        Err(ErrV::Invalid("unit must not be empty"@))
    } else {
        on_doc(
            xml,
            |m: Seq<NodeV>|
                if sec is Some && !security_ok(m, sec.unwrap()) {
                    Err(security_error(m, sec.unwrap()))
                } else {
                    insert_on(xml, m, name, classname, Seq::empty(), BodyV::Value(ty, unit, sec))
                },
        )
    }
}

fn opt_chars(o: Option<&str>) -> (r: Option<Vec<char>>)
    ensures
        opt_chars_view(r) == opt_str(o),
{
    match o {
        Some(x) => Some(chars_of(x)),
        None => None,
    }
}

fn create_value(
    xml: &str,
    name: &str,
    classname: &str,
    ty: Option<&str>,
    unit: Option<&str>,
    security: Option<&str>,
) -> (r: Result<String, EditError>)
    ensures
        text_result(r) == create_value_spec(
            xml@,
            name@,
            classname@,
            opt_str(ty),
            opt_str(unit),
            opt_str(security),
        ),
{
    match ty {
        Some(t) => match validate_type(t) {
            Err(e) => return Err(e),
            Ok(()) => {},
        },
        None => {},
    }
    match unit {
        Some(u) => {
            if is_blank(&chars_of(u)) {
                let msg = chars_of("unit must not be empty");
                return Err(EditError::Invalid(string_of(&msg)));
            }
        },
        None => {},
    }
    let d = parse_doc(xml)?;
    match security {
        Some(sv) => match validate_security(&d, sv) {
            Err(e) => return Err(e),
            Ok(()) => {},
        },
        None => {},
    }
    let nm = chars_of(name);
    let body = Body::Value(opt_chars(ty), opt_chars(unit), opt_chars(security));
    let empty: Vec<char> = Vec::new();
    assert(empty@ =~= Seq::<char>::empty());
    finish(insert_component(&d, &nm, classname, &empty, &body))
}

/// Create a `BuiltIn.Channel` under its existing parent group, placed after the
/// parent's last direct child and mirrored into the view tree. With no type, unit
/// or security the body is the bare `<Comment/>` M1-Build writes by default.
pub fn create_channel(
    xml: &str,
    name: &str,
    ty: Option<&str>,
    unit: Option<&str>,
    security: Option<&str>,
) -> (r: Result<String, EditError>)
    ensures
        text_result(r) == create_value_spec(
            xml@,
            name@,
            "BuiltIn.Channel"@,
            opt_str(ty),
            opt_str(unit),
            opt_str(security),
        ),
{
    create_value(xml, name, "BuiltIn.Channel", ty, unit, security)
}

/// Create a `BuiltIn.Parameter` under its existing parent group; same shape as
/// [`create_channel`].
pub fn create_parameter(
    xml: &str,
    name: &str,
    ty: Option<&str>,
    unit: Option<&str>,
    security: Option<&str>,
) -> (r: Result<String, EditError>)
    ensures
        text_result(r) == create_value_spec(
            xml@,
            name@,
            "BuiltIn.Parameter"@,
            opt_str(ty),
            opt_str(unit),
            opt_str(security),
        ),
{
    create_value(xml, name, "BuiltIn.Parameter", ty, unit, security)
}

pub open spec fn create_group_spec(xml: Seq<char>, name: Seq<char>) -> Result<Seq<char>, ErrV> {
    match name_segment_error(name) {
        Some(e) => Err(e),
        None => on_doc(
            xml,
            |m: Seq<NodeV>| insert_on(xml, m, name, "BuiltIn.GroupCompound"@, Seq::empty(), BodyV::Comment),
        ),
    }
}

/// Create a `BuiltIn.GroupCompound` under its existing parent group.
pub fn create_group(xml: &str, name: &str) -> (r: Result<String, EditError>)
    ensures
        text_result(r) == create_group_spec(xml@, name@),
{
    match validate_name_segment(name) {
        Err(e) => return Err(e),
        Ok(()) => {},
    }
    let d = parse_doc(xml)?;
    let nm = chars_of(name);
    let empty: Vec<char> = Vec::new();
    assert(empty@ =~= Seq::<char>::empty());
    finish(insert_component(&d, &nm, "BuiltIn.GroupCompound", &empty, &Body::Comment))
}

/// ` Filename="<script path>"` for a new script component.
pub open spec fn filename_attr(name: Seq<char>) -> Seq<char> {
    " Filename=\""@ + escape(script_relpath_spec(name)) + "\""@
}

fn filename_attr_exec(name: &Vec<char>) -> (r: Vec<char>)
    ensures
        r@ == filename_attr(name@),
{
    let mut r: Vec<char> = Vec::new();
    push_str(&mut r, " Filename=\"");
    push_all(&mut r, &escape_exec(&script_relpath_chars(name)));
    push_str(&mut r, "\"");
    r
}

pub open spec fn create_script_spec(xml: Seq<char>, name: Seq<char>, classname: Seq<char>, body: BodyV) -> Result<
    Seq<char>,
    ErrV,
> {
    match name_segment_error(name) {
        Some(e) => Err(e),
        None => on_doc(xml, |m: Seq<NodeV>| insert_on(xml, m, name, classname, filename_attr(name), body)),
    }
}

/// Create a `BuiltIn.FuncUser` scheduled function: a self-closing element carrying
/// its backing script as `Filename` (see [`crate::script_relpath`]).
pub fn create_scheduled_function(xml: &str, name: &str) -> (r: Result<String, EditError>)
    ensures
        text_result(r) == create_script_spec(xml@, name@, "BuiltIn.FuncUser"@, BodyV::Empty),
{
    match validate_name_segment(name) {
        Err(e) => return Err(e),
        Ok(()) => {},
    }
    let d = parse_doc(xml)?;
    let nm = chars_of(name);
    let attrs = filename_attr_exec(&nm);
    finish(insert_component(&d, &nm, "BuiltIn.FuncUser", &attrs, &Body::Empty))
}

/// Create a `BuiltIn.FuncUserParam` parametric function: a `Filename` plus the
/// empty `<Signature>` block M1-Build writes for a new one.
pub fn create_function(xml: &str, name: &str) -> (r: Result<String, EditError>)
    ensures
        text_result(r) == create_script_spec(xml@, name@, "BuiltIn.FuncUserParam"@, BodyV::Signature),
{
    match validate_name_segment(name) {
        Err(e) => return Err(e),
        Ok(()) => {},
    }
    let d = parse_doc(xml)?;
    let nm = chars_of(name);
    let attrs = filename_attr_exec(&nm);
    finish(insert_component(&d, &nm, "BuiltIn.FuncUserParam", &attrs, &Body::Signature))
}

// ---- delete_component ----------------------------------------------------------------

/// `nm` is `name` or lies below it.
pub open spec fn in_subtree(nm: Seq<char>, name: Seq<char>) -> bool {
    nm == name || has_prefix(nm, name + "."@)
}

/// Some real component among nodes `i..` is a direct child of `prefix`'s group
/// (its name is `prefix` followed by a part without dots).
pub open spec fn child_exists_from(m: Seq<NodeV>, prefix: Seq<char>, i: int) -> bool
    decreases m.len() - i,
{
    if i < 0 || i >= m.len() {
        false
    } else if is_real_component(m[i]) && attr_val(m[i], "Name"@) is Some && has_prefix(
        attr_val(m[i], "Name"@).unwrap(),
        prefix,
    ) && find_seq(attr_val(m[i], "Name"@).unwrap().skip(prefix.len() as int), seq!['.']) is None {
        true
    } else {
        child_exists_from(m, prefix, i + 1)
    }
}

/// The real components among nodes `i..` (in document order) whose
/// `SelectedTrigger`, resolved from their own name, lands on `name` or a path
/// below it.
pub open spec fn refs_from(m: Seq<NodeV>, name: Seq<char>, i: int) -> Seq<Seq<char>>
    decreases m.len() - i,
{
    if i < 0 || i >= m.len() {
        Seq::empty()
    } else {
        let rest = refs_from(m, name, i + 1);
        let owner = attr_val(m[i], "Name"@);
        let trig = crate::query::props_attr(m, i, "SelectedTrigger"@);
        if is_real_component(m[i]) && owner is Some && trig is Some && match crate::query::resolve_trigger_spec(
            owner.unwrap(),
            trig.unwrap(),
        ) {
            Some(abs) => in_subtree(abs, name),
            None => false,
        } {
            seq![owner.unwrap()] + rest
        } else {
            rest
        }
    }
}

/// The ranges to cut for the deleted components among nodes `i..`: each element
/// together with its line's indentation and preceding line break.
pub open spec fn cuts_from(s: Seq<char>, m: Seq<NodeV>, name: Seq<char>, i: int) -> Seq<(int, int)>
    decreases m.len() - i,
{
    if i < 0 || i >= m.len() {
        Seq::empty()
    } else {
        let rest = cuts_from(s, m, name, i + 1);
        if is_real_component(m[i]) && attr_val(m[i], "Name"@) is Some && in_subtree(
            attr_val(m[i], "Name"@).unwrap(),
            name,
        ) {
            seq![(line_extended_start(s, m[i].start), m[i].end)] + rest
        } else {
            rest
        }
    }
}

/// The cuts follow each other without overlapping, all from position `pos` on.
pub open spec fn cuts_ordered(cuts: Seq<(int, int)>, pos: int) -> bool
    decreases cuts.len(),
{
    if cuts.len() == 0 {
        true
    } else {
        pos <= cuts[0].0 <= cuts[0].1 && cuts_ordered(cuts.drop_first(), cuts[0].1)
    }
}

/// The text from `pos` on with the cuts left out.
pub open spec fn keep(s: Seq<char>, cuts: Seq<(int, int)>, pos: int) -> Seq<char>
    decreases cuts.len(),
{
    if cuts.len() == 0 {
        s.subrange(pos, s.len() as int)
    } else {
        s.subrange(pos, cuts[0].0) + keep(s, cuts.drop_first(), cuts[0].1)
    }
}

/// Remove the view node of `name` together with its line, when the view tree has one.
pub open spec fn org_remove_spec(s: Seq<char>, m: Seq<NodeV>, name: Seq<char>) -> Result<Seq<char>, ErrV> {
    match org_locate_spec(m, name) {
        Err(e) => Err(e),
        Ok(None) => Ok(s),
        Ok(Some(k)) => Ok(splice(s, line_extended_start(s, m[k].start), m[k].end, Seq::empty())),
    }
}

/// `delete_component`: refuse a component with children unless `recursive`, and a
/// component that any `SelectedTrigger` resolves to (or below) unless `force`
/// (naming the referencing components, sorted); otherwise cut every component of
/// the subtree (with its line) and its view node.
pub open spec fn delete_on(s: Seq<char>, m: Seq<NodeV>, name: Seq<char>, recursive: bool, force: bool) -> Result<
    Seq<char>,
    ErrV,
> {
    if find_component(m, name) is None {
        Err(ErrV::NoSuchComponent(name))
    } else if child_exists_from(m, name + "."@, 0) && !recursive {
        Err(
            ErrV::Invalid(
                "`"@ + name
                    + "` has child components \u{2014} pass --recursive to delete the whole subtree"@,
            ),
        )
    } else if refs_from(m, name, 0).len() > 0 && !force {
        Err(
            ErrV::Invalid(
                "cannot delete `"@ + name + "`: referenced by SelectedTrigger in: "@
                    + crate::edits::join_with(crate::query::sort_lex(refs_from(m, name, 0)), ", "@)
                    + "; pass --force to delete anyway"@,
            ),
        )
    } else {
        let cuts = cuts_from(s, m, name, 0);
        if !cuts_ordered(cuts, 0) {
            Err(ErrV::Invalid("overlapping component elements"@))
        } else {
            let out = keep(s, cuts, 0);
            match doc_model(out) {
                None => Err(parse_err(out)),
                Some(m2) => org_remove_spec(out, m2, name),
            }
        }
    }
}

/// Node `k` is a real component named `name` or a path below it.
pub open spec fn component_in_subtree(m: Seq<NodeV>, name: Seq<char>, k: int) -> bool {
    is_real_component(m[k]) && attr_val(m[k], "Name"@) is Some && in_subtree(attr_val(m[k], "Name"@).unwrap(), name)
}

/// The stretch of text a deleted element takes: the element with the indentation
/// and line break before it.
pub open spec fn element_line(s: Seq<char>, m: Seq<NodeV>, k: int) -> (int, int) {
    (line_extended_start(s, m[k].start), m[k].end)
}

/// `c` is the line of a deleted component among nodes `i..`.
pub open spec fn is_deleted_line(s: Seq<char>, m: Seq<NodeV>, name: Seq<char>, i: int, c: (int, int)) -> bool {
    exists|k: int| i <= k < m.len() && component_in_subtree(m, name, k) && c == #[trigger] element_line(s, m, k)
}

proof fn lemma_cuts_from(s: Seq<char>, m: Seq<NodeV>, name: Seq<char>, i: int)
    requires
        0 <= i,
    ensures
        forall|j: int|
            0 <= j < cuts_from(s, m, name, i).len() ==> is_deleted_line(
                s,
                m,
                name,
                i,
                #[trigger] cuts_from(s, m, name, i)[j],
            ),
        forall|k: int|
            i <= k < m.len() && #[trigger] component_in_subtree(m, name, k) ==> cuts_from(s, m, name, i).contains(
                element_line(s, m, k),
            ),
    decreases m.len() - i,
{
    if i < m.len() {
        lemma_cuts_from(s, m, name, i + 1);
        let rest = cuts_from(s, m, name, i + 1);
        let c = cuts_from(s, m, name, i);
        assert forall|j: int| 0 <= j < rest.len() implies is_deleted_line(s, m, name, i, #[trigger] rest[j]) by {
            assert(is_deleted_line(s, m, name, i + 1, rest[j]));
            let k = choose|k: int|
                i + 1 <= k < m.len() && component_in_subtree(m, name, k) && rest[j] == #[trigger] element_line(s, m, k);
            assert(i <= k);
        }
        if component_in_subtree(m, name, i) {
            assert(c == seq![element_line(s, m, i)] + rest);
            assert forall|j: int| 0 <= j < c.len() implies is_deleted_line(s, m, name, i, #[trigger] c[j]) by {
                if j == 0 {
                    assert(c[0] == element_line(s, m, i));
                } else {
                    assert(c[j] == rest[j - 1]);
                }
            }
            assert forall|k: int| i <= k < m.len() && #[trigger] component_in_subtree(m, name, k) implies c.contains(
                element_line(s, m, k),
            ) by {
                if k == i {
                    assert(c[0] == element_line(s, m, i));
                } else {
                    let j = choose|j: int| 0 <= j < rest.len() && rest[j] == element_line(s, m, k);
                    assert(c[j + 1] == rest[j]);
                }
            }
        } else {
            assert(c == rest);
        }
    }
}

/// A successful delete cuts from the text exactly the lines of the components
/// named `name` or a path below it — every such component's element with its
/// line, and nothing of any other component — and then removes `name`'s view
/// node from what is left.
pub proof fn lemma_delete_cuts_exactly_the_subtree(xml: Seq<char>, name: Seq<char>, recursive: bool, force: bool)
    ensures
        delete_spec(xml, name, recursive, force) matches Ok(out) ==> (doc_model(xml) matches Some(m) && exists|
            cuts: Seq<(int, int)>,
        |
            #![trigger keep(xml, cuts, 0)]
            cuts_ordered(cuts, 0) && (forall|j: int|
                0 <= j < cuts.len() ==> is_deleted_line(xml, m, name, 0, #[trigger] cuts[j])) && (forall|k: int|
                0 <= k < m.len() && #[trigger] component_in_subtree(m, name, k) ==> cuts.contains(
                    element_line(xml, m, k),
                )) && (doc_model(keep(xml, cuts, 0)) matches Some(m2) && org_remove_spec(
                keep(xml, cuts, 0),
                m2,
                name,
            ) == Ok::<Seq<char>, ErrV>(out))),
{
    if let Some(m) = doc_model(xml) {
        lemma_cuts_from(xml, m, name, 0);
        let cuts = cuts_from(xml, m, name, 0);
        if delete_spec(xml, name, recursive, force) is Ok {
            assert(keep(xml, cuts, 0) == keep(xml, cuts, 0));
        }
    }
}

pub open spec fn delete_spec(xml: Seq<char>, name: Seq<char>, recursive: bool, force: bool) -> Result<
    Seq<char>,
    ErrV,
> {
    on_doc(xml, |m: Seq<NodeV>| delete_on(xml, m, name, recursive, force))
}

fn in_subtree_exec(nm: &Vec<char>, name: &Vec<char>, prefix: &Vec<char>) -> (b: bool)
    requires
        prefix@ == name@ + "."@,
    ensures
        b == in_subtree(nm@, name@),
{
    seq_eq(nm, name) || starts_with(nm, prefix)
}

/// [`delete_component`] on a parsed document.
pub fn delete_component_doc(d: &Doc, name: &str, recursive: bool, force: bool) -> (r: Result<
    String,
    EditError,
>)
    requires
        d.wf(),
    ensures
        text_result(r) == delete_on(d.text@, d.model(), name@, recursive, force),
{
    let ghost m = d.model();
    let ghost s = d.text@;
    let nm = chars_of(name);
    if d.find_component(&nm).is_none() {
        return Err(EditError::NoSuchComponent(string_of(&nm)));
    }
    let mut prefix = subvec(&nm, 0, nm.len());
    push_str(&mut prefix, ".");
    assert(prefix@ =~= nm@ + "."@);
    // direct children
    let mut has_child = false;
    let mut i: usize = 0;
    while i < d.nodes.len() && !has_child
        invariant
            i <= d.nodes.len(),
            m == d.model(),
            child_exists_from(m, prefix@, 0) == (has_child || child_exists_from(m, prefix@, i as int)),
        decreases d.nodes.len() - i,
    {
        let n = &d.nodes[i];
        if is_real_component_exec(n) {
            match attr_value_str(n, "Name") {
                Some(v) => {
                    if starts_with(v, &prefix) {
                        let rest = subvec(v, prefix.len(), v.len());
                        assert(rest@ =~= v@.skip(prefix@.len() as int));
                        if find_char(&rest, '.').is_none() {
                            has_child = true;
                        }
                    }
                },
                None => {},
            }
        }
        i = i + 1;
    }
    if has_child && !recursive {
        let mut msg: Vec<char> = Vec::new();
        push_str(&mut msg, "`");
        push_all(&mut msg, &nm);
        push_str(&mut msg, "` has child components \u{2014} pass --recursive to delete the whole subtree");
        return Err(EditError::Invalid(string_of(&msg)));
    }
    // components whose trigger lands in the deleted subtree
    let mut refs: Vec<Vec<char>> = Vec::new();
    let mut i: usize = 0;
    while i < d.nodes.len()
        invariant
            i <= d.nodes.len(),
            d.wf(),
            m == d.model(),
            prefix@ == nm@ + "."@,
            refs_from(m, nm@, 0) == view_all(refs@) + refs_from(m, nm@, i as int),
        decreases d.nodes.len() - i,
    {
        let n = &d.nodes[i];
        let ghost before = view_all(refs@);
        if is_real_component_exec(n) {
            match attr_value_str(n, "Name") {
                Some(owner) => {
                    assert(node_wf(m, i as int, d.text@.len() as int));
                    match d.first_child(i, "Props") {
                        Some(p) => match attr_value_str(&d.nodes[p], "SelectedTrigger") {
                            Some(t) => {
                                let os = string_of(owner);
                                let ts = string_of(t);
                                match crate::query::resolve_trigger(os.as_str(), ts.as_str()) {
                                    Some(abs) => {
                                        let av = crate::text::chars_of_string(&abs);
                                        if in_subtree_exec(&av, &nm, &prefix) {
                                            let cp = subvec(owner, 0, owner.len());
                                            assert(cp@ =~= owner@);
                                            refs.push(cp);
                                            assert(view_all(refs@) =~= before + seq![owner@]);
                                        }
                                    },
                                    None => {},
                                }
                            },
                            None => {},
                        },
                        None => {},
                    }
                },
                None => {},
            }
        }
        i = i + 1;
    }
    assert(view_all(refs@) + Seq::<Seq<char>>::empty() =~= view_all(refs@));
    if refs.len() > 0 && !force {
        let ghost rv = refs@;
        let sorted = crate::sort::isort_exec(refs);
        proof {
            crate::query::lemma_isort_view(rv);
        }
        let mut msg: Vec<char> = Vec::new();
        push_str(&mut msg, "cannot delete `");
        push_all(&mut msg, &nm);
        push_str(&mut msg, "`: referenced by SelectedTrigger in: ");
        push_all(&mut msg, &crate::edits::join_with_exec(&sorted, ", "));
        push_str(&mut msg, "; pass --force to delete anyway");
        return Err(EditError::Invalid(string_of(&msg)));
    }
    // the cuts, in document order
    let mut cuts: Vec<(usize, usize)> = Vec::new();
    let mut i: usize = 0;
    while i < d.nodes.len()
        invariant
            i <= d.nodes.len(),
            d.wf(),
            m == d.model(),
            s == d.text@,
            prefix@ == nm@ + "."@,
            cuts_from(s, m, nm@, 0) == cuts@.map_values(|c: (usize, usize)| (c.0 as int, c.1 as int))
                + cuts_from(s, m, nm@, i as int),
            forall|k: int| 0 <= k < cuts@.len() ==> #[trigger] cuts@[k].1 <= s.len(),
        decreases d.nodes.len() - i,
    {
        let n = &d.nodes[i];
        let ghost cv = cuts@.map_values(|c: (usize, usize)| (c.0 as int, c.1 as int));
        if is_real_component_exec(n) {
            match attr_value_str(n, "Name") {
                Some(v) => {
                    if in_subtree_exec(v, &nm, &prefix) {
                        assert(node_wf(m, i as int, s.len() as int));
                        let a = line_extended_start_exec(&d.text, n.range.start);
                        let b = n.range.end;
                        cuts.push((a, b));
                        assert(cuts@.map_values(|c: (usize, usize)| (c.0 as int, c.1 as int)) =~= cv
                            + seq![(a as int, b as int)]);
                    }
                },
                None => {},
            }
        }
        i = i + 1;
    }
    let ghost cv = cuts@.map_values(|c: (usize, usize)| (c.0 as int, c.1 as int));
    assert(cv + Seq::<(int, int)>::empty() =~= cv);
    // they must follow each other without overlapping
    let mut ok = true;
    let mut pos: usize = 0;
    let mut k: usize = 0;
    assert(cv.skip(0) =~= cv);
    while ok && k < cuts.len()
        invariant
            k <= cuts.len(),
            cv == cuts@.map_values(|c: (usize, usize)| (c.0 as int, c.1 as int)),
            cuts_ordered(cv, 0) == (ok && cuts_ordered(cv.skip(k as int), pos as int)),
        decreases cuts.len() - k,
    {
        let (a, b) = cuts[k];
        assert(cv.skip(k as int)[0] == (a as int, b as int));
        assert(cv.skip(k as int).drop_first() =~= cv.skip(k + 1));
        if pos <= a && a <= b {
            pos = b;
        } else {
            ok = false;
        }
        k = k + 1;
    }
    if !ok {
        let msg = chars_of("overlapping component elements");
        return Err(EditError::Invalid(string_of(&msg)));
    }
    assert(cv.skip(k as int) =~= Seq::<(int, int)>::empty());
    // keep what lies between the cuts
    let mut out: Vec<char> = Vec::new();
    let mut p: usize = 0;
    let mut k: usize = 0;
    assert(out@ + keep(s, cv.skip(0), 0) =~= keep(s, cv, 0));
    while k < cuts.len()
        invariant
            k <= cuts.len(),
            s == d.text@,
            cv == cuts@.map_values(|c: (usize, usize)| (c.0 as int, c.1 as int)),
            p <= s.len(),
            forall|j: int| 0 <= j < cuts@.len() ==> #[trigger] cuts@[j].1 <= s.len(),
            cuts_ordered(cv.skip(k as int), p as int),
            keep(s, cv, 0) == out@ + keep(s, cv.skip(k as int), p as int),
        decreases cuts.len() - k,
    {
        let (a, b) = cuts[k];
        assert(cv.skip(k as int)[0] == (a as int, b as int));
        assert(cv.skip(k as int).drop_first() =~= cv.skip(k + 1));
        push_range(&mut out, &d.text, p, a);
        p = b;
        k = k + 1;
    }
    push_range(&mut out, &d.text, p, d.text.len());
    assert(cv.skip(k as int) =~= Seq::<(int, int)>::empty());
    assert(out@ =~= keep(s, cv, 0));
    let d2 = parse_chars(&out)?;
    match org_locate(&d2, &nm) {
        Err(e) => Err(e),
        Ok(None) => Ok(string_of(&out)),
        Ok(Some(k)) => {
            assert(node_wf(d2.model(), k as int, d2.text@.len() as int));
            let st = line_extended_start_exec(&d2.text, d2.nodes[k].range.start);
            let empty: Vec<char> = Vec::new();
            let o = splice_exec(&d2.text, st, d2.nodes[k].range.end, &empty);
            assert(empty@ =~= Seq::<char>::empty());
            Ok(string_of(&o))
        },
    }
}

/// Delete a component; with `recursive` its whole subtree. Refused when it has
/// children and `recursive` is off, or when any component's `SelectedTrigger`
/// resolves to the component or a path below it and `force` is off (the message
/// lists those components, sorted). Each deleted element
/// goes together with its line's indentation and line break, and its view node
/// (with the view subtree nested in it) goes too.
pub fn delete_component(xml: &str, name: &str, recursive: bool, force: bool) -> (r: Result<
    String,
    EditError,
>)
    ensures
        text_result(r) == delete_spec(xml@, name@, recursive, force),
{
    let d = parse_doc(xml)?;
    delete_component_doc(&d, name, recursive, force)
}

// ---- rename_component ----------------------------------------------------------------

/// A text replacement: `[start, end)` becomes `text`.
pub struct Fix {
    pub start: usize,
    pub end: usize,
    pub text: Vec<char>,
}

pub open spec fn fixes_view(f: Seq<Fix>) -> Seq<(int, int, Seq<char>)> {
    f.map_values(|x: Fix| (x.start as int, x.end as int, x.text@))
}

/// The replacements follow each other without overlapping, from `pos` on, and
/// stay inside a text of length `len`.
pub open spec fn fixes_ordered(f: Seq<(int, int, Seq<char>)>, pos: int, len: int) -> bool
    decreases f.len(),
{
    if f.len() == 0 {
        pos <= len
    } else {
        0 <= pos <= f[0].0 <= f[0].1 && fixes_ordered(f.drop_first(), f[0].1, len)
    }
}

/// The text from `pos` on with every replacement applied.
pub open spec fn apply_fixes(s: Seq<char>, f: Seq<(int, int, Seq<char>)>, pos: int) -> Seq<char>
    decreases f.len(),
{
    if f.len() == 0 {
        s.subrange(pos, s.len() as int)
    } else {
        s.subrange(pos, f[0].0) + f[0].2 + apply_fixes(s, f.drop_first(), f[0].1)
    }
}

/// Apply replacements listed in document order; refused when two overlap.
pub open spec fn apply_checked_spec(s: Seq<char>, f: Seq<(int, int, Seq<char>)>) -> Result<Seq<char>, ErrV> {
    if fixes_ordered(f, 0, s.len() as int) {
        Ok(apply_fixes(s, f, 0))
    } else {
        Err(ErrV::Invalid("overlapping component elements"@))
    }
}

proof fn lemma_fixes_bound(f: Seq<(int, int, Seq<char>)>, pos: int, len: int)
    requires
        fixes_ordered(f, pos, len),
    ensures
        pos <= len,
        f.len() > 0 ==> pos <= f[0].0 <= f[0].1 <= len,
    decreases f.len(),
{
    if f.len() > 0 {
        lemma_fixes_bound(f.drop_first(), f[0].1, len);
    }
}

pub fn apply_checked(s: &Vec<char>, f: &Vec<Fix>) -> (r: Result<Vec<char>, EditError>)
    ensures
        chars_result(r) == apply_checked_spec(s@, fixes_view(f@)),
{
    let ghost fv = fixes_view(f@);
    let mut ok = true;
    let mut pos: usize = 0;
    let mut k: usize = 0;
    assert(fv.skip(0) =~= fv);
    while ok && k < f.len()
        invariant
            k <= f.len(),
            fv == fixes_view(f@),
            fixes_ordered(fv, 0, s@.len() as int) == (ok && fixes_ordered(
                fv.skip(k as int),
                pos as int,
                s@.len() as int,
            )),
        decreases f.len() - k,
    {
        assert(fv.skip(k as int)[0] == fv[k as int]);
        assert(fv.skip(k as int).drop_first() =~= fv.skip(k + 1));
        if pos <= f[k].start && f[k].start <= f[k].end {
            pos = f[k].end;
        } else {
            ok = false;
        }
        k = k + 1;
    }
    if ok && pos > s.len() {
        ok = false;
        assert(fv.skip(k as int) =~= Seq::<(int, int, Seq<char>)>::empty());
    }
    if !ok {
        let msg = chars_of("overlapping component elements");
        return Err(EditError::Invalid(string_of(&msg)));
    }
    assert(fv.skip(k as int) =~= Seq::<(int, int, Seq<char>)>::empty());
    let mut out: Vec<char> = Vec::new();
    let mut p: usize = 0;
    let mut k: usize = 0;
    assert(out@ + apply_fixes(s@, fv.skip(0), 0) =~= apply_fixes(s@, fv, 0));
    while k < f.len()
        invariant
            k <= f.len(),
            fv == fixes_view(f@),
            fixes_ordered(fv.skip(k as int), p as int, s@.len() as int),
            apply_fixes(s@, fv, 0) == out@ + apply_fixes(s@, fv.skip(k as int), p as int),
        decreases f.len() - k,
    {
        assert(fv.skip(k as int)[0] == fv[k as int]);
        assert(fv.skip(k as int).drop_first() =~= fv.skip(k + 1));
        proof {
            lemma_fixes_bound(fv.skip(k as int), p as int, s@.len() as int);
        }
        push_range(&mut out, s, p, f[k].start);
        push_all(&mut out, &f[k].text);
        p = f[k].end;
        k = k + 1;
    }
    assert(fv.skip(k as int) =~= Seq::<(int, int, Seq<char>)>::empty());
    proof {
        lemma_fixes_bound(fv.skip(k as int), p as int, s@.len() as int);
    }
    push_range(&mut out, s, p, s.len());
    assert(out@ =~= apply_fixes(s@, fv, 0));
    Ok(out)
}

/// The new name of `nm` in the renamed subtree.
pub open spec fn new_of(nm: Seq<char>, old: Seq<char>, new: Seq<char>) -> Seq<char> {
    new + nm.skip(old.len() as int)
}

/// The old name a component named `nm` in the renamed text had: its counterpart
/// under `old` when that was a component of the input text, else `nm` itself.
pub open spec fn old_of(m: Seq<NodeV>, nm: Seq<char>, old: Seq<char>, new: Seq<char>) -> Seq<char> {
    let cand = old + nm.skip(new.len() as int);
    if in_subtree(nm, new) && find_component(m, cand) is Some {
        cand
    } else {
        nm
    }
}

/// Whether a component named `nm` in the renamed text is one that was renamed.
pub open spec fn was_renamed(m: Seq<NodeV>, nm: Seq<char>, old: Seq<char>, new: Seq<char>) -> bool {
    in_subtree(nm, new) && find_component(m, old + nm.skip(new.len() as int)) is Some
}

pub open spec fn attr_vrange(n: NodeV, attr: Seq<char>) -> (int, int) {
    let a = n.attrs[attr_idx(n, attr).unwrap()];
    (a.vstart, a.vend)
}

/// Pass 1: every component of the subtree gets its new `Name`.
pub open spec fn name_fixes(m: Seq<NodeV>, old: Seq<char>, new: Seq<char>, i: int) -> Seq<
    (int, int, Seq<char>),
>
    decreases m.len() - i,
{
    if i < 0 || i >= m.len() {
        Seq::empty()
    } else {
        let rest = name_fixes(m, old, new, i + 1);
        let nm = attr_val(m[i], "Name"@);
        if is_real_component(m[i]) && nm is Some && in_subtree(nm.unwrap(), old) {
            let r = attr_vrange(m[i], "Name"@);
            seq![(r.0, r.1, escape(new_of(nm.unwrap(), old, new)))] + rest
        } else {
            rest
        }
    }
}

/// Pass 2: every `SelectedTrigger` (resolved from its owner's old name) that lands
/// in the renamed subtree is rebuilt from the owner's new name to the new target.
pub open spec fn trig_fixes(m0: Seq<NodeV>, m: Seq<NodeV>, old: Seq<char>, new: Seq<char>, i: int) -> Seq<
    (int, int, Seq<char>),
>
    decreases m.len() - i,
{
    if i < 0 || i >= m.len() {
        Seq::empty()
    } else {
        let rest = trig_fixes(m0, m, old, new, i + 1);
        let owner = attr_val(m[i], "Name"@);
        let p = crate::props::props_of(m, i);
        if is_real_component(m[i]) && owner is Some && p is Some && has_attr(
            m[p.unwrap()],
            "SelectedTrigger"@,
        ) {
            let trig = attr_val(m[p.unwrap()], "SelectedTrigger"@).unwrap();
            match crate::query::resolve_trigger_spec(old_of(m0, owner.unwrap(), old, new), trig) {
                Some(abs) => if in_subtree(abs, old) {
                    let r = attr_vrange(m[p.unwrap()], "SelectedTrigger"@);
                    seq![
                        (
                            r.0,
                            r.1,
                            escape(crate::query::build_trigger_spec(owner.unwrap(), new_of(abs, old, new))),
                        ),
                    ] + rest
                } else {
                    rest
                },
                None => rest,
            }
        } else {
            rest
        }
    }
}

/// Pass 3: every renamed component with a `Filename` gets its new script path.
pub open spec fn file_fixes(m0: Seq<NodeV>, m: Seq<NodeV>, old: Seq<char>, new: Seq<char>, i: int) -> Seq<
    (int, int, Seq<char>),
>
    decreases m.len() - i,
{
    if i < 0 || i >= m.len() {
        Seq::empty()
    } else {
        let rest = file_fixes(m0, m, old, new, i + 1);
        let nm = attr_val(m[i], "Name"@);
        if is_real_component(m[i]) && nm is Some && was_renamed(m0, nm.unwrap(), old, new) && has_attr(
            m[i],
            "Filename"@,
        ) {
            let r = attr_vrange(m[i], "Filename"@);
            seq![(r.0, r.1, escape(script_relpath_spec(nm.unwrap())))] + rest
        } else {
            rest
        }
    }
}

/// The `(old, new)` names of the renamed components, in document order.
pub open spec fn pairs_from(m: Seq<NodeV>, old: Seq<char>, new: Seq<char>, i: int) -> Seq<
    (Seq<char>, Seq<char>),
>
    decreases m.len() - i,
{
    if i < 0 || i >= m.len() {
        Seq::empty()
    } else {
        let rest = pairs_from(m, old, new, i + 1);
        let nm = attr_val(m[i], "Name"@);
        if is_real_component(m[i]) && nm is Some && in_subtree(nm.unwrap(), old) {
            seq![(nm.unwrap(), new_of(nm.unwrap(), old, new))] + rest
        } else {
            rest
        }
    }
}

/// Longer old names first, equal lengths alphabetically.
pub open spec fn pair_le(a: (Seq<char>, Seq<char>), b: (Seq<char>, Seq<char>)) -> bool {
    a.0.len() > b.0.len() || (a.0.len() == b.0.len() && crate::sort::lex_le(a.0, b.0))
}

pub open spec fn ins_pair(t: Seq<(Seq<char>, Seq<char>)>, x: (Seq<char>, Seq<char>)) -> Seq<
    (Seq<char>, Seq<char>),
>
    decreases t.len(),
{
    if t.len() == 0 {
        seq![x]
    } else if pair_le(t.last(), x) {
        t.push(x)
    } else {
        ins_pair(t.drop_last(), x).push(t.last())
    }
}

/// Stable sort of the renamed pairs, longest old name first.
pub open spec fn sort_pairs(s: Seq<(Seq<char>, Seq<char>)>) -> Seq<(Seq<char>, Seq<char>)>
    decreases s.len(),
{
    if s.len() == 0 {
        Seq::empty()
    } else {
        ins_pair(sort_pairs(s.drop_last()), s.last())
    }
}

/// The backing-script renames: each renamed pair whose component is a script.
pub open spec fn script_renames(m: Seq<NodeV>, pairs: Seq<(Seq<char>, Seq<char>)>) -> Seq<
    (Seq<char>, Seq<char>),
>
    decreases pairs.len(),
{
    if pairs.len() == 0 {
        Seq::empty()
    } else {
        let rest = script_renames(m, pairs.drop_first());
        let p = pairs[0];
        match find_component(m, p.0) {
            Some(k) => if crate::query::is_script_class(attr_val(m[k], "Classname"@).unwrap_or(Seq::empty())) {
                seq![(script_relpath_spec(p.0), script_relpath_spec(p.1))] + rest
            } else {
                rest
            },
            None => rest,
        }
    }
}

/// The text after the four rename passes: `Name`s, triggers, `Filename`s, then
/// the view node's short name — each pass on the re-parsed result of the last.
pub open spec fn rename_text(s: Seq<char>, m: Seq<NodeV>, old: Seq<char>, new: Seq<char>, seg: Seq<char>) -> Result<
    Seq<char>,
    ErrV,
> {
    match apply_checked_spec(s, name_fixes(m, old, new, 0)) {
        Err(e) => Err(e),
        Ok(s1) => rename_rest(s1, m, old, new, seg),
    }
}

/// The passes after the `Name`s, on the text `s1` they left: triggers, `Filename`s,
/// then the view node's short name — each on the re-parsed result of the last.
pub open spec fn rename_rest(s1: Seq<char>, m: Seq<NodeV>, old: Seq<char>, new: Seq<char>, seg: Seq<char>) -> Result<
    Seq<char>,
    ErrV,
> {
    match doc_model(s1) {
        None => Err(parse_err(s1)),
        Some(m1) => match apply_checked_spec(s1, trig_fixes(m, m1, old, new, 0)) {
            Err(e) => Err(e),
            Ok(s2) => match doc_model(s2) {
                None => Err(parse_err(s2)),
                Some(m2) => match apply_checked_spec(s2, file_fixes(m, m2, old, new, 0)) {
                    Err(e) => Err(e),
                    Ok(s3) => match doc_model(s3) {
                        None => Err(parse_err(s3)),
                        Some(m3) => match org_locate_spec(m3, old) {
                            Err(e) => Err(e),
                            Ok(None) => Ok(s3),
                            Ok(Some(k)) => {
                                let r = attr_vrange(m3[k], "Name"@);
                                if 0 <= r.0 <= r.1 <= s3.len() {
                                    Ok(splice(s3, r.0, r.1, escape(seg)))
                                } else {
                                    Err(ErrV::Invalid("overlapping component elements"@))
                                }
                            },
                        },
                    },
                },
            },
        },
    }
}

/// The `Name` rewrite of component `k`: its `Name` value range and the escaped
/// new name, `new` in place of the leading `old`.
pub open spec fn name_fix(m: Seq<NodeV>, k: int, old: Seq<char>, new: Seq<char>) -> (int, int, Seq<char>) {
    let r = attr_vrange(m[k], "Name"@);
    (r.0, r.1, escape(new_of(attr_val(m[k], "Name"@).unwrap(), old, new)))
}

/// `f` rewrites the `Name` of a component named `old` or a path below it.
pub open spec fn is_subtree_name_fix(m: Seq<NodeV>, old: Seq<char>, new: Seq<char>, i: int, f: (int, int, Seq<char>)) -> bool {
    exists|k: int| i <= k < m.len() && component_in_subtree(m, old, k) && f == #[trigger] name_fix(m, k, old, new)
}

proof fn lemma_name_fixes(m: Seq<NodeV>, old: Seq<char>, new: Seq<char>, i: int)
    requires
        0 <= i,
    ensures
        forall|j: int|
            0 <= j < name_fixes(m, old, new, i).len() ==> is_subtree_name_fix(
                m,
                old,
                new,
                i,
                #[trigger] name_fixes(m, old, new, i)[j],
            ),
        forall|k: int|
            i <= k < m.len() && #[trigger] component_in_subtree(m, old, k) ==> name_fixes(m, old, new, i).contains(
                name_fix(m, k, old, new),
            ),
    decreases m.len() - i,
{
    if i < m.len() {
        lemma_name_fixes(m, old, new, i + 1);
        let rest = name_fixes(m, old, new, i + 1);
        let c = name_fixes(m, old, new, i);
        assert forall|j: int| 0 <= j < rest.len() implies is_subtree_name_fix(m, old, new, i, #[trigger] rest[j]) by {
            assert(is_subtree_name_fix(m, old, new, i + 1, rest[j]));
            let k = choose|k: int|
                i + 1 <= k < m.len() && component_in_subtree(m, old, k) && rest[j] == #[trigger] name_fix(m, k, old, new);
            assert(i <= k);
        }
        if component_in_subtree(m, old, i) {
            assert(c == seq![name_fix(m, i, old, new)] + rest);
            assert forall|j: int| 0 <= j < c.len() implies is_subtree_name_fix(m, old, new, i, #[trigger] c[j]) by {
                if j == 0 {
                    assert(c[0] == name_fix(m, i, old, new));
                } else {
                    assert(c[j] == rest[j - 1]);
                }
            }
            assert forall|k: int| i <= k < m.len() && #[trigger] component_in_subtree(m, old, k) implies c.contains(
                name_fix(m, k, old, new),
            ) by {
                if k == i {
                    assert(c[0] == name_fix(m, i, old, new));
                } else {
                    let j = choose|j: int| 0 <= j < rest.len() && rest[j] == name_fix(m, k, old, new);
                    assert(c[j + 1] == rest[j]);
                }
            }
        } else {
            assert(c == rest);
        }
    }
}

/// A successful rename that changes the name first rewrites the `Name` of exactly
/// the components named `old` or a path below it — each to `new` followed by the
/// rest of its old name, and no other component's — and then runs the trigger,
/// `Filename` and view passes on that text.
pub proof fn lemma_rename_names_exactly_the_subtree(xml: Seq<char>, old: Seq<char>, seg: Seq<char>)
    ensures
        renamed_to(old, seg) != old ==> (rename_spec(xml, old, seg) matches Ok(res) ==> (doc_model(xml) matches Some(m)
            && exists|fixes: Seq<(int, int, Seq<char>)>|
            #![trigger apply_checked_spec(xml, fixes)]
            (forall|j: int|
                0 <= j < fixes.len() ==> is_subtree_name_fix(m, old, renamed_to(old, seg), 0, #[trigger] fixes[j]))
                && (forall|k: int|
                0 <= k < m.len() && #[trigger] component_in_subtree(m, old, k) ==> fixes.contains(
                    name_fix(m, k, old, renamed_to(old, seg)),
                )) && (apply_checked_spec(xml, fixes) matches Ok(s1) && rename_rest(
                s1,
                m,
                old,
                renamed_to(old, seg),
                seg,
            ) == Ok::<Seq<char>, ErrV>(res.0)))),
{
    if let Some(m) = doc_model(xml) {
        let new = renamed_to(old, seg);
        lemma_name_fixes(m, old, new, 0);
        let fixes = name_fixes(m, old, new, 0);
        assert(apply_checked_spec(xml, fixes) == apply_checked_spec(xml, fixes));
    }
}

pub open spec fn rename_on(s: Seq<char>, m: Seq<NodeV>, old: Seq<char>, new: Seq<char>, seg: Seq<char>) -> Result<
    (Seq<char>, Seq<(Seq<char>, Seq<char>)>),
    ErrV,
> {
    if find_component(m, old) is None {
        Err(ErrV::NoSuchComponent(old))
    } else if find_component(m, new) is Some {
        Err(ErrV::Duplicate(new))
    } else {
        match rename_text(s, m, old, new, seg) {
            Err(e) => Err(e),
            Ok(t) => Ok((t, script_renames(m, sort_pairs(pairs_from(m, old, new, 0))))),
        }
    }
}

/// `rename_component(xml, old, seg)`: the new name is `seg` under `old`'s parent.
pub open spec fn rename_spec(xml: Seq<char>, old: Seq<char>, seg: Seq<char>) -> Result<
    (Seq<char>, Seq<(Seq<char>, Seq<char>)>),
    ErrV,
> {
    if find_seq(seg, seq!['.']) is Some {
        Err(
            ErrV::Invalid(
                "--new-name must be a single segment with no dots, got `"@ + seg
                    + "`; pass just the new leaf name, e.g. `Motor`"@,
            ),
        )
    } else if seg.len() == 0 {
        Err(ErrV::Invalid("name must not be empty"@))
    } else {
        let new = match parent_of(old) {
            Some(p) => p + "."@ + seg,
            None => seg,
        };
        if new == old {
            Ok((xml, Seq::empty()))
        } else {
            match doc_model(xml) {
                None => Err(parse_err(xml)),
                Some(m) => rename_on(xml, m, old, new, seg),
            }
        }
    }
}

pub open spec fn renames_view(v: Seq<crate::edits::ScriptRename>) -> Seq<(Seq<char>, Seq<char>)> {
    v.map_values(|r: crate::edits::ScriptRename| (r.old@, r.new@))
}

pub open spec fn rename_result(r: Result<(String, Vec<crate::edits::ScriptRename>), EditError>) -> Result<
    (Seq<char>, Seq<(Seq<char>, Seq<char>)>),
    ErrV,
> {
    match r {
        Ok((s, v)) => Ok((s@, renames_view(v@))),
        Err(e) => Err(e@),
    }
}

/// A renamed pair, ordered longest old name first.
pub struct RenamePair {
    pub old: Vec<char>,
    pub new: Vec<char>,
}

impl crate::sort::KeyOrder for RenamePair {
    open spec fn key_le(&self, other: &Self) -> bool {
        pair_le((self.old@, self.new@), (other.old@, other.new@))
    }

    proof fn lemma_total(a: &Self, b: &Self) {
        crate::sort::lemma_lex_total(a.old@, b.old@);
    }

    proof fn lemma_trans(a: &Self, b: &Self, c: &Self) {
        if a.old@.len() == b.old@.len() && b.old@.len() == c.old@.len() {
            crate::sort::lemma_lex_trans(a.old@, b.old@, c.old@);
        }
    }

    fn le_exec(&self, other: &Self) -> (r: bool) {
        self.old.len() > other.old.len() || (self.old.len() == other.old.len()
            && crate::sort::lex_le_exec(&self.old, &other.old))
    }
}

pub open spec fn pairs_view(v: Seq<RenamePair>) -> Seq<(Seq<char>, Seq<char>)> {
    v.map_values(|p: RenamePair| (p.old@, p.new@))
}

proof fn lemma_ins_pair_view(t: Seq<RenamePair>, x: RenamePair)
    ensures
        pairs_view(crate::sort::ins(t, x)) == ins_pair(pairs_view(t), (x.old@, x.new@)),
    decreases t.len(),
{
    if t.len() == 0 {
        assert(pairs_view(seq![x]) =~= seq![(x.old@, x.new@)]);
    } else {
        assert(pairs_view(t).last() == (t.last().old@, t.last().new@));
        assert(pairs_view(t.drop_last()) =~= pairs_view(t).drop_last());
        if t.last().key_le(&x) {
            assert(pairs_view(t.push(x)) =~= pairs_view(t).push((x.old@, x.new@)));
        } else {
            lemma_ins_pair_view(t.drop_last(), x);
            assert(pairs_view(crate::sort::ins(t.drop_last(), x).push(t.last())) =~= pairs_view(
                crate::sort::ins(t.drop_last(), x),
            ).push((t.last().old@, t.last().new@)));
        }
    }
}

proof fn lemma_sort_pairs_view(s: Seq<RenamePair>)
    ensures
        pairs_view(crate::sort::isort(s)) == sort_pairs(pairs_view(s)),
    decreases s.len(),
{
    if s.len() > 0 {
        lemma_sort_pairs_view(s.drop_last());
        lemma_ins_pair_view(crate::sort::isort(s.drop_last()), s.last());
        assert(pairs_view(s.drop_last()) =~= pairs_view(s).drop_last());
    }
}

fn new_of_exec(nm: &Vec<char>, old: &Vec<char>, new: &Vec<char>) -> (r: Vec<char>)
    requires
        old@.len() <= nm@.len(),
    ensures
        r@ == new_of(nm@, old@, new@),
{
    let mut r = subvec(new, 0, new.len());
    push_range(&mut r, nm, old.len(), nm.len());
    assert(r@ =~= new_of(nm@, old@, new@));
    r
}

fn was_renamed_exec(d0: &Doc, nm: &Vec<char>, old: &Vec<char>, new: &Vec<char>, new_prefix: &Vec<char>) -> (r: Option<Vec<char>>)
    requires
        new_prefix@ == new@ + "."@,
    ensures
        r matches Some(c) ==> was_renamed(d0.model(), nm@, old@, new@) && c@ == old@ + nm@.skip(new@.len() as int),
        r is None ==> !was_renamed(d0.model(), nm@, old@, new@),
{
    if !in_subtree_exec(nm, new, new_prefix) {
        return None;
    }
    let mut cand = subvec(old, 0, old.len());
    push_range(&mut cand, nm, new.len(), nm.len());
    assert(cand@ =~= old@ + nm@.skip(new@.len() as int));
    if d0.find_component(&cand).is_some() {
        Some(cand)
    } else {
        None
    }
}

fn name_fixes_exec(d: &Doc, old: &Vec<char>, prefix: &Vec<char>, new: &Vec<char>) -> (r: Vec<Fix>)
    requires
        d.wf(),
        prefix@ == old@ + "."@,
    ensures
        fixes_view(r@) == name_fixes(d.model(), old@, new@, 0),
{
    let ghost m = d.model();
    let mut out: Vec<Fix> = Vec::new();
    let mut i: usize = 0;
    while i < d.nodes.len()
        invariant
            i <= d.nodes.len(),
            m == d.model(),
            prefix@ == old@ + "."@,
            name_fixes(m, old@, new@, 0) == fixes_view(out@) + name_fixes(m, old@, new@, i as int),
        decreases d.nodes.len() - i,
    {
        let n = &d.nodes[i];
        let ghost before = fixes_view(out@);
        if is_real_component_exec(n) {
            match attr_index(n, &chars_of("Name")) {
                Some(a) => {
                    let nm = &n.attrs[a].value;
                    if in_subtree_exec(nm, old, prefix) {
                        proof {
                            reveal_strlit(".");
                        }
                        let nn = new_of_exec(nm, old, new);
                        let f = Fix {
                            start: n.attrs[a].value_range.start,
                            end: n.attrs[a].value_range.end,
                            text: escape_exec(&nn),
                        };
                        out.push(f);
                        assert(fixes_view(out@) =~= before + name_fixes(m, old@, new@, i as int).take(1));
                    }
                },
                None => {},
            }
        }
        i = i + 1;
    }
    assert(fixes_view(out@) + Seq::<(int, int, Seq<char>)>::empty() =~= fixes_view(out@));
    out
}

fn trig_fixes_exec(d0: &Doc, d: &Doc, old: &Vec<char>, prefix: &Vec<char>, new: &Vec<char>, new_prefix: &Vec<char>) -> (r: Vec<Fix>)
    requires
        d.wf(),
        prefix@ == old@ + "."@,
        new_prefix@ == new@ + "."@,
    ensures
        fixes_view(r@) == trig_fixes(d0.model(), d.model(), old@, new@, 0),
{
    let ghost m0 = d0.model();
    let ghost m = d.model();
    let mut out: Vec<Fix> = Vec::new();
    let mut i: usize = 0;
    while i < d.nodes.len()
        invariant
            i <= d.nodes.len(),
            d.wf(),
            m == d.model(),
            m0 == d0.model(),
            prefix@ == old@ + "."@,
            new_prefix@ == new@ + "."@,
            trig_fixes(m0, m, old@, new@, 0) == fixes_view(out@) + trig_fixes(m0, m, old@, new@, i as int),
        decreases d.nodes.len() - i,
    {
        let n = &d.nodes[i];
        let ghost before = fixes_view(out@);
        if is_real_component_exec(n) {
            match attr_value_str(n, "Name") {
                Some(owner) => {
                    assert(node_wf(m, i as int, d.text@.len() as int));
                    match d.first_child(i, "Props") {
                        Some(p) => match attr_index(&d.nodes[p], &chars_of("SelectedTrigger")) {
                            Some(a) => {
                                let trig = &d.nodes[p].attrs[a].value;
                                let owner_old = match was_renamed_exec(d0, owner, old, new, new_prefix) {
                                    Some(c) => c,
                                    None => subvec(owner, 0, owner.len()),
                                };
                                assert(owner_old@ =~= old_of(m0, owner@, old@, new@));
                                let os = string_of(&owner_old);
                                let ts = string_of(trig);
                                match crate::query::resolve_trigger(os.as_str(), ts.as_str()) {
                                    Some(abs) => {
                                        let av = crate::text::chars_of_string(&abs);
                                        if in_subtree_exec(&av, old, prefix) {
                                            proof {
                                                reveal_strlit(".");
                                            }
                                            let na = new_of_exec(&av, old, new);
                                            let ow = string_of(owner);
                                            let nas = string_of(&na);
                                            let bt = crate::query::build_trigger(ow.as_str(), nas.as_str());
                                            let btv = crate::text::chars_of_string(&bt);
                                            let f = Fix {
                                                start: d.nodes[p].attrs[a].value_range.start,
                                                end: d.nodes[p].attrs[a].value_range.end,
                                                text: escape_exec(&btv),
                                            };
                                            out.push(f);
                                            assert(fixes_view(out@) =~= before + trig_fixes(m0, m, old@, new@, i as int).take(1));
                                        }
                                    },
                                    None => {},
                                }
                            },
                            None => {},
                        },
                        None => {},
                    }
                },
                None => {},
            }
        }
        i = i + 1;
    }
    assert(fixes_view(out@) + Seq::<(int, int, Seq<char>)>::empty() =~= fixes_view(out@));
    out
}

fn file_fixes_exec(d0: &Doc, d: &Doc, old: &Vec<char>, new: &Vec<char>, new_prefix: &Vec<char>) -> (r: Vec<Fix>)
    requires
        d.wf(),
        new_prefix@ == new@ + "."@,
    ensures
        fixes_view(r@) == file_fixes(d0.model(), d.model(), old@, new@, 0),
{
    let ghost m0 = d0.model();
    let ghost m = d.model();
    let mut out: Vec<Fix> = Vec::new();
    let mut i: usize = 0;
    while i < d.nodes.len()
        invariant
            i <= d.nodes.len(),
            m == d.model(),
            m0 == d0.model(),
            new_prefix@ == new@ + "."@,
            file_fixes(m0, m, old@, new@, 0) == fixes_view(out@) + file_fixes(m0, m, old@, new@, i as int),
        decreases d.nodes.len() - i,
    {
        let n = &d.nodes[i];
        let ghost before = fixes_view(out@);
        if is_real_component_exec(n) {
            match attr_value_str(n, "Name") {
                Some(nm) => {
                    if was_renamed_exec(d0, nm, old, new, new_prefix).is_some() {
                        match attr_index(n, &chars_of("Filename")) {
                            Some(a) => {
                                let sp = script_relpath_chars(nm);
                                let f = Fix {
                                    start: n.attrs[a].value_range.start,
                                    end: n.attrs[a].value_range.end,
                                    text: escape_exec(&sp),
                                };
                                out.push(f);
                                assert(fixes_view(out@) =~= before + file_fixes(m0, m, old@, new@, i as int).take(1));
                            },
                            None => {},
                        }
                    }
                },
                None => {},
            }
        }
        i = i + 1;
    }
    assert(fixes_view(out@) + Seq::<(int, int, Seq<char>)>::empty() =~= fixes_view(out@));
    out
}

fn pairs_exec(d: &Doc, old: &Vec<char>, prefix: &Vec<char>, new: &Vec<char>) -> (r: Vec<RenamePair>)
    requires
        prefix@ == old@ + "."@,
    ensures
        pairs_view(r@) == pairs_from(d.model(), old@, new@, 0),
{
    let ghost m = d.model();
    let mut out: Vec<RenamePair> = Vec::new();
    let mut i: usize = 0;
    while i < d.nodes.len()
        invariant
            i <= d.nodes.len(),
            m == d.model(),
            prefix@ == old@ + "."@,
            pairs_from(m, old@, new@, 0) == pairs_view(out@) + pairs_from(m, old@, new@, i as int),
        decreases d.nodes.len() - i,
    {
        let n = &d.nodes[i];
        let ghost before = pairs_view(out@);
        if is_real_component_exec(n) {
            match attr_value_str(n, "Name") {
                Some(nm) => {
                    if in_subtree_exec(nm, old, prefix) {
                        proof {
                            reveal_strlit(".");
                        }
                        let nn = new_of_exec(nm, old, new);
                        let o = subvec(nm, 0, nm.len());
                        assert(o@ =~= nm@);
                        out.push(RenamePair { old: o, new: nn });
                        assert(pairs_view(out@) =~= before + pairs_from(m, old@, new@, i as int).take(1));
                    }
                },
                None => {},
            }
        }
        i = i + 1;
    }
    assert(pairs_view(out@) + Seq::<(Seq<char>, Seq<char>)>::empty() =~= pairs_view(out@));
    out
}

fn script_renames_exec(d: &Doc, pairs: &Vec<RenamePair>) -> (r: Vec<crate::edits::ScriptRename>)
    ensures
        renames_view(r@) == script_renames(d.model(), pairs_view(pairs@)),
{
    let ghost m = d.model();
    let ghost pv = pairs_view(pairs@);
    let mut out: Vec<crate::edits::ScriptRename> = Vec::new();
    let mut k: usize = 0;
    assert(pv.skip(0) =~= pv);
    while k < pairs.len()
        invariant
            k <= pairs.len(),
            m == d.model(),
            pv == pairs_view(pairs@),
            script_renames(m, pv) == renames_view(out@) + script_renames(m, pv.skip(k as int)),
        decreases pairs.len() - k,
    {
        let ghost before = renames_view(out@);
        assert(pv.skip(k as int)[0] == pv[k as int]);
        assert(pv.skip(k as int).drop_first() =~= pv.skip(k + 1));
        let p = &pairs[k];
        match d.find_component(&p.old) {
            Some(c) => {
                let is_script = match attr_value_str(&d.nodes[c], "Classname") {
                    Some(cls) => crate::query::contains_str(cls, "FuncUser") || crate::query::contains_str(cls, "MethodUser"),
                    None => false,
                };
                if is_script {
                    let r = crate::edits::ScriptRename {
                        old: string_of(&script_relpath_chars(&p.old)),
                        new: string_of(&script_relpath_chars(&p.new)),
                    };
                    out.push(r);
                    assert(renames_view(out@) =~= before + seq![
                        (script_relpath_spec(pv[k as int].0), script_relpath_spec(pv[k as int].1)),
                    ]);
                }
            },
            None => {},
        }
        k = k + 1;
    }
    assert(pv.skip(k as int) =~= Seq::<(Seq<char>, Seq<char>)>::empty());
    assert(renames_view(out@) + Seq::<(Seq<char>, Seq<char>)>::empty() =~= renames_view(out@));
    out
}

pub open spec fn rename_target(old: Seq<char>, seg: Seq<char>) -> Result<Option<Seq<char>>, ErrV> {
    if find_seq(seg, seq!['.']) is Some {
        Err(
            ErrV::Invalid(
                "--new-name must be a single segment with no dots, got `"@ + seg
                    + "`; pass just the new leaf name, e.g. `Motor`"@,
            ),
        )
    } else if seg.len() == 0 {
        Err(ErrV::Invalid("name must not be empty"@))
    } else if renamed_to(old, seg) == old {
        Ok(None)
    } else {
        Ok(Some(renamed_to(old, seg)))
    }
}

/// `rename_component` on a parsed document.
pub open spec fn rename_doc_spec(s: Seq<char>, m: Seq<NodeV>, old: Seq<char>, seg: Seq<char>) -> Result<
    (Seq<char>, Seq<(Seq<char>, Seq<char>)>),
    ErrV,
> {
    match rename_target(old, seg) {
        Err(e) => Err(e),
        Ok(None) => Ok((s, Seq::empty())),
        Ok(Some(new)) => rename_on(s, m, old, new, seg),
    }
}

/// The new name of a rename: refused for an empty or dotted segment, `None` when
/// it is the old name.
fn rename_target_exec(old: &Vec<char>, seg: &Vec<char>) -> (r: Result<Option<Vec<char>>, EditError>)
    ensures
        r matches Err(e) ==> rename_target(old@, seg@) == Err::<Option<Seq<char>>, ErrV>(e@),
        r matches Ok(None) ==> rename_target(old@, seg@) == Ok::<Option<Seq<char>>, ErrV>(None),
        r matches Ok(Some(n)) ==> rename_target(old@, seg@) == Ok::<Option<Seq<char>>, ErrV>(Some(n@)),
{
    proof {
        lemma_rfind_bounds(seg@, seq!['.'], seg@.len() - 1);
    }
    if find_char(seg, '.').is_some() {
        let mut msg: Vec<char> = Vec::new();
        push_str(&mut msg, "--new-name must be a single segment with no dots, got `");
        push_all(&mut msg, seg);
        push_str(&mut msg, "`; pass just the new leaf name, e.g. `Motor`");
        return Err(EditError::Invalid(string_of(&msg)));
    }
    if seg.len() == 0 {
        let msg = chars_of("name must not be empty");
        return Err(EditError::Invalid(string_of(&msg)));
    }
    let new = match parent_of_exec(old) {
        Some(p) => {
            let mut n = p;
            push_str(&mut n, ".");
            push_all(&mut n, seg);
            n
        },
        None => subvec(seg, 0, seg.len()),
    };
    assert(new@ =~= renamed_to(old@, seg@));
    if seq_eq(&new, old) {
        Ok(None)
    } else {
        Ok(Some(new))
    }
}

/// [`rename_component`] on a parsed document.
pub fn rename_component_doc(d: &Doc, old_name: &str, new_segment: &str) -> (r: Result<
    (String, Vec<crate::edits::ScriptRename>),
    EditError,
>)
    requires
        d.wf(),
    ensures
        rename_result(r) == rename_doc_spec(d.text@, d.model(), old_name@, new_segment@),
{
    let seg = chars_of(new_segment);
    let old = chars_of(old_name);
    let new = match rename_target_exec(&old, &seg) {
        Err(e) => return Err(e),
        Ok(None) => {
            let v: Vec<crate::edits::ScriptRename> = Vec::new();
            assert(renames_view(v@) =~= Seq::<(Seq<char>, Seq<char>)>::empty());
            return Ok((string_of(&d.text), v));
        },
        Ok(Some(n)) => n,
    };
    if d.find_component(&old).is_none() {
        return Err(EditError::NoSuchComponent(string_of(&old)));
    }
    if d.find_component(&new).is_some() {
        return Err(EditError::Duplicate(string_of(&new)));
    }
    let mut prefix = subvec(&old, 0, old.len());
    push_str(&mut prefix, ".");
    assert(prefix@ =~= old@ + "."@);
    let mut new_prefix = subvec(&new, 0, new.len());
    push_str(&mut new_prefix, ".");
    assert(new_prefix@ =~= new@ + "."@);
    let pairs = pairs_exec(d, &old, &prefix, &new);
    let ghost pv = pairs@;
    let sorted = crate::sort::isort_exec(pairs);
    proof {
        lemma_sort_pairs_view(pv);
    }
    let renames = script_renames_exec(d, &sorted);
    let text = rename_passes(d, &old, &prefix, &new, &new_prefix, &seg)?;
    Ok((string_of(&text), renames))
}

/// Rename a component (and its subtree) to `new_segment` under the same parent,
/// rewriting every `SelectedTrigger` that resolves into the subtree, the `Filename`
/// of every renamed script, and the view node's short name. Returns the new text
/// and the backing-script renames (longest old name first) the caller should make
/// on disk. `new_segment` must be a single non-empty segment without dots.
pub fn rename_component(xml: &str, old_name: &str, new_segment: &str) -> (r: Result<
    (String, Vec<crate::edits::ScriptRename>),
    EditError,
>)
    ensures
        rename_result(r) == rename_spec(xml@, old_name@, new_segment@),
{
    let seg = chars_of(new_segment);
    let old = chars_of(old_name);
    match rename_target_exec(&old, &seg) {
        Err(e) => Err(e),
        Ok(None) => {
            let v: Vec<crate::edits::ScriptRename> = Vec::new();
            assert(renames_view(v@) =~= Seq::<(Seq<char>, Seq<char>)>::empty());
            Ok((string_of(&chars_of(xml)), v))
        },
        Ok(Some(_)) => {
            let d = parse_doc(xml)?;
            rename_component_doc(&d, old_name, new_segment)
        },
    }
}

fn rename_passes(d: &Doc, old: &Vec<char>, prefix: &Vec<char>, new: &Vec<char>, new_prefix: &Vec<char>, seg: &Vec<char>) -> (r: Result<Vec<char>, EditError>)
    requires
        d.wf(),
        prefix@ == old@ + "."@,
        new_prefix@ == new@ + "."@,
    ensures
        chars_result(r) == rename_text(d.text@, d.model(), old@, new@, seg@),
{
    let f1 = name_fixes_exec(d, old, prefix, new);
    let s1 = apply_checked(&d.text, &f1)?;
    let d1 = parse_chars(&s1)?;
    let f2 = trig_fixes_exec(d, &d1, old, prefix, new, new_prefix);
    let s2 = apply_checked(&d1.text, &f2)?;
    let d2 = parse_chars(&s2)?;
    let f3 = file_fixes_exec(d, &d2, old, new, new_prefix);
    let s3 = apply_checked(&d2.text, &f3)?;
    let d3 = parse_chars(&s3)?;
    match org_locate(&d3, old) {
        Err(e) => Err(e),
        Ok(None) => Ok(s3),
        Ok(Some(k)) => {
            let ghost m3 = d3.model();
            let a = attr_index(&d3.nodes[k], &chars_of("Name")).unwrap();
            let vs = d3.nodes[k].attrs[a].value_range.start;
            let ve = d3.nodes[k].attrs[a].value_range.end;
            assert(attr_vrange(m3[k as int], "Name"@) == (vs as int, ve as int));
            if vs > ve || ve > d3.text.len() {
                let msg = chars_of("overlapping component elements");
                return Err(EditError::Invalid(string_of(&msg)));
            }
            Ok(splice_exec(&d3.text, vs, ve, &escape_exec(seg)))
        },
    }
}

// ---- edits are validated ------------------------------------------------------------------

/// `name` is not yet a component of `m`, and its parent group is.
pub open spec fn fresh_under_parent(m: Seq<NodeV>, name: Seq<char>) -> bool {
    &&& find_component(m, name) is None
    &&& match parent_of(name) {
        Some(p) => find_component(m, p) is Some,
        None => false,
    }
}

/// The project text parses and `p` holds of its model.
pub open spec fn on_model(xml: Seq<char>, p: spec_fn(Seq<NodeV>) -> bool) -> bool {
    match doc_model(xml) {
        Some(m) => p(m),
        None => false,
    }
}

/// No edit writes a value the project cannot hold: a successful edit had a
/// security group the project accepts, a valid type, a non-blank unit, a new component name whose parent
/// exists, a clock that exists, and — unless forced — a deletion nothing refers to.
pub proof fn lemma_edits_are_validated(
    xml: Seq<char>,
    name: Seq<char>,
    value: Seq<char>,
    ty: Option<Seq<char>>,
    unit: Option<Seq<char>>,
    sec: Option<Seq<char>>,
    recursive: bool,
)
    ensures
        crate::edits::set_security_spec(xml, name, value) is Ok ==> on_model(
            xml,
            |m: Seq<NodeV>| security_ok(m, value),
        ),
        crate::edits::set_type_spec(xml, name, value) is Ok ==> type_ok(value),
        crate::edits::set_unit_spec(xml, name, value) is Ok ==> !all_ws(value),
        create_value_spec(xml, name, "BuiltIn.Channel"@, ty, unit, sec) is Ok ==> {
            &&& (ty matches Some(t) ==> type_ok(t))
            &&& (unit matches Some(u) ==> !all_ws(u))
            &&& on_model(
                xml,
                |m: Seq<NodeV>|
                    (sec matches Some(l) ==> security_ok(m, l)) && fresh_under_parent(m, name),
            )
        },
        create_group_spec(xml, name) is Ok ==> name_segment_error(name) is None && on_model(
            xml,
            |m: Seq<NodeV>| fresh_under_parent(m, name),
        ),
        crate::edits::set_call_rate_spec(xml, name, value) is Ok ==> on_model(
            xml,
            |m: Seq<NodeV>|
                match crate::edits::rate_leaf(value) {
                    Ok(leaf) => find_component(m, "Root.Events."@ + leaf) is Some,
                    Err(_) => false,
                },
        ),
        delete_spec(xml, name, recursive, false) is Ok ==> on_model(
            xml,
            |m: Seq<NodeV>| find_component(m, name) is Some && refs_from(m, name, 0).len() == 0,
        ),
{
}

// ---- when rename and delete refuse ---------------------------------------------------------

/// The full new name `rename_component(xml, old, seg)` gives: `seg` under `old`'s
/// parent group.
pub open spec fn renamed_to(old: Seq<char>, seg: Seq<char>) -> Seq<char> {
    match parent_of(old) {
        Some(p) => p + "."@ + seg,
        None => seg,
    }
}

/// When a rename is refused, and with which error: a new segment with a dot or
/// none at all is invalid; an unchanged name gives the text back with no script
/// to rename; otherwise an unparsable text is the parser's error, a missing
/// component is `NoSuchComponent` and a taken new name is `Duplicate`.
pub proof fn lemma_rename_refusals(xml: Seq<char>, old: Seq<char>, seg: Seq<char>)
    ensures
        find_seq(seg, seq!['.']) is Some ==> rename_spec(xml, old, seg) matches Err(ErrV::Invalid(_)),
        seg.len() == 0 ==> rename_spec(xml, old, seg) matches Err(ErrV::Invalid(_)),
        find_seq(seg, seq!['.']) is None && seg.len() > 0 && renamed_to(old, seg) == old ==> rename_spec(
            xml,
            old,
            seg,
        ) == Ok::<(Seq<char>, Seq<(Seq<char>, Seq<char>)>), ErrV>((xml, Seq::empty())),
        find_seq(seg, seq!['.']) is None && seg.len() > 0 && renamed_to(old, seg) != old ==> match doc_model(xml) {
            None => rename_spec(xml, old, seg) == Err::<(Seq<char>, Seq<(Seq<char>, Seq<char>)>), ErrV>(
                parse_err(xml),
            ),
            Some(m) => (find_component(m, old) is None ==> rename_spec(xml, old, seg) == Err::<
                (Seq<char>, Seq<(Seq<char>, Seq<char>)>),
                ErrV,
            >(ErrV::NoSuchComponent(old))) && (find_component(m, old) is Some && find_component(
                m,
                renamed_to(old, seg),
            ) is Some ==> rename_spec(xml, old, seg) == Err::<(Seq<char>, Seq<(Seq<char>, Seq<char>)>), ErrV>(
                ErrV::Duplicate(renamed_to(old, seg)),
            )),
        },
{
}

/// When a delete is refused, and with which error: an unparsable text is the
/// parser's error, a missing component is `NoSuchComponent`, a component with a
/// direct child is refused (naming `--recursive`) unless `recursive`, and one that
/// a `SelectedTrigger` resolves into is refused unless `force`.
pub proof fn lemma_delete_refusals(xml: Seq<char>, name: Seq<char>, recursive: bool, force: bool)
    ensures
        match doc_model(xml) {
            None => delete_spec(xml, name, recursive, force) == Err::<Seq<char>, ErrV>(parse_err(xml)),
            Some(m) => {
                &&& find_component(m, name) is None ==> delete_spec(xml, name, recursive, force) == Err::<
                    Seq<char>,
                    ErrV,
                >(ErrV::NoSuchComponent(name))
                &&& find_component(m, name) is Some && child_exists_from(m, name + "."@, 0) && !recursive
                    ==> delete_spec(xml, name, recursive, force) == Err::<Seq<char>, ErrV>(
                    ErrV::Invalid(
                        "`"@ + name
                            + "` has child components \u{2014} pass --recursive to delete the whole subtree"@,
                    ),
                )
                &&& find_component(m, name) is Some && (recursive || !child_exists_from(m, name + "."@, 0))
                    && refs_from(m, name, 0).len() > 0 && !force ==> delete_spec(xml, name, recursive, force)
                    matches Err(ErrV::Invalid(_))
            },
        },
{
}

} // verus!
