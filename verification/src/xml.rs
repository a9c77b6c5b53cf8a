//! The document model the edits are computed on, and the primitives that locate
//! elements in it.
//!
//! The XML parser (`roxmltree`) turns the project text into a flat list of nodes
//! in document order. [`parse_doc`] translates every byte offset the parser
//! reports into a character position of the text and checks the shape of the
//! tree, so that every later lookup and splice works on characters.
use vstd::prelude::*;
use vstd::utf8::*;
use std::ops::Range;
use crate::{EditError, ErrV};
use crate::text::{chars_of, string_of, subvec, push_str, seq_eq, eq_str, rfind_char, rfind_seq, rfind_below, find_from, match_at};
use crate::utf8pos::{PosTable, is_char_pos, char_pos, lemma_byte_pos_full};

verus! {

/// An attribute as the parser reports it: local name, decoded value, the range of
/// the whole `name="value"` and the range between the quotes.
pub struct XmlAttr {
    pub name: Vec<char>,
    pub value: Vec<char>,
    pub range: Range<usize>,
    pub value_range: Range<usize>,
}

/// A node as the parser reports it. `parent` and `last` are node indices (the
/// last node of this node's subtree); `range` spans the whole node; `text` is the
/// parser's `Node::text()` (an element's first text child, or a text node's own
/// text).
pub struct XmlNode {
    pub element: bool,
    pub tag: Vec<char>,
    pub parent: Option<usize>,
    pub last: Option<usize>,
    pub range: Range<usize>,
    pub text: Option<Vec<char>>,
    pub attrs: Vec<XmlAttr>,
}

pub struct AttrV {
    pub name: Seq<char>,
    pub value: Seq<char>,
    pub start: int,
    pub end: int,
    pub vstart: int,
    pub vend: int,
}

pub struct NodeV {
    pub element: bool,
    pub tag: Seq<char>,
    pub parent: Option<usize>,
    pub last: Option<usize>,
    pub start: int,
    pub end: int,
    pub text: Option<Seq<char>>,
    pub attrs: Seq<AttrV>,
}

impl View for XmlAttr {
    type V = AttrV;

    open spec fn view(&self) -> AttrV {
        AttrV {
            name: self.name@,
            value: self.value@,
            start: self.range.start as int,
            end: self.range.end as int,
            vstart: self.value_range.start as int,
            vend: self.value_range.end as int,
        }
    }
}

pub open spec fn opt_chars(t: Option<Vec<char>>) -> Option<Seq<char>> {
    match t {
        Some(v) => Some(v@),
        None => None,
    }
}

impl View for XmlNode {
    type V = NodeV;

    open spec fn view(&self) -> NodeV {
        NodeV {
            element: self.element,
            tag: self.tag@,
            parent: self.parent,
            last: self.last,
            start: self.range.start as int,
            end: self.range.end as int,
            text: opt_chars(self.text),
            attrs: self.attrs@.map_values(|a: XmlAttr| a@),
        }
    }
}

/// What `roxmltree::Document::parse` makes of a text: its nodes in document
/// order (offsets in bytes), or the parser's error message.
pub uninterp spec fn roxml_document(xml: Seq<char>) -> Result<Seq<NodeV>, Seq<char>>;

pub open spec fn raw_view(r: Result<Vec<XmlNode>, String>) -> Result<Seq<NodeV>, Seq<char>> {
    match r {
        Ok(v) => Ok(v@.map_values(|n: XmlNode| n@)),
        Err(e) => Err(e@),
    }
}

/// An attribute from the parser's local name, value and the two ranges.
fn attr_of(name: &str, value: &str, range: Range<usize>, value_range: Range<usize>) -> (a: XmlAttr)
    ensures
        a@ == (AttrV {
            name: name@,
            value: value@,
            start: range.start as int,
            end: range.end as int,
            vstart: value_range.start as int,
            vend: value_range.end as int,
        }),
{
    XmlAttr { name: chars_of(name), value: chars_of(value), range, value_range }
}

/// A node from what the parser reports of it.
fn node_of(
    element: bool,
    tag: &str,
    parent: Option<usize>,
    last: Option<usize>,
    range: Range<usize>,
    text: Option<&str>,
    attrs: Vec<XmlAttr>,
) -> (n: XmlNode)
    ensures
        n@ == (NodeV {
            element,
            tag: tag@,
            parent,
            last,
            start: range.start as int,
            end: range.end as int,
            text: match text {
                Some(t) => Some(t@),
                None => None,
            },
            attrs: attrs@.map_values(|a: XmlAttr| a@),
        }),
{
    let text = match text {
        Some(t) => Some(chars_of(t)),
        None => None,
    };
    XmlNode { element, tag: chars_of(tag), parent, last, range, text, attrs }
}

/// Parse `xml` with `roxmltree` and copy every node of `Document::descendants()`
/// (document order, the root first) into plain values: element flag, local tag
/// name, parent and last-descendant ids, byte range, `text()`, and each
/// attribute's local name, value, byte range and value range. On a parse error
/// the parser's message. The contract only names the result: what the parser makes of a text
/// takes an XML grammar to state, and depends on the text alone.
#[verifier::external_body]
fn roxml_parse(xml: &str) -> (res: Result<Vec<XmlNode>, String>)
    ensures
        raw_view(res) == roxml_document(xml@),
{
    let doc = roxmltree::Document::parse(xml).map_err(|e| e.to_string())?;
    Ok(doc.descendants().map(|n| node_of(
        n.is_element(),
        n.tag_name().name(),
        n.parent().map(|p| p.id().get_usize()),
        n.descendants().last().map(|d| d.id().get_usize()),
        n.range(),
        n.text(),
        n.attributes().map(|a| attr_of(a.name(), a.value(), a.range(), a.range_value())).collect(),
    )).collect())
}

// ---- from byte offsets to character positions --------------------------------

pub open spec fn attr_convertible(a: AttrV, s: Seq<char>) -> bool {
    &&& is_char_pos(s, a.start)
    &&& is_char_pos(s, a.end)
    &&& is_char_pos(s, a.vstart)
    &&& is_char_pos(s, a.vend)
}

pub open spec fn node_convertible(n: NodeV, s: Seq<char>) -> bool {
    &&& is_char_pos(s, n.start)
    &&& is_char_pos(s, n.end)
    &&& forall|j: int| 0 <= j < n.attrs.len() ==> attr_convertible(#[trigger] n.attrs[j], s)
}

pub open spec fn conv_attr(a: AttrV, s: Seq<char>) -> AttrV {
    AttrV {
        name: a.name,
        value: a.value,
        start: char_pos(s, a.start),
        end: char_pos(s, a.end),
        vstart: char_pos(s, a.vstart),
        vend: char_pos(s, a.vend),
    }
}

pub open spec fn conv_node(n: NodeV, s: Seq<char>) -> NodeV {
    NodeV {
        element: n.element,
        tag: n.tag,
        parent: n.parent,
        last: n.last,
        start: char_pos(s, n.start),
        end: char_pos(s, n.end),
        text: n.text,
        attrs: n.attrs.map_values(|a: AttrV| conv_attr(a, s)),
    }
}

pub open spec fn convertible(raw: Seq<NodeV>, s: Seq<char>) -> bool {
    forall|i: int| 0 <= i < raw.len() ==> node_convertible(#[trigger] raw[i], s)
}

pub open spec fn converted(raw: Seq<NodeV>, s: Seq<char>) -> Seq<NodeV> {
    raw.map_values(|n: NodeV| conv_node(n, s))
}

// ---- shape of the tree ---------------------------------------------------------

pub open spec fn last_of(ns: Seq<NodeV>, i: int) -> int {
    ns[i].last.unwrap() as int
}

pub open spec fn attr_wf(a: AttrV, len: int) -> bool {
    0 <= a.start <= a.end <= len && 0 <= a.vstart <= a.vend <= len
}

pub open spec fn node_wf(ns: Seq<NodeV>, i: int, len: int) -> bool {
    &&& ns[i].last is Some
    &&& i <= last_of(ns, i) < ns.len()
    &&& 0 <= ns[i].start <= ns[i].end <= len
    &&& (i > 0 ==> ns[i].parent is Some && ns[i].parent.unwrap() < i && ns[ns[i].parent.unwrap() as int].last is Some
        && i <= last_of(ns, ns[i].parent.unwrap() as int))
    &&& forall|j: int| 0 <= j < ns[i].attrs.len() ==> attr_wf(#[trigger] ns[i].attrs[j], len)
}

/// The tree shape every lookup relies on: a root with no parent, every other node
/// after its parent and inside the parent's subtree, and all ranges inside the text.
pub open spec fn doc_wf(ns: Seq<NodeV>, len: int) -> bool {
    &&& ns.len() >= 1
    &&& ns[0].parent is None
    &&& forall|i: int| 0 <= i < ns.len() ==> #[trigger] node_wf(ns, i, len)
}

/// Node `i`'s range holds the range of every node of its subtree and of each of
/// its attributes.
pub open spec fn node_nested(ns: Seq<NodeV>, i: int) -> bool {
    &&& forall|k: int|
        i < k <= last_of(ns, i) ==> ns[i].start <= #[trigger] ns[k].start && ns[k].end <= ns[i].end
    &&& forall|j: int|
        0 <= j < ns[i].attrs.len() ==> ns[i].start <= (#[trigger] ns[i].attrs[j]).start
            && ns[i].attrs[j].end <= ns[i].end && ns[i].start <= ns[i].attrs[j].vstart
            && ns[i].attrs[j].vend <= ns[i].end
}

/// Every element's text holds its descendants and attributes, as in any XML text.
pub open spec fn doc_nested(ns: Seq<NodeV>) -> bool {
    forall|i: int| 0 <= i < ns.len() ==> #[trigger] node_nested(ns, i)
}

/// An element spans at least `<`, its name and `>`, and ends with `>`.
pub open spec fn node_tags(n: NodeV, s: Seq<char>) -> bool {
    n.element ==> n.start + n.tag.len() + 2 <= n.end && s[n.end - 1] == '>'
}

/// Every element of the model spans its tag (see [`node_tags`]).
pub open spec fn doc_tags(ns: Seq<NodeV>, s: Seq<char>) -> bool {
    forall|i: int| 0 <= i < ns.len() ==> #[trigger] node_tags(ns[i], s)
}

/// The document model of `xml`: the parser's nodes with character positions, when
/// the parser accepts the text (and its offsets and tree have the expected shape).
pub open spec fn doc_model(xml: Seq<char>) -> Option<Seq<NodeV>> {
    match roxml_document(xml) {
        Ok(raw) => if convertible(raw, xml) && doc_wf(converted(raw, xml), xml.len() as int)
            && doc_nested(converted(raw, xml)) && doc_tags(converted(raw, xml), xml) {
            Some(converted(raw, xml))
        } else {
            None
        },
        Err(_) => None,
    }
}

/// The error [`parse_doc`] reports when [`doc_model`] is `None`.
pub open spec fn parse_err(xml: Seq<char>) -> ErrV {
    match roxml_document(xml) {
        Err(m) => ErrV::Xml(m),
        Ok(raw) => if !convertible(raw, xml) {
            ErrV::Xml("parser reported an offset inside a character"@)
        } else {
            ErrV::Xml("parser reported a malformed document tree"@)
        },
    }
}

/// Every parse failure is an XML error.
pub proof fn lemma_parse_err_is_xml(xml: Seq<char>)
    ensures
        parse_err(xml) is Xml,
{
}

/// A parsed document: the text as characters and its node model.
pub struct Doc {
    pub text: Vec<char>,
    pub nodes: Vec<XmlNode>,
}

impl Doc {
    pub open spec fn model(&self) -> Seq<NodeV> {
        self.nodes@.map_values(|n: XmlNode| n@)
    }

    pub open spec fn wf(&self) -> bool {
        doc_wf(self.model(), self.text@.len() as int) && doc_tags(self.model(), self.text@)
    }
}

fn copy_chars(v: &Vec<char>) -> (r: Vec<char>)
    ensures
        r@ == v@,
{
    let r = subvec(v, 0, v.len());
    assert(r@ =~= v@);
    r
}

fn convert_attr(a: &XmlAttr, t: &PosTable, Ghost(s): Ghost<Seq<char>>) -> (r: Option<XmlAttr>)
    requires
        t.wf(s),
    ensures
        r matches Some(b) ==> attr_convertible(a@, s) && b@ == conv_attr(a@, s),
        r is None ==> !attr_convertible(a@, s),
{
    let s0 = t.lookup(a.range.start, Ghost(s));
    let s1 = t.lookup(a.range.end, Ghost(s));
    let s2 = t.lookup(a.value_range.start, Ghost(s));
    let s3 = t.lookup(a.value_range.end, Ghost(s));
    match (s0, s1, s2, s3) {
        (Some(x0), Some(x1), Some(x2), Some(x3)) => Some(
            XmlAttr {
                name: copy_chars(&a.name),
                value: copy_chars(&a.value),
                range: x0..x1,
                value_range: x2..x3,
            },
        ),
        _ => None,
    }
}

fn copy_text(t: &Option<Vec<char>>) -> (r: Option<Vec<char>>)
    ensures
        opt_chars(r) == opt_chars(*t),
{
    match t {
        Some(v) => Some(copy_chars(v)),
        None => None,
    }
}

fn convert_node(n: &XmlNode, t: &PosTable, Ghost(s): Ghost<Seq<char>>) -> (r: Option<XmlNode>)
    requires
        t.wf(s),
    ensures
        r matches Some(m) ==> node_convertible(n@, s) && m@ == conv_node(n@, s),
        r is None ==> !node_convertible(n@, s),
{
    let a = match t.lookup(n.range.start, Ghost(s)) {
        Some(x) => x,
        None => return None,
    };
    let b = match t.lookup(n.range.end, Ghost(s)) {
        Some(x) => x,
        None => return None,
    };
    let mut attrs: Vec<XmlAttr> = Vec::new();
    let mut j: usize = 0;
    while j < n.attrs.len()
        invariant
            t.wf(s),
            j <= n.attrs.len(),
            attrs@.len() == j,
            forall|k: int| 0 <= k < j ==> attr_convertible(#[trigger] n@.attrs[k], s),
            forall|k: int| 0 <= k < j ==> #[trigger] attrs@[k]@ == conv_attr(n@.attrs[k], s),
        decreases n.attrs.len() - j,
    {
        match convert_attr(&n.attrs[j], t, Ghost(s)) {
            Some(c) => attrs.push(c),
            None => {
                assert(!attr_convertible(n@.attrs[j as int], s));
                return None;
            },
        }
        j = j + 1;
    }
    let m = XmlNode {
        element: n.element,
        tag: copy_chars(&n.tag),
        parent: n.parent,
        last: n.last,
        range: a..b,
        text: copy_text(&n.text),
        attrs,
    };
    assert(m@.attrs =~= n@.attrs.map_values(|x: AttrV| conv_attr(x, s)));
    Some(m)
}

fn attr_wf_exec(a: &XmlAttr, len: usize) -> (b: bool)
    ensures
        b == attr_wf(a@, len as int),
{
    a.range.start <= a.range.end && a.range.end <= len && a.value_range.start <= a.value_range.end
        && a.value_range.end <= len
}

fn node_tags_exec(n: &XmlNode, text: &Vec<char>) -> (b: bool)
    requires
        n.range.start <= n.range.end <= text.len(),
    ensures
        b == node_tags(n@, text@),
{
    if !n.element {
        return true;
    }
    let span = n.range.end - n.range.start;
    n.tag.len() <= span && span - n.tag.len() >= 2 && text[n.range.end - 1] == '>'
}

fn node_wf_exec(ns: &Vec<XmlNode>, i: usize, len: usize) -> (b: bool)
    requires
        i < ns.len(),
    ensures
        b == node_wf(ns@.map_values(|n: XmlNode| n@), i as int, len as int),
{
    let ghost m = ns@.map_values(|n: XmlNode| n@);
    let n = &ns[i];
    let l = match n.last {
        Some(l) => l,
        None => return false,
    };
    if !(i <= l && l < ns.len() && n.range.start <= n.range.end && n.range.end <= len) {
        return false;
    }
    if i > 0 {
        match n.parent {
            Some(p) => {
                if p >= i {
                    return false;
                }
                match ns[p].last {
                    Some(pl) => {
                        if i > pl {
                            return false;
                        }
                    },
                    None => return false,
                }
            },
            None => return false,
        }
    }
    let mut j: usize = 0;
    while j < n.attrs.len()
        invariant
            j <= n.attrs.len(),
            n == &ns[i as int],
            m == ns@.map_values(|n: XmlNode| n@),
            i < ns.len(),
            forall|k: int| 0 <= k < j ==> attr_wf(#[trigger] m[i as int].attrs[k], len as int),
        decreases n.attrs.len() - j,
    {
        if !attr_wf_exec(&n.attrs[j], len) {
            assert(m[i as int].attrs[j as int] == n.attrs@[j as int]@);
            return false;
        }
        j = j + 1;
    }
    true
}

fn node_nested_exec(ns: &Vec<XmlNode>, i: usize, Ghost(len): Ghost<int>) -> (b: bool)
    requires
        i < ns.len(),
        doc_wf(ns@.map_values(|n: XmlNode| n@), len),
    ensures
        b == node_nested(ns@.map_values(|n: XmlNode| n@), i as int),
{
    let ghost m = ns@.map_values(|n: XmlNode| n@);
    assert(node_wf(m, i as int, len));
    let n = &ns[i];
    let last = match n.last {
        Some(l) => l,
        None => return false,
    };
    let mut k: usize = i + 1;
    while k <= last
        invariant
            i < k <= last + 1,
            last < ns.len(),
            n == &ns[i as int],
            m == ns@.map_values(|n: XmlNode| n@),
            last == last_of(m, i as int),
            forall|q: int| i < q < k ==> m[i as int].start <= #[trigger] m[q].start && m[q].end <= m[i as int].end,
        decreases last + 1 - k,
    {
        if !(n.range.start <= ns[k].range.start && ns[k].range.end <= n.range.end) {
            assert(m[k as int] == ns@[k as int]@);
            assert(m[i as int] == ns@[i as int]@);
            assert(!(m[i as int].start <= m[k as int].start && m[k as int].end <= m[i as int].end));
            assert(i < k <= last_of(m, i as int));
            proof {
                if node_nested(m, i as int) {
                    let kk = k as int;
                    assert(m[i as int].start <= m[kk].start && m[kk].end <= m[i as int].end);
                }
            }
            return false;
        }
        k = k + 1;
    }
    let mut j: usize = 0;
    while j < n.attrs.len()
        invariant
            j <= n.attrs.len(),
            n == &ns[i as int],
            m == ns@.map_values(|n: XmlNode| n@),
            i < ns.len(),
            forall|q: int| i < q <= last_of(m, i as int) ==> m[i as int].start <= #[trigger] m[q].start && m[q].end <= m[i as int].end,
            forall|q: int|
                0 <= q < j ==> m[i as int].start <= (#[trigger] m[i as int].attrs[q]).start
                    && m[i as int].attrs[q].end <= m[i as int].end && m[i as int].start
                    <= m[i as int].attrs[q].vstart && m[i as int].attrs[q].vend <= m[i as int].end,
        decreases n.attrs.len() - j,
    {
        let a = &n.attrs[j];
        assert(m[i as int].attrs[j as int] == a@);
        if !(n.range.start <= a.range.start && a.range.end <= n.range.end && n.range.start
            <= a.value_range.start && a.value_range.end <= n.range.end) {
            return false;
        }
        j = j + 1;
    }
    true
}

/// Parse `xml` into the document model. Fails with [`EditError::Xml`] carrying the
/// parser's message when the text is not well-formed XML.
pub fn parse_doc(xml: &str) -> (res: Result<Doc, EditError>)
    ensures
        res matches Ok(d) ==> doc_model(xml@) == Some(d.model()) && d.text@ == xml@ && d.wf(),
        res is Err ==> doc_model(xml@) is None,
        res matches Err(e) ==> e@ == parse_err(xml@),
{
    let raw = roxml_parse(xml);
    let raw = match raw {
        Err(m) => return Err(EditError::Xml(m)),
        Ok(v) => v,
    };
    let ghost rv = raw@.map_values(|n: XmlNode| n@);
    assert(roxml_document(xml@) == Ok::<Seq<NodeV>, Seq<char>>(rv));
    let text = chars_of(xml);
    let nbytes = xml.as_bytes().len();
    proof {
        lemma_byte_pos_full(xml@);
    }
    let table = PosTable::new(&text, nbytes);
    let mut nodes: Vec<XmlNode> = Vec::new();
    let mut i: usize = 0;
    while i < raw.len()
        invariant
            table.wf(xml@),
            text@ == xml@,
            rv == raw@.map_values(|n: XmlNode| n@),
            roxml_document(xml@) == Ok::<Seq<NodeV>, Seq<char>>(rv),
            i <= raw.len(),
            nodes@.len() == i,
            forall|k: int| 0 <= k < i ==> node_convertible(#[trigger] rv[k], xml@),
            forall|k: int| 0 <= k < i ==> #[trigger] nodes@[k]@ == conv_node(rv[k], xml@),
        decreases raw.len() - i,
    {
        match convert_node(&raw[i], &table, Ghost(xml@)) {
            Some(m) => nodes.push(m),
            None => {
                proof {
                    assert(!node_convertible(rv[i as int], xml@));
                    assert(!convertible(rv, xml@));
                }
                let mut msg: Vec<char> = Vec::new();
                push_str(&mut msg, "parser reported an offset inside a character");
                return Err(EditError::Xml(string_of(&msg)));
            },
        }
        i = i + 1;
    }
    let ghost model = nodes@.map_values(|n: XmlNode| n@);
    assert(model =~= converted(rv, xml@));
    let len = text.len();
    let mut ok = nodes.len() >= 1;
    if ok {
        ok = nodes[0].parent.is_none();
        assert(model[0].parent == nodes@[0].parent);
    }
    let mut k: usize = 0;
    while ok && k < nodes.len()
        invariant
            k <= nodes.len(),
            model == nodes@.map_values(|n: XmlNode| n@),
            len == xml@.len(),
            ok ==> forall|j: int| 0 <= j < k ==> #[trigger] node_wf(model, j, len as int),
            ok ==> model.len() >= 1 && model[0].parent is None,
            !ok ==> !doc_wf(model, len as int),
            roxml_document(xml@) == Ok::<Seq<NodeV>, Seq<char>>(rv),
            convertible(rv, xml@),
            model =~= converted(rv, xml@),
        decreases nodes.len() - k,
    {
        ok = node_wf_exec(&nodes, k, len);
        proof {
            if !ok {
                assert(!node_wf(model, k as int, len as int));
            }
        }
        k = k + 1;
    }
    if ok {
        let mut k: usize = 0;
        while ok && k < nodes.len()
            invariant
                k <= nodes.len(),
                model == nodes@.map_values(|n: XmlNode| n@),
                doc_wf(model, len as int),
                ok ==> forall|j: int| 0 <= j < k ==> #[trigger] node_nested(model, j),
                !ok ==> !doc_nested(model),
            decreases nodes.len() - k,
        {
            ok = node_nested_exec(&nodes, k, Ghost(len as int));
            proof {
                if !ok {
                    assert(!node_nested(model, k as int));
                }
            }
            k = k + 1;
        }
    }
    if ok {
        let mut k: usize = 0;
        while ok && k < nodes.len()
            invariant
                k <= nodes.len(),
                model == nodes@.map_values(|n: XmlNode| n@),
                text@ == xml@,
                doc_wf(model, len as int),
                len == text@.len(),
                ok ==> forall|j: int| 0 <= j < k ==> #[trigger] node_tags(model[j], xml@),
                !ok ==> !doc_tags(model, xml@),
            decreases nodes.len() - k,
        {
            proof {
                assert(node_wf(model, k as int, len as int));
            }
            ok = node_tags_exec(&nodes[k], &text);
            proof {
                if !ok {
                    assert(!node_tags(model[k as int], xml@));
                }
            }
            k = k + 1;
        }
    }
    if !ok {
        proof {
            assert(!doc_wf(model, len as int) || !doc_nested(model) || !doc_tags(model, xml@));
        }
        let mut msg: Vec<char> = Vec::new();
        push_str(&mut msg, "parser reported a malformed document tree");
        return Err(EditError::Xml(string_of(&msg)));
    }
    let d = Doc { text, nodes };
    assert(d.model() == model);
    Ok(d)
}

// ---- attribute and element lookups ---------------------------------------------

/// The first attribute at or after `i` named `name`.
pub open spec fn attr_from(attrs: Seq<AttrV>, name: Seq<char>, i: int) -> Option<int>
    decreases attrs.len() - i,
{
    if i < 0 || i >= attrs.len() {
        None
    } else if attrs[i].name == name {
        Some(i)
    } else {
        attr_from(attrs, name, i + 1)
    }
}

/// `node.attribute_node(name)`: the first attribute with that local name.
pub open spec fn attr_idx(n: NodeV, name: Seq<char>) -> Option<int> {
    attr_from(n.attrs, name, 0)
}

/// `node.attribute(name)`.
pub open spec fn attr_val(n: NodeV, name: Seq<char>) -> Option<Seq<char>> {
    match attr_idx(n, name) {
        Some(i) => Some(n.attrs[i].value),
        None => None,
    }
}

/// `node.has_attribute(name)`.
pub open spec fn has_attr(n: NodeV, name: Seq<char>) -> bool {
    attr_idx(n, name) is Some
}

/// `node.has_tag_name(tag)`.
pub open spec fn is_elem(n: NodeV, tag: Seq<char>) -> bool {
    n.element && n.tag == tag
}

/// A real component: a `<Component>` carrying a `Classname` (the `<Organisation>`
/// view nodes carry none).
pub open spec fn is_real_component(n: NodeV) -> bool {
    is_elem(n, "Component"@) && has_attr(n, "Classname"@)
}

pub open spec fn component_named(n: NodeV, name: Seq<char>) -> bool {
    is_real_component(n) && attr_val(n, "Name"@) == Some(name)
}

/// The first real component at or after `i` whose `Name` is `name`.
pub open spec fn component_from(ns: Seq<NodeV>, name: Seq<char>, i: int) -> Option<int>
    decreases ns.len() - i,
{
    if i < 0 || i >= ns.len() {
        None
    } else if component_named(ns[i], name) {
        Some(i)
    } else {
        component_from(ns, name, i + 1)
    }
}

/// The component a name refers to: the first real component with that `Name`.
pub open spec fn find_component(ns: Seq<NodeV>, name: Seq<char>) -> Option<int> {
    component_from(ns, name, 0)
}

/// The first child of `p` at or after `i` (below `hi`) that is a `<tag>` element.
pub open spec fn child_from(ns: Seq<NodeV>, p: int, tag: Seq<char>, i: int, hi: int) -> Option<int>
    decreases hi - i,
{
    if i < 0 || i >= hi || i >= ns.len() {
        None
    } else if ns[i].parent == Some(p as usize) && is_elem(ns[i], tag) {
        Some(i)
    } else {
        child_from(ns, p, tag, i + 1, hi)
    }
}

/// `node.children().find(|c| c.has_tag_name(tag))`: children of `p` lie inside
/// its subtree `p+1 ..= last(p)`.
pub open spec fn first_child(ns: Seq<NodeV>, p: int, tag: Seq<char>) -> Option<int> {
    child_from(ns, p, tag, p + 1, last_of(ns, p) + 1)
}

pub fn attr_index(n: &XmlNode, name: &Vec<char>) -> (r: Option<usize>)
    ensures
        r matches Some(i) ==> attr_idx(n@, name@) == Some(i as int) && i < n.attrs.len(),
        r is None ==> attr_idx(n@, name@) is None,
{
    let ghost av = n@.attrs;
    let mut i: usize = 0;
    while i < n.attrs.len()
        invariant
            i <= n.attrs.len(),
            av == n@.attrs,
            attr_idx(n@, name@) == attr_from(av, name@, i as int),
        decreases n.attrs.len() - i,
    {
        if seq_eq(&n.attrs[i].name, name) {
            return Some(i);
        }
        i = i + 1;
    }
    None
}

pub fn attr_value<'a>(n: &'a XmlNode, name: &Vec<char>) -> (r: Option<&'a Vec<char>>)
    ensures
        r matches Some(v) ==> attr_val(n@, name@) == Some(v@),
        r is None ==> attr_val(n@, name@) is None,
{
    match attr_index(n, name) {
        Some(i) => Some(&n.attrs[i].value),
        None => None,
    }
}

pub fn attr_value_str<'a>(n: &'a XmlNode, name: &str) -> (r: Option<&'a Vec<char>>)
    ensures
        r matches Some(v) ==> attr_val(n@, name@) == Some(v@),
        r is None ==> attr_val(n@, name@) is None,
{
    let nm = chars_of(name);
    attr_value(n, &nm)
}

pub fn has_attr_str(n: &XmlNode, name: &str) -> (b: bool)
    ensures
        b == has_attr(n@, name@),
{
    let nm = chars_of(name);
    attr_index(n, &nm).is_some()
}

pub fn is_elem_str(n: &XmlNode, tag: &str) -> (b: bool)
    ensures
        b == is_elem(n@, tag@),
{
    n.element && eq_str(&n.tag, tag)
}

pub fn is_real_component_exec(n: &XmlNode) -> (b: bool)
    ensures
        b == is_real_component(n@),
{
    is_elem_str(n, "Component") && has_attr_str(n, "Classname")
}

pub fn component_named_exec(n: &XmlNode, name: &Vec<char>) -> (b: bool)
    ensures
        b == component_named(n@, name@),
{
    if !is_real_component_exec(n) {
        return false;
    }
    match attr_value_str(n, "Name") {
        Some(v) => seq_eq(v, name),
        None => false,
    }
}

impl Doc {
    /// The component named `name`, if the project has one.
    pub fn find_component(&self, name: &Vec<char>) -> (r: Option<usize>)
        ensures
            r matches Some(i) ==> find_component(self.model(), name@) == Some(i as int) && i
                < self.nodes.len() && component_named(self.model()[i as int], name@),
            r is None ==> find_component(self.model(), name@) is None,
    {
        let mut i: usize = 0;
        while i < self.nodes.len()
            invariant
                i <= self.nodes.len(),
                find_component(self.model(), name@) == component_from(self.model(), name@, i as int),
            decreases self.nodes.len() - i,
        {
            if component_named_exec(&self.nodes[i], name) {
                return Some(i);
            }
            i = i + 1;
        }
        None
    }

    /// The first `<tag>` child of node `p`.
    pub fn first_child(&self, p: usize, tag: &str) -> (r: Option<usize>)
        requires
            self.wf(),
            p < self.nodes.len(),
        ensures
            r matches Some(i) ==> first_child(self.model(), p as int, tag@) == Some(i as int) && p
                < i <= last_of(self.model(), p as int),
            r is None ==> first_child(self.model(), p as int, tag@) is None,
    {
        let ghost m = self.model();
        assert(node_wf(m, p as int, self.text@.len() as int));
        let hi = match self.nodes[p].last {
            Some(l) => l,
            None => 0,
        };
        let mut i: usize = p + 1;
        while i <= hi
            invariant
                m == self.model(),
                hi == last_of(m, p as int),
                hi < self.nodes.len(),
                p < i,
                first_child(m, p as int, tag@) == child_from(m, p as int, tag@, i as int, hi + 1),
            decreases hi + 1 - i,
        {
            if self.nodes[i].parent == Some(p) && is_elem_str(&self.nodes[i], tag) {
                return Some(i);
            }
            i = i + 1;
        }
        None
    }
}

// ---- where the lookups land ------------------------------------------------------

pub proof fn lemma_attr_from_bound(attrs: Seq<AttrV>, name: Seq<char>, i: int)
    ensures
        attr_from(attrs, name, i) matches Some(k) ==> 0 <= i <= k < attrs.len(),
    decreases attrs.len() - i,
{
    if !(i < 0 || i >= attrs.len()) && attrs[i].name != name {
        lemma_attr_from_bound(attrs, name, i + 1);
    }
}

pub proof fn lemma_component_from_bound(ns: Seq<NodeV>, name: Seq<char>, i: int)
    ensures
        component_from(ns, name, i) matches Some(c) ==> 0 <= i <= c < ns.len(),
    decreases ns.len() - i,
{
    if !(i < 0 || i >= ns.len()) && !component_named(ns[i], name) {
        lemma_component_from_bound(ns, name, i + 1);
    }
}

pub proof fn lemma_child_from_bound(ns: Seq<NodeV>, p: int, tag: Seq<char>, i: int, hi: int)
    ensures
        child_from(ns, p, tag, i, hi) matches Some(c) ==> 0 <= i <= c < hi && c < ns.len(),
    decreases hi - i,
{
    if !(i < 0 || i >= hi || i >= ns.len()) && !(ns[i].parent == Some(p as usize) && is_elem(ns[i], tag)) {
        lemma_child_from_bound(ns, p, tag, i + 1, hi);
    }
}

// ---- line layout -----------------------------------------------------------------

/// Start of the line containing position `pos`.
pub open spec fn line_start(s: Seq<char>, pos: int) -> int {
    match rfind_seq(s.take(pos), seq!['\n']) {
        Some(i) => i + 1,
        None => 0,
    }
}

pub open spec fn is_blank_char(c: char) -> bool {
    c == ' ' || c == '\t'
}

/// Length of the run of spaces/tabs that starts `t`.
pub open spec fn lead_blank_len(t: Seq<char>) -> nat
    decreases t.len(),
{
    if t.len() > 0 && is_blank_char(t[0]) {
        1 + lead_blank_len(t.drop_first())
    } else {
        0
    }
}

/// `indent_at(xml, pos)`: the leading spaces/tabs of the line containing `pos`.
pub open spec fn indent_at(s: Seq<char>, pos: int) -> Seq<char> {
    let ls = line_start(s, pos);
    s.subrange(ls, ls + lead_blank_len(s.skip(ls)))
}

pub proof fn lemma_lead_blank_len(t: Seq<char>)
    ensures
        lead_blank_len(t) <= t.len(),
        forall|i: int| 0 <= i < lead_blank_len(t) ==> is_blank_char(#[trigger] t[i]),
    decreases t.len(),
{
    if t.len() > 0 && is_blank_char(t[0]) {
        lemma_lead_blank_len(t.drop_first());
        assert forall|i: int| 0 <= i < lead_blank_len(t) implies is_blank_char(#[trigger] t[i]) by {
            if i > 0 {
                assert(t[i] == t.drop_first()[i - 1]);
            }
        }
    }
}

pub proof fn lemma_rfind_bounds(t: Seq<char>, p: Seq<char>, i: int)
    ensures
        rfind_below(t, p, i) matches Some(k) ==> 0 <= k <= i && match_at(t, p, k),
    decreases i + 1,
{
    if i >= 0 && !match_at(t, p, i) {
        lemma_rfind_bounds(t, p, i - 1);
    }
}

pub proof fn lemma_find_bounds(t: Seq<char>, p: Seq<char>, i: int)
    ensures
        find_from(t, p, i) matches Some(k) ==> i <= k && match_at(t, p, k),
    decreases t.len() + 1 - i,
{
    if !(i < 0 || i + p.len() > t.len()) && !match_at(t, p, i) {
        lemma_find_bounds(t, p, i + 1);
    }
}

/// Start of the line containing `pos`.
pub fn line_start_exec(s: &Vec<char>, pos: usize) -> (r: usize)
    requires
        pos <= s.len(),
    ensures
        r == line_start(s@, pos as int),
        r <= pos,
{
    let head = subvec(s, 0, pos);
    assert(head@ =~= s@.take(pos as int));
    proof {
        lemma_rfind_bounds(head@, seq!['\n'], head@.len() - 1);
    }
    match rfind_char(&head, '\n') {
        Some(i) => i + 1,
        None => 0,
    }
}

/// The leading spaces/tabs of the line containing `pos`.
pub fn indent_at_exec(s: &Vec<char>, pos: usize) -> (r: Vec<char>)
    requires
        pos <= s.len(),
    ensures
        r@ == indent_at(s@, pos as int),
{
    let ls = line_start_exec(s, pos);
    let mut e: usize = ls;
    proof {
        assert(s@.skip(ls as int).skip(0) =~= s@.skip(ls as int));
    }
    while e < s.len() && (s[e] == ' ' || s[e] == '\t')
        invariant
            ls <= e <= s.len(),
            lead_blank_len(s@.skip(ls as int)) == (e - ls) + lead_blank_len(s@.skip(e as int)),
        decreases s.len() - e,
    {
        assert(s@.skip(e as int).drop_first() =~= s@.skip(e + 1));
        e = e + 1;
    }
    subvec(s, ls, e)
}

/// `line_extended_start(xml, start)`: extend `start` back over the indentation
/// before it and the line break (LF or CRLF) that ends the previous line, when the
/// element starts its line.
pub open spec fn line_extended_start(s: Seq<char>, start: int) -> int {
    let ws = line_start(s, start);
    let prefix_ws = forall|i: int| ws <= i < start ==> is_blank_char(#[trigger] s[i]);
    if prefix_ws && ws > 0 {
        if ws >= 2 && s[ws - 2] == '\r' {
            ws - 2
        } else {
            ws - 1
        }
    } else if prefix_ws {
        ws
    } else {
        start
    }
}

pub fn line_extended_start_exec(s: &Vec<char>, start: usize) -> (r: usize)
    requires
        start <= s.len(),
    ensures
        r == line_extended_start(s@, start as int),
        r <= start,
{
    let ws = line_start_exec(s, start);
    let mut i: usize = ws;
    let mut prefix_ws = true;
    while i < start
        invariant
            ws <= i <= start <= s.len(),
            prefix_ws == forall|k: int| ws <= k < i ==> is_blank_char(#[trigger] s@[k]),
        decreases start - i,
    {
        if !(s[i] == ' ' || s[i] == '\t') {
            prefix_ws = false;
        }
        i = i + 1;
    }
    if prefix_ws && ws > 0 {
        proof {
            if ws > 0 {
                let head = s@.take(start as int);
                lemma_rfind_bounds(head, seq!['\n'], head.len() - 1);
                assert(head.subrange(ws - 1, ws as int) == seq!['\n']);
                assert(s@[ws - 1] == head.subrange(ws - 1, ws as int)[0]);
            }
        }
        if ws >= 2 && s[ws - 2] == '\r' {
            ws - 2
        } else {
            ws - 1
        }
    } else if prefix_ws {
        ws
    } else {
        start
    }
}

} // verus!
