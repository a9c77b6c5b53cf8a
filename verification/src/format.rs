//! File-format detection (`file_format`, `format_report`) and lossless
//! conversion between the two known formats (`convert_format`).
//!
//! The only bytes that differ between formats `10108` and `10109` are two header
//! attributes and the `<Signature>` elements: `ReturnType="T"` (10108) becomes a
//! nested `<Returns><Return Type="T">` (10109), `<ReturnDescription>` becomes the
//! `<Return>`'s `<Description>`, and an empty `<Params/>` is dropped. Only that
//! delta is rewritten, so a conversion round-trips byte for byte.
use vstd::prelude::*;
use crate::{EditError, ErrV, text_result, chars_result};
use crate::text::{
    chars_of, string_of, push_str, push_all, subvec, seq_eq, eq_str, splice, splice_exec, find_seq,
    rfind_seq, find_exec, rfind_exec, find_char, rfind_char, match_at, ends_with_str,
};
use crate::xml::{
    Doc, NodeV, XmlNode, parse_doc, doc_model, parse_err, node_wf, last_of, is_elem, attr_val,
    attr_idx, has_attr, first_child, is_elem_str, attr_value_str, attr_index, indent_at,
    indent_at_exec, line_extended_start, line_extended_start_exec, lemma_rfind_bounds,
    lemma_find_bounds,
};
use crate::props::{elem_text, elem_text_exec, view_all};
use crate::structure::{Fix, fixes_view};
use crate::sort::{KeyOrder, ins, isort, isort_exec};
use crate::edits::{decimal, decimal_exec};
use crate::query::{opt_view, first_elem_from};

verus! {

// ---- known formats ------------------------------------------------------------------

/// A known project file format and the M1-Build release(s) that write it.
pub struct KnownFormat {
    /// The `FileFormat` attribute value on `<Project>`.
    pub file_format: u32,
    /// The `ProductVersion` M1-Build stamps for this format, when one is confirmed
    /// (conversion to a format without one is refused).
    pub product_version: Option<String>,
    /// The writer(s) of the format.
    pub writer: String,
}

pub open spec fn known_formats_spec() -> Seq<(u32, Option<Seq<char>>, Seq<char>)> {
    seq![
        (10105u32, None, "M1 Build 1.4.x (earlier point release)"@),
        (10108u32, Some("1.4.4.981"@), "M1 Build 1.4.4.x"@),
        (10109u32, Some("1.4.5.556"@), "M1 Build 1.4.5.x"@),
    ]
}

pub open spec fn formats_view(v: Seq<KnownFormat>) -> Seq<(u32, Option<Seq<char>>, Seq<char>)> {
    v.map_values(|k: KnownFormat| (k.file_format, opt_view(k.product_version), k.writer@))
}

/// The formats seen so far, oldest first.
pub fn known_formats() -> (r: Vec<KnownFormat>)
    ensures
        formats_view(r@) == known_formats_spec(),
{
    let mut r: Vec<KnownFormat> = Vec::new();
    r.push(
        KnownFormat {
            file_format: 10105,
            product_version: None,
            writer: string_of(&chars_of("M1 Build 1.4.x (earlier point release)")),
        },
    );
    r.push(
        KnownFormat {
            file_format: 10108,
            product_version: Some(string_of(&chars_of("1.4.4.981"))),
            writer: string_of(&chars_of("M1 Build 1.4.4.x")),
        },
    );
    r.push(
        KnownFormat {
            file_format: 10109,
            product_version: Some(string_of(&chars_of("1.4.5.556"))),
            writer: string_of(&chars_of("M1 Build 1.4.5.x")),
        },
    );
    assert(formats_view(r@) =~= known_formats_spec());
    r
}

pub open spec fn writer_line(k: (u32, Option<Seq<char>>, Seq<char>)) -> Seq<char> {
    decimal(k.0 as nat) + " = "@ + k.2
}

/// `format = writer` for each known format, joined with `, `.
pub open spec fn writers_summary_spec() -> Seq<char> {
    crate::edits::join_with(known_formats_spec().map_values(|k: (u32, Option<Seq<char>>, Seq<char>)| writer_line(k)), ", "@)
}

/// A one-line summary of the known `format = writer` mappings.
pub fn known_writers_summary() -> (r: String)
    ensures
        r@ == writers_summary_spec(),
{
    let ks = known_formats();
    let mut lines: Vec<Vec<char>> = Vec::new();
    let mut i: usize = 0;
    while i < ks.len()
        invariant
            i <= ks.len(),
            formats_view(ks@) == known_formats_spec(),
            view_all(lines@) == known_formats_spec().map_values(
                |k: (u32, Option<Seq<char>>, Seq<char>)| writer_line(k),
            ).take(i as int),
        decreases ks.len() - i,
    {
        let mut l = decimal_exec(ks[i].file_format as u64);
        push_str(&mut l, " = ");
        push_all(&mut l, &crate::text::chars_of_string(&ks[i].writer));
        let ghost before = view_all(lines@);
        assert(formats_view(ks@)[i as int] == (ks@[i as int].file_format, opt_view(ks@[i as int].product_version), ks@[i as int].writer@));
        lines.push(l);
        assert(view_all(lines@) =~= before.push(l@));
        assert(view_all(lines@) =~= known_formats_spec().map_values(
            |k: (u32, Option<Seq<char>>, Seq<char>)| writer_line(k),
        ).take(i + 1));
        i = i + 1;
    }
    assert(known_formats_spec().map_values(|k: (u32, Option<Seq<char>>, Seq<char>)| writer_line(k)).take(
        i as int,
    ) =~= known_formats_spec().map_values(|k: (u32, Option<Seq<char>>, Seq<char>)| writer_line(k)));
    string_of(&crate::edits::join_with_exec(&lines, ", "))
}

// ---- numbers --------------------------------------------------------------------------

pub open spec fn is_digit(c: char) -> bool {
    '0' <= c && c <= '9'
}

/// The value of a run of decimal digits.
pub open spec fn digits_value(s: Seq<char>) -> nat
    decreases s.len(),
{
    if s.len() == 0 {
        0
    } else {
        digits_value(s.drop_last()) * 10 + (s.last() as nat - '0' as nat) as nat
    }
}

pub open spec fn all_digits(d: Seq<char>) -> bool {
    forall|i: int| 0 <= i < d.len() ==> is_digit(#[trigger] d[i])
}

/// `s.parse::<u32>()`: an optional `+`, then one or more digits, within range.
pub open spec fn parse_u32(s: Seq<char>) -> Option<u32> {
    let d = if s.len() > 1 && s[0] == '+' {
        s.skip(1)
    } else {
        s
    };
    if d.len() == 0 || !all_digits(d) {
        None
    } else if digits_value(d) > u32::MAX {
        None
    } else {
        Some(digits_value(d) as u32)
    }
}

proof fn lemma_digits_mono(s: Seq<char>, i: int)
    requires
        0 <= i <= s.len(),
        forall|k: int| 0 <= k < s.len() ==> is_digit(#[trigger] s[k]),
    ensures
        digits_value(s.take(i)) <= digits_value(s),
    decreases s.len() - i,
{
    if i < s.len() {
        lemma_digits_mono(s, i + 1);
        assert(s.take(i + 1).drop_last() =~= s.take(i));
    } else {
        assert(s.take(i) =~= s);
    }
}

#[verifier::loop_isolation(false)]
pub fn parse_u32_exec(s: &Vec<char>) -> (r: Option<u32>)
    ensures
        r == parse_u32(s@),
{
    let d = if s.len() > 1 && s[0] == '+' {
        subvec(s, 1, s.len())
    } else {
        subvec(s, 0, s.len())
    };
    assert(d@ =~= (if s@.len() > 1 && s@[0] == '+' { s@.skip(1) } else { s@ }));
    if d.len() == 0 {
        return None;
    }
    let mut i: usize = 0;
    while i < d.len()
        invariant
            i <= d.len(),
            forall|k: int| 0 <= k < i ==> is_digit(#[trigger] d@[k]),
        decreases d.len() - i,
    {
        if !('0' <= d[i] && d[i] <= '9') {
            assert(!is_digit(d@[i as int]));
            assert(!all_digits(d@));
            return None;
        }
        i = i + 1;
    }
    let mut v: u64 = 0;
    let mut j: usize = 0;
    assert(d@.take(0) =~= Seq::<char>::empty());
    while j < d.len()
        invariant
            j <= d.len(),
            forall|k: int| 0 <= k < d@.len() ==> is_digit(#[trigger] d@[k]),
            v == digits_value(d@.take(j as int)),
            v <= u32::MAX,
        decreases d.len() - j,
    {
        assert(d@.take(j + 1).drop_last() =~= d@.take(j as int));
        assert(is_digit(d@[j as int]));
        let dig = (d[j] as u32 - '0' as u32) as u64;
        assert(d@.take(j + 1).last() == d@[j as int]);
        assert(digits_value(d@.take(j + 1)) == digits_value(d@.take(j as int)) * 10 + dig);
        let nv = v * 10 + dig;
        if nv > 4294967295 {
            proof {
                lemma_digits_mono(d@, j + 1);
            }
            return None;
        }
        v = nv;
        j = j + 1;
    }
    assert(d@.take(j as int) =~= d@);
    Some(v as u32)
}

// ---- the format report --------------------------------------------------------------------

/// What `format` reports about a project's header.
#[derive(Debug, Clone)]
pub struct FormatReport {
    /// `FileFormat` on `<Project>`.
    pub file_format: Option<u32>,
    /// `ProductName` on `<MoTeCM1BuildSession>`.
    pub product_name: Option<String>,
    /// `ProductVersion` on `<MoTeCM1BuildSession>` — the build that last wrote it.
    pub product_version: Option<String>,
    /// The `<System>` package target, `Major.Minor.Release.Build`.
    pub package_target: Option<String>,
}

pub struct ReportV {
    pub file_format: Option<u32>,
    pub product_name: Option<Seq<char>>,
    pub product_version: Option<Seq<char>>,
    pub package_target: Option<Seq<char>>,
}

impl View for FormatReport {
    type V = ReportV;

    open spec fn view(&self) -> ReportV {
        ReportV {
            file_format: self.file_format,
            product_name: opt_view(self.product_name),
            product_version: opt_view(self.product_version),
            package_target: opt_view(self.package_target),
        }
    }
}

/// The project's numeric `FileFormat`: the first `<Project>`'s attribute, parsed.
pub open spec fn file_format_of(m: Seq<NodeV>) -> Option<u32> {
    match first_elem_from(m, "Project"@, 0) {
        Some(p) => match attr_val(m[p], "FileFormat"@) {
            Some(v) => parse_u32(v),
            None => None,
        },
        None => None,
    }
}

pub open spec fn attr_or_q(n: NodeV, attr: Seq<char>) -> Seq<char> {
    match attr_val(n, attr) {
        Some(v) => v,
        None => "?"@,
    }
}

pub open spec fn report_spec(m: Seq<NodeV>) -> ReportV {
    let session = first_elem_from(m, "MoTeCM1BuildSession"@, 0);
    let system = first_elem_from(m, "System"@, 0);
    ReportV {
        file_format: file_format_of(m),
        product_name: match session {
            Some(s) => attr_val(m[s], "ProductName"@),
            None => None,
        },
        product_version: match session {
            Some(s) => attr_val(m[s], "ProductVersion"@),
            None => None,
        },
        package_target: match system {
            Some(s) => Some(
                attr_or_q(m[s], "VersionMajor"@) + "."@ + attr_or_q(m[s], "VersionMinor"@) + "."@ + attr_or_q(
                    m[s],
                    "VersionRelease"@,
                ) + "."@ + attr_or_q(m[s], "VersionBuild"@),
            ),
            None => None,
        },
    }
}

pub fn first_elem_exec(d: &Doc, tag: &str) -> (r: Option<usize>)
    ensures
        r matches Some(k) ==> first_elem_from(d.model(), tag@, 0) == Some(k as int) && k < d.nodes.len(),
        r is None ==> first_elem_from(d.model(), tag@, 0) is None,
{
    let ghost m = d.model();
    let mut i: usize = 0;
    while i < d.nodes.len()
        invariant
            i <= d.nodes.len(),
            m == d.model(),
            first_elem_from(m, tag@, 0) == first_elem_from(m, tag@, i as int),
        decreases d.nodes.len() - i,
    {
        if is_elem_str(&d.nodes[i], tag) {
            return Some(i);
        }
        i = i + 1;
    }
    None
}

fn file_format_doc(d: &Doc) -> (r: Option<u32>)
    ensures
        r == file_format_of(d.model()),
{
    match first_elem_exec(d, "Project") {
        Some(p) => match attr_value_str(&d.nodes[p], "FileFormat") {
            Some(v) => parse_u32_exec(v),
            None => None,
        },
        None => None,
    }
}

/// The project's numeric `FileFormat`; `None` when the text is not XML or carries
/// no numeric one.
pub fn file_format(xml: &str) -> (r: Option<u32>)
    ensures
        r == match doc_model(xml@) {
            Some(m) => file_format_of(m),
            None => None,
        },
{
    match parse_doc(xml) {
        Ok(d) => file_format_doc(&d),
        Err(_) => None,
    }
}

fn opt_attr_string(n: &XmlNode, attr: &str) -> (r: Option<String>)
    ensures
        opt_view(r) == attr_val(n@, attr@),
{
    match attr_value_str(n, attr) {
        Some(v) => Some(string_of(v)),
        None => None,
    }
}

fn attr_or_q_exec(n: &XmlNode, attr: &str) -> (r: Vec<char>)
    ensures
        r@ == attr_or_q(n@, attr@),
{
    match attr_value_str(n, attr) {
        Some(v) => subvec(v, 0, v.len()),
        None => chars_of("?"),
    }
}

/// The project's format header: `FileFormat`, the writer's product name and
/// version, and the `<System>` package target.
pub fn format_report(xml: &str) -> (r: Result<FormatReport, EditError>)
    ensures
        r matches Ok(rep) ==> doc_model(xml@) matches Some(m) && rep@ == report_spec(m),
        r matches Err(e) ==> doc_model(xml@) is None && e@ == parse_err(xml@),
{
    let d = parse_doc(xml)?;
    let session = first_elem_exec(&d, "MoTeCM1BuildSession");
    let system = first_elem_exec(&d, "System");
    let (name, version) = match session {
        Some(s) => (opt_attr_string(&d.nodes[s], "ProductName"), opt_attr_string(&d.nodes[s], "ProductVersion")),
        None => (None, None),
    };
    let target = match system {
        Some(s) => {
            let n = &d.nodes[s];
            let mut t = attr_or_q_exec(n, "VersionMajor");
            push_str(&mut t, ".");
            push_all(&mut t, &attr_or_q_exec(n, "VersionMinor"));
            push_str(&mut t, ".");
            push_all(&mut t, &attr_or_q_exec(n, "VersionRelease"));
            push_str(&mut t, ".");
            push_all(&mut t, &attr_or_q_exec(n, "VersionBuild"));
            Some(string_of(&t))
        },
        None => None,
    };
    Ok(FormatReport { file_format: file_format_doc(&d), product_name: name, product_version: version, package_target: target })
}

// ---- conversion -------------------------------------------------------------------------

pub type FixV = (int, int, Seq<char>);

/// Position of the `>` that closes node `k`'s opening tag.
pub open spec fn open_gt(s: Seq<char>, m: Seq<NodeV>, k: int) -> Option<int> {
    match find_seq(s.skip(m[k].start), ">"@) {
        Some(i) => Some(m[k].start + i),
        None => None,
    }
}

/// Set `attr="value"` on node `k`: replace the attribute, or insert it just before
/// the opening tag's `>`; `None` when the tag has no `>`.
pub open spec fn set_or_insert(s: Seq<char>, m: Seq<NodeV>, k: int, attr: Seq<char>, value: Seq<char>) -> Option<
    FixV,
> {
    match attr_idx(m[k], attr) {
        Some(a) => Some((m[k].attrs[a].start, m[k].attrs[a].end, attr + "=\""@ + value + "\""@)),
        None => match open_gt(s, m, k) {
            Some(g) => Some((g, g, " "@ + attr + "=\""@ + value + "\""@)),
            None => None,
        },
    }
}

/// The bytes inside element `k`'s `<![CDATA[ … ]]>` (empty when there is none).
pub open spec fn cdata_payload(s: Seq<char>, m: Seq<NodeV>, k: int) -> Seq<char> {
    let t = elem_text(s, m, k);
    match (find_seq(t, "<![CDATA["@), rfind_seq(t, "]]>"@)) {
        (Some(a), Some(b)) => if a + 9 <= b {
            t.subrange(a + 9, b)
        } else {
            Seq::empty()
        },
        _ => Seq::empty(),
    }
}

pub open spec fn returns_block(c1: Seq<char>, c2: Seq<char>, c3: Seq<char>, t: Seq<char>, payload: Seq<char>) -> Seq<
    char,
> {
    "<Returns>\n"@ + c2 + "<Return Type=\""@ + t + "\">\n"@ + c3 + "<Description>\n<![CDATA["@ + payload
        + "]]>\n"@ + c3 + "</Description>\n"@ + c2 + "</Return>\n"@ + c1 + "</Returns>"@
}

/// The fixes that upgrade one `<Signature>` (node `k`) from 10108 to 10109.
pub open spec fn upgrade_fixes(s: Seq<char>, m: Seq<NodeV>, k: int) -> Seq<FixV> {
    let b = indent_at(s, m[k].start);
    let c1 = b + " "@;
    let c2 = b + "  "@;
    let c3 = b + "   "@;
    let f1 = match attr_idx(m[k], "ReturnType"@) {
        Some(a) => {
            let r = m[k].attrs[a];
            let st = if r.start >= 1 && s[r.start - 1] == ' ' {
                r.start - 1
            } else {
                r.start
            };
            seq![(st, r.end, Seq::<char>::empty())]
        },
        None => Seq::empty(),
    };
    let f2 = match first_child(m, k, "Params"@) {
        Some(p) => if first_child(m, p, "Param"@) is None {
            seq![(line_extended_start(s, m[p].start), m[p].end, Seq::<char>::empty())]
        } else {
            Seq::empty()
        },
        None => Seq::empty(),
    };
    let f3 = match first_child(m, k, "ReturnDescription"@) {
        Some(x) => {
            let t = match attr_val(m[k], "ReturnType"@) {
                Some(v) => v,
                None => Seq::empty(),
            };
            if t.len() == 0 {
                seq![(line_extended_start(s, m[x].start), m[x].end, Seq::<char>::empty())]
            } else {
                seq![(m[x].start, m[x].end, returns_block(c1, c2, c3, t, cdata_payload(s, m, x)))]
            }
        },
        None => Seq::empty(),
    };
    f1 + f2 + f3
}

/// The fixes that downgrade one `<Signature>` (node `k`) from 10109 to 10108;
/// `None` when a tag the conversion needs is missing.
pub open spec fn downgrade_fixes(s: Seq<char>, m: Seq<NodeV>, k: int) -> Option<Seq<FixV>> {
    let b = indent_at(s, m[k].start);
    let c1 = b + " "@;
    let rets = first_child(m, k, "Returns"@);
    let ret = match rets {
        Some(rn) => first_child(m, rn, "Return"@),
        None => None,
    };
    match open_gt(s, m, k) {
        None => None,
        Some(gt) => {
            let t = match ret {
                Some(r) => match attr_val(m[r], "Type"@) {
                    Some(v) => v,
                    None => Seq::empty(),
                },
                None => Seq::empty(),
            };
            let f1 = seq![(gt, gt, " ReturnType=\""@ + t + "\""@)];
            let f2 = if first_child(m, k, "Params"@) is None {
                seq![(gt + 1, gt + 1, "\n"@ + c1 + "<Params/>"@)]
            } else {
                Seq::empty()
            };
            match rets {
                Some(rn) => {
                    let payload = match ret {
                        Some(r) => match first_child(m, r, "Description"@) {
                            Some(dd) => cdata_payload(s, m, dd),
                            None => Seq::empty(),
                        },
                        None => Seq::empty(),
                    };
                    Some(
                        f1 + f2 + seq![
                            (
                                m[rn].start,
                                m[rn].end,
                                "<ReturnDescription>\n<![CDATA["@ + payload + "]]>\n"@ + c1
                                    + "</ReturnDescription>"@,
                            ),
                        ],
                    )
                },
                None => match rfind_seq(elem_text(s, m, k), "</Signature>"@) {
                    None => None,
                    Some(ci) => match rfind_seq(s.take(m[k].start + ci), "\n"@) {
                        None => None,
                        Some(nl) => Some(
                            f1 + f2 + seq![
                                (
                                    nl,
                                    nl,
                                    "\n"@ + c1 + "<ReturnDescription>\n<![CDATA[]]>\n"@ + c1
                                        + "</ReturnDescription>"@,
                                ),
                            ],
                        ),
                    },
                },
            }
        },
    }
}

/// The fixes of every `<Signature>` among nodes `i..`, in document order.
pub open spec fn sig_fixes_from(s: Seq<char>, m: Seq<NodeV>, upgrade: bool, i: int) -> Option<Seq<FixV>>
    decreases m.len() - i,
{
    if i < 0 || i >= m.len() {
        Some(Seq::empty())
    } else {
        match sig_fixes_from(s, m, upgrade, i + 1) {
            None => None,
            Some(rest) => if is_elem(m[i], "Signature"@) {
                if upgrade {
                    Some(upgrade_fixes(s, m, i) + rest)
                } else {
                    match downgrade_fixes(s, m, i) {
                        None => None,
                        Some(f) => Some(f + rest),
                    }
                }
            } else {
                Some(rest)
            },
        }
    }
}

/// A fix is applied above another when it starts later.
pub open spec fn fix_le(a: FixV, b: FixV) -> bool {
    a.0 >= b.0
}

pub open spec fn ins_fix(t: Seq<FixV>, x: FixV) -> Seq<FixV>
    decreases t.len(),
{
    if t.len() == 0 {
        seq![x]
    } else if fix_le(t.last(), x) {
        t.push(x)
    } else {
        ins_fix(t.drop_last(), x).push(t.last())
    }
}

/// Stable sort of fixes by descending start.
pub open spec fn sort_fixes_desc(s: Seq<FixV>) -> Seq<FixV>
    decreases s.len(),
{
    if s.len() == 0 {
        Seq::empty()
    } else {
        ins_fix(sort_fixes_desc(s.drop_last()), s.last())
    }
}

/// Splice each fix in turn; `None` when one falls outside the text.
pub open spec fn apply_in_turn(s: Seq<char>, fs: Seq<FixV>) -> Option<Seq<char>>
    decreases fs.len(),
{
    if fs.len() == 0 {
        Some(s)
    } else if 0 <= fs[0].0 <= fs[0].1 <= s.len() {
        apply_in_turn(splice(s, fs[0].0, fs[0].1, fs[0].2), fs.drop_first())
    } else {
        None
    }
}

impl KeyOrder for Fix {
    open spec fn key_le(&self, other: &Self) -> bool {
        self.start >= other.start
    }

    proof fn lemma_total(a: &Self, b: &Self) {
    }

    proof fn lemma_trans(a: &Self, b: &Self, c: &Self) {
    }

    fn le_exec(&self, other: &Self) -> (r: bool) {
        self.start >= other.start
    }
}

proof fn lemma_ins_fix_view(t: Seq<Fix>, x: Fix)
    ensures
        fixes_view(ins(t, x)) == ins_fix(fixes_view(t), (x.start as int, x.end as int, x.text@)),
    decreases t.len(),
{
    if t.len() == 0 {
        assert(fixes_view(seq![x]) =~= seq![(x.start as int, x.end as int, x.text@)]);
    } else {
        assert(fixes_view(t).last() == (t.last().start as int, t.last().end as int, t.last().text@));
        assert(fixes_view(t.drop_last()) =~= fixes_view(t).drop_last());
        if t.last().key_le(&x) {
            assert(fixes_view(t.push(x)) =~= fixes_view(t).push((x.start as int, x.end as int, x.text@)));
        } else {
            lemma_ins_fix_view(t.drop_last(), x);
            assert(fixes_view(ins(t.drop_last(), x).push(t.last())) =~= fixes_view(ins(t.drop_last(), x)).push(
                (t.last().start as int, t.last().end as int, t.last().text@),
            ));
        }
    }
}

proof fn lemma_sort_fixes_view(s: Seq<Fix>)
    ensures
        fixes_view(isort(s)) == sort_fixes_desc(fixes_view(s)),
    decreases s.len(),
{
    if s.len() > 0 {
        lemma_sort_fixes_view(s.drop_last());
        lemma_ins_fix_view(isort(s.drop_last()), s.last());
        assert(fixes_view(s.drop_last()) =~= fixes_view(s).drop_last());
    }
}

/// `convert_format(xml, target)` on a parsed project.
pub open spec fn convert_on(s: Seq<char>, m: Seq<NodeV>, target: u32) -> Result<Seq<char>, ErrV> {
    match first_elem_from(m, "Project"@, 0) {
        None => Err(ErrV::Invalid("no <Project> element \u{2014} not a project file"@)),
        Some(p) => match (match attr_val(m[p], "FileFormat"@) {
            Some(v) => parse_u32(v),
            None => None,
        }) {
            None => Err(ErrV::Invalid("project <Project> has no numeric FileFormat attribute"@)),
            Some(cur) => if cur == target {
                Ok(s)
            } else if !((cur == 10108 && target == 10109) || (cur == 10109 && target == 10108)) {
                Err(
                    ErrV::Invalid(
                        "unsupported conversion "@ + decimal(cur as nat) + " -> "@ + decimal(target as nat)
                            + ": only 10108 <-> 10109 is implemented (the delta for other formats is not yet known)"@,
                    ),
                )
            } else {
                let pv = if target == 10109 {
                    "1.4.5.556"@
                } else {
                    "1.4.4.981"@
                };
                let head = match set_or_insert(s, m, p, "FileFormat"@, decimal(target as nat)) {
                    None => None,
                    Some(f) => match first_elem_from(m, "MoTeCM1BuildSession"@, 0) {
                        None => Some(seq![f]),
                        Some(se) => match set_or_insert(s, m, se, "ProductVersion"@, pv) {
                            None => None,
                            Some(g) => Some(seq![f, g]),
                        },
                    },
                };
                match (head, sig_fixes_from(s, m, target == 10109, 0)) {
                    (Some(h), Some(sf)) => match apply_in_turn(s, sort_fixes_desc(h + sf)) {
                        Some(o) => Ok(o),
                        None => Err(ErrV::Invalid("overlapping edits"@)),
                    },
                    _ => Err(ErrV::Invalid("malformed element: a tag the conversion needs is incomplete"@)),
                }
            },
        },
    }
}

pub open spec fn convert_spec(xml: Seq<char>, target: u32) -> Result<Seq<char>, ErrV> {
    match doc_model(xml) {
        None => Err(parse_err(xml)),
        Some(m) => convert_on(xml, m, target),
    }
}

pub open spec fn fix_of(f: Fix) -> FixV {
    (f.start as int, f.end as int, f.text@)
}

fn open_gt_exec(d: &Doc, k: usize) -> (r: Option<usize>)
    requires
        d.wf(),
        k < d.nodes.len(),
    ensures
        r matches Some(g) ==> open_gt(d.text@, d.model(), k as int) == Some(g as int) && g < d.text@.len(),
        r is None ==> open_gt(d.text@, d.model(), k as int) is None,
{
    let ghost m = d.model();
    assert(node_wf(m, k as int, d.text@.len() as int));
    let st = d.nodes[k].range.start;
    let rest = subvec(&d.text, st, d.text.len());
    assert(rest@ =~= d.text@.skip(st as int));
    proof {
        lemma_find_bounds(rest@, seq!['>'], 0);
        reveal_strlit(">");
        assert(">"@ =~= seq!['>']);
    }
    match find_char(&rest, '>') {
        Some(i) => {
            assert(i < rest.len());
            Some(st + i)
        },
        None => None,
    }
}

fn fix_new(start: usize, end: usize, text: Vec<char>) -> (f: Fix)
    ensures
        fix_of(f) == (start as int, end as int, text@),
{
    Fix { start, end, text }
}

fn set_or_insert_exec(d: &Doc, k: usize, attr: &str, value: &Vec<char>) -> (r: Option<Fix>)
    requires
        d.wf(),
        k < d.nodes.len(),
    ensures
        match r {
            Some(f) => set_or_insert(d.text@, d.model(), k as int, attr@, value@) == Some(fix_of(f)),
            None => set_or_insert(d.text@, d.model(), k as int, attr@, value@) is None,
        },
{
    let mut t = chars_of(attr);
    push_str(&mut t, "=\"");
    push_all(&mut t, value);
    push_str(&mut t, "\"");
    match attr_index(&d.nodes[k], &chars_of(attr)) {
        Some(a) => Some(fix_new(d.nodes[k].attrs[a].range.start, d.nodes[k].attrs[a].range.end, t)),
        None => match open_gt_exec(d, k) {
            Some(g) => {
                let mut u = chars_of(" ");
                push_all(&mut u, &t);
                Some(fix_new(g, g, u))
            },
            None => None,
        },
    }
}

fn cdata_payload_exec(d: &Doc, k: usize) -> (r: Vec<char>)
    requires
        d.wf(),
        k < d.nodes.len(),
    ensures
        r@ == cdata_payload(d.text@, d.model(), k as int),
{
    let t = elem_text_exec(d, k);
    let open = chars_of("<![CDATA[");
    let close = chars_of("]]>");
    proof {
        lemma_find_bounds(t@, open@, 0);
        lemma_rfind_bounds(t@, close@, t@.len() - close@.len());
        reveal_strlit("<![CDATA[");
        assert(open@.len() == 9);
    }
    match (find_exec(&t, &open), rfind_exec(&t, &close)) {
        (Some(a), Some(b)) => {
            assert(match_at(t@, open@, a as int));
            assert(a + 9 <= t@.len());
            let tl = t.len();
            if a + 9 <= b {
                subvec(&t, a + 9, b)
            } else {
                Vec::new()
            }
        },
        _ => Vec::new(),
    }
}

fn push_fix(out: &mut Vec<Fix>, f: Fix)
    ensures
        fixes_view(final(out)@) == fixes_view(old(out)@).push(fix_of(f)),
{
    out.push(f);
    assert(fixes_view(out@) =~= fixes_view(old(out)@).push(fix_of(f)));
}

fn indents(d: &Doc, k: usize) -> (r: (Vec<char>, Vec<char>, Vec<char>))
    requires
        d.wf(),
        k < d.nodes.len(),
    ensures
        r.0@ == indent_at(d.text@, d.model()[k as int].start) + " "@,
        r.1@ == indent_at(d.text@, d.model()[k as int].start) + "  "@,
        r.2@ == indent_at(d.text@, d.model()[k as int].start) + "   "@,
{
    let ghost m = d.model();
    assert(node_wf(m, k as int, d.text@.len() as int));
    let b = indent_at_exec(&d.text, d.nodes[k].range.start);
    let mut c1 = subvec(&b, 0, b.len());
    push_str(&mut c1, " ");
    let mut c2 = subvec(&b, 0, b.len());
    push_str(&mut c2, "  ");
    let mut c3 = subvec(&b, 0, b.len());
    push_str(&mut c3, "   ");
    assert(c1@ =~= b@ + " "@);
    assert(c2@ =~= b@ + "  "@);
    assert(c3@ =~= b@ + "   "@);
    (c1, c2, c3)
}

fn upgrade_exec(d: &Doc, k: usize, out: &mut Vec<Fix>)
    requires
        d.wf(),
        k < d.nodes.len(),
    ensures
        fixes_view(final(out)@) == fixes_view(old(out)@) + upgrade_fixes(d.text@, d.model(), k as int),
{
    let ghost m = d.model();
    let ghost s = d.text@;
    assert(node_wf(m, k as int, s.len() as int));
    let (c1, c2, c3) = indents(d, k);
    let ghost o0 = fixes_view(out@);
    match attr_index(&d.nodes[k], &chars_of("ReturnType")) {
        Some(a) => {
            assert(crate::xml::attr_wf(m[k as int].attrs[a as int], s.len() as int));
            let rs = d.nodes[k].attrs[a].range.start;
            let re = d.nodes[k].attrs[a].range.end;
            let st = if rs >= 1 && d.text[rs - 1] == ' ' {
                rs - 1
            } else {
                rs
            };
            push_fix(out, fix_new(st, re, Vec::new()));
        },
        None => {},
    }
    let ghost o1 = fixes_view(out@);
    match d.first_child(k, "Params") {
        Some(p) => {
            assert(node_wf(m, p as int, s.len() as int));
            if d.first_child(p, "Param").is_none() {
                let st = line_extended_start_exec(&d.text, d.nodes[p].range.start);
                push_fix(out, fix_new(st, d.nodes[p].range.end, Vec::new()));
            }
        },
        None => {},
    }
    let ghost o2 = fixes_view(out@);
    match d.first_child(k, "ReturnDescription") {
        Some(x) => {
            assert(node_wf(m, x as int, s.len() as int));
            let t = match attr_value_str(&d.nodes[k], "ReturnType") {
                Some(v) => subvec(v, 0, v.len()),
                None => Vec::new(),
            };
            assert(t@ =~= (match attr_val(m[k as int], "ReturnType"@) {
                Some(v) => v,
                None => Seq::<char>::empty(),
            }));
            if t.len() == 0 {
                let st = line_extended_start_exec(&d.text, d.nodes[x].range.start);
                push_fix(out, fix_new(st, d.nodes[x].range.end, Vec::new()));
            } else {
                let payload = cdata_payload_exec(d, x);
                let mut blk = chars_of("<Returns>\n");
                push_all(&mut blk, &c2);
                push_str(&mut blk, "<Return Type=\"");
                push_all(&mut blk, &t);
                push_str(&mut blk, "\">\n");
                push_all(&mut blk, &c3);
                push_str(&mut blk, "<Description>\n<![CDATA[");
                push_all(&mut blk, &payload);
                push_str(&mut blk, "]]>\n");
                push_all(&mut blk, &c3);
                push_str(&mut blk, "</Description>\n");
                push_all(&mut blk, &c2);
                push_str(&mut blk, "</Return>\n");
                push_all(&mut blk, &c1);
                push_str(&mut blk, "</Returns>");
                assert(blk@ =~= returns_block(c1@, c2@, c3@, t@, payload@));
                push_fix(out, fix_new(d.nodes[x].range.start, d.nodes[x].range.end, blk));
            }
        },
        None => {},
    }
    assert(fixes_view(out@) =~= fixes_view(old(out)@) + upgrade_fixes(s, m, k as int));
}

fn downgrade_exec(d: &Doc, k: usize) -> (r: Option<Vec<Fix>>)
    requires
        d.wf(),
        k < d.nodes.len(),
    ensures
        match r {
            Some(v) => downgrade_fixes(d.text@, d.model(), k as int) == Some(fixes_view(v@)),
            None => downgrade_fixes(d.text@, d.model(), k as int) is None,
        },
{
    let ghost m = d.model();
    let ghost s = d.text@;
    assert(node_wf(m, k as int, s.len() as int));
    let (c1, _c2, _c3) = indents(d, k);
    let rets = d.first_child(k, "Returns");
    let ret = match rets {
        Some(rn) => {
            assert(node_wf(m, rn as int, s.len() as int));
            d.first_child(rn, "Return")
        },
        None => None,
    };
    let tl = d.text.len();
    let gt = match open_gt_exec(d, k) {
        None => return None,
        Some(g) => g,
    };
    let t = match ret {
        Some(r) => match attr_value_str(&d.nodes[r], "Type") {
            Some(v) => subvec(v, 0, v.len()),
            None => Vec::new(),
        },
        None => Vec::new(),
    };
    let ghost tspec = match ret {
        Some(r) => match attr_val(m[r as int], "Type"@) {
            Some(v) => v,
            None => Seq::<char>::empty(),
        },
        None => Seq::<char>::empty(),
    };
    assert(t@ =~= tspec);
    let ghost f1 = seq![(gt as int, gt as int, " ReturnType=\""@ + tspec + "\""@)];
    let ghost f2 = if first_child(m, k as int, "Params"@) is None {
        seq![(gt + 1, gt + 1, "\n"@ + c1@ + "<Params/>"@)]
    } else {
        Seq::<FixV>::empty()
    };
    let mut out: Vec<Fix> = Vec::new();
    let mut a = chars_of(" ReturnType=\"");
    push_all(&mut a, &t);
    push_str(&mut a, "\"");
    push_fix(&mut out, fix_new(gt, gt, a));
    if d.first_child(k, "Params").is_none() {
        let mut b = chars_of("\n");
        push_all(&mut b, &c1);
        push_str(&mut b, "<Params/>");
        push_fix(&mut out, fix_new(gt + 1, gt + 1, b));
    }
    assert(fixes_view(out@) =~= f1 + f2);
    match rets {
        Some(rn) => {
            let payload = match ret {
                Some(r) => {
                    assert(node_wf(m, r as int, s.len() as int));
                    match d.first_child(r, "Description") {
                        Some(dd) => {
                            assert(node_wf(m, dd as int, s.len() as int));
                            cdata_payload_exec(d, dd)
                        },
                        None => Vec::new(),
                    }
                },
                None => Vec::new(),
            };
            let mut blk = chars_of("<ReturnDescription>\n<![CDATA[");
            push_all(&mut blk, &payload);
            push_str(&mut blk, "]]>\n");
            push_all(&mut blk, &c1);
            push_str(&mut blk, "</ReturnDescription>");
            push_fix(&mut out, fix_new(d.nodes[rn].range.start, d.nodes[rn].range.end, blk));
            assert(fixes_view(out@) =~= f1 + f2 + seq![
                (
                    m[rn as int].start,
                    m[rn as int].end,
                    "<ReturnDescription>\n<![CDATA["@ + payload@ + "]]>\n"@ + c1@ + "</ReturnDescription>"@,
                ),
            ]);
        },
        None => {
            let et = elem_text_exec(d, k);
            let cl = chars_of("</Signature>");
            proof {
                lemma_rfind_bounds(et@, cl@, et@.len() - cl@.len());
            }
            let ci = match rfind_exec(&et, &cl) {
                None => return None,
                Some(ci) => ci,
            };
            let close = d.nodes[k].range.start + ci;
            let head = subvec(&d.text, 0, close);
            assert(head@ =~= s.take(close as int));
            proof {
                lemma_rfind_bounds(head@, seq!['\n'], head@.len() - 1);
                reveal_strlit("\n");
                assert("\n"@ =~= seq!['\n']);
            }
            let nl = match rfind_char(&head, '\n') {
                None => return None,
                Some(nl) => nl,
            };
            let mut blk = chars_of("\n");
            push_all(&mut blk, &c1);
            push_str(&mut blk, "<ReturnDescription>\n<![CDATA[]]>\n");
            push_all(&mut blk, &c1);
            push_str(&mut blk, "</ReturnDescription>");
            push_fix(&mut out, fix_new(nl, nl, blk));
            assert(fixes_view(out@) =~= f1 + f2 + seq![
                (
                    nl as int,
                    nl as int,
                    "\n"@ + c1@ + "<ReturnDescription>\n<![CDATA[]]>\n"@ + c1@ + "</ReturnDescription>"@,
                ),
            ]);
        },
    }
    assert(downgrade_fixes(s, m, k as int) == Some(fixes_view(out@)));
    Some(out)
}

pub open spec fn opt_prepend(a: Seq<FixV>, o: Option<Seq<FixV>>) -> Option<Seq<FixV>> {
    match o {
        Some(r) => Some(a + r),
        None => None,
    }
}

fn sig_fixes_exec(d: &Doc, upgrade: bool) -> (r: Option<Vec<Fix>>)
    requires
        d.wf(),
    ensures
        match r {
            Some(v) => sig_fixes_from(d.text@, d.model(), upgrade, 0) == Some(fixes_view(v@)),
            None => sig_fixes_from(d.text@, d.model(), upgrade, 0) is None,
        },
{
    let ghost m = d.model();
    let ghost s = d.text@;
    let mut out: Vec<Fix> = Vec::new();
    let mut i: usize = 0;
    while i < d.nodes.len()
        invariant
            d.wf(),
            m == d.model(),
            s == d.text@,
            i <= d.nodes.len(),
            sig_fixes_from(s, m, upgrade, 0) == opt_prepend(fixes_view(out@), sig_fixes_from(s, m, upgrade, i as int)),
        decreases d.nodes.len() - i,
    {
        let ghost before = fixes_view(out@);
        if is_elem_str(&d.nodes[i], "Signature") {
            if upgrade {
                upgrade_exec(d, i, &mut out);
            } else {
                match downgrade_exec(d, i) {
                    None => {
                        assert(sig_fixes_from(s, m, upgrade, i as int) is None);
                        return None;
                    },
                    Some(mut f) => {
                        let ghost fv = fixes_view(f@);
                        out.append(&mut f);
                        assert(fixes_view(out@) =~= before + fv);
                    },
                }
            }
        }
        proof {
            match sig_fixes_from(s, m, upgrade, i + 1) {
                Some(rest) => {
                    assert(fixes_view(out@) + rest =~= before + (fixes_view(out@).skip(before.len() as int) + rest));
                },
                None => {},
            }
        }
        i = i + 1;
    }
    assert(fixes_view(out@) + Seq::<FixV>::empty() =~= fixes_view(out@));
    Some(out)
}

fn apply_in_turn_exec(s: Vec<char>, fs: &Vec<Fix>) -> (r: Option<Vec<char>>)
    ensures
        match r {
            Some(o) => apply_in_turn(s@, fixes_view(fs@)) == Some(o@),
            None => apply_in_turn(s@, fixes_view(fs@)) is None,
        },
{
    let ghost fv = fixes_view(fs@);
    let mut cur = s;
    let mut k: usize = 0;
    assert(fv.skip(0) =~= fv);
    while k < fs.len()
        invariant
            k <= fs.len(),
            fv == fixes_view(fs@),
            apply_in_turn(s@, fv) == apply_in_turn(cur@, fv.skip(k as int)),
        decreases fs.len() - k,
    {
        assert(fv.skip(k as int)[0] == fix_of(fs@[k as int]));
        assert(fv.skip(k as int).drop_first() =~= fv.skip(k + 1));
        let f = &fs[k];
        if !(f.start <= f.end && f.end <= cur.len()) {
            return None;
        }
        cur = splice_exec(&cur, f.start, f.end, &f.text);
        k = k + 1;
    }
    assert(fv.skip(k as int) =~= Seq::<FixV>::empty());
    Some(cur)
}

fn invalid_msg(msg: &str) -> (e: EditError)
    ensures
        e@ == ErrV::Invalid(msg@),
{
    EditError::Invalid(string_of(&chars_of(msg)))
}

/// [`convert_format`] on a parsed document.
pub fn convert_format_doc(d: &Doc, target: u32) -> (r: Result<String, EditError>)
    requires
        d.wf(),
    ensures
        text_result(r) == convert_on(d.text@, d.model(), target),
{
    let ghost m = d.model();
    let ghost s = d.text@;
    let p = match first_elem_exec(d, "Project") {
        None => return Err(invalid_msg("no <Project> element \u{2014} not a project file")),
        Some(p) => p,
    };
    let cur = match attr_value_str(&d.nodes[p], "FileFormat") {
        Some(v) => parse_u32_exec(v),
        None => None,
    };
    assert(cur == (match attr_val(m[p as int], "FileFormat"@) {
        Some(v) => parse_u32(v),
        None => None,
    }));
    let cur = match cur {
        None => return Err(invalid_msg("project <Project> has no numeric FileFormat attribute")),
        Some(c) => c,
    };
    if cur == target {
        return Ok(string_of(&d.text));
    }
    if !((cur == 10108 && target == 10109) || (cur == 10109 && target == 10108)) {
        let mut msg = chars_of("unsupported conversion ");
        push_all(&mut msg, &decimal_exec(cur as u64));
        push_str(&mut msg, " -> ");
        push_all(&mut msg, &decimal_exec(target as u64));
        push_str(&mut msg, ": only 10108 <-> 10109 is implemented (the delta for other formats is not yet known)");
        return Err(EditError::Invalid(string_of(&msg)));
    }
    let pv = if target == 10109 {
        chars_of("1.4.5.556")
    } else {
        chars_of("1.4.4.981")
    };
    let mut fixes: Vec<Fix> = Vec::new();
    let tv = decimal_exec(target as u64);
    assert(tv@ == decimal(target as nat));
    assert(pv@ == (if target == 10109 { "1.4.5.556"@ } else { "1.4.4.981"@ }));
    let ghost hspec = match set_or_insert(s, m, p as int, "FileFormat"@, decimal(target as nat)) {
        None => None,
        Some(f) => match first_elem_from(m, "MoTeCM1BuildSession"@, 0) {
            None => Some(seq![f]),
            Some(se) => match set_or_insert(s, m, se, "ProductVersion"@, pv@) {
                None => None,
                Some(g) => Some(seq![f, g]),
            },
        },
    };
    let bad = "malformed element: a tag the conversion needs is incomplete";
    match set_or_insert_exec(d, p, "FileFormat", &tv) {
        None => return Err(invalid_msg(bad)),
        Some(f) => push_fix(&mut fixes, f),
    }
    match first_elem_exec(d, "MoTeCM1BuildSession") {
        None => {},
        Some(se) => match set_or_insert_exec(d, se, "ProductVersion", &pv) {
            None => return Err(invalid_msg(bad)),
            Some(g) => push_fix(&mut fixes, g),
        },
    }
    let ghost head = fixes_view(fixes@);
    assert(hspec == Some(head));
    match sig_fixes_exec(d, target == 10109) {
        None => return Err(invalid_msg(bad)),
        Some(mut sf) => {
            let ghost sv = fixes_view(sf@);
            fixes.append(&mut sf);
            assert(fixes_view(fixes@) =~= head + sv);
        },
    }
    let ghost all = fixes@;
    let sorted = isort_exec(fixes);
    proof {
        lemma_sort_fixes_view(all);
    }
    let text = subvec(&d.text, 0, d.text.len());
    assert(text@ =~= s);
    assert(first_elem_from(m, "Project"@, 0) == Some(p as int));
    match apply_in_turn_exec(text, &sorted) {
        None => Err(invalid_msg("overlapping edits")),
        Some(o) => Ok(string_of(&o)),
    }
}

/// Convert a project to format `target`: a no-op at the current format; only
/// `10108 <-> 10109` is supported. The header's `FileFormat` and `ProductVersion`
/// and every `<Signature>` are rewritten, the fixes spliced in from the highest
/// offset down, so the rest of the text is untouched.
pub fn convert_format(xml: &str, target: u32) -> (r: Result<String, EditError>)
    ensures
        text_result(r) == convert_spec(xml@, target),
{
    let d = parse_doc(xml)?;
    convert_format_doc(&d, target)
}

/// Converting a project to the format it already has gives back the same text.
pub proof fn lemma_convert_to_own_format_is_identity(xml: Seq<char>, target: u32)
    ensures
        (match doc_model(xml) {
            Some(m) => file_format_of(m) == Some(target),
            None => false,
        }) ==> convert_spec(xml, target) == Ok::<Seq<char>, ErrV>(xml),
{
}

/// When a conversion is refused: no `<Project>`, or no numeric `FileFormat` on the
/// first one, or a pair of formats other than 10108 and 10109 (and not the file's
/// own format). An unparsable text is the parser's error.
pub proof fn lemma_convert_refusals(xml: Seq<char>, target: u32)
    ensures
        match doc_model(xml) {
            None => convert_spec(xml, target) == Err::<Seq<char>, ErrV>(parse_err(xml)),
            Some(m) => match first_elem_from(m, "Project"@, 0) {
                None => convert_spec(xml, target) matches Err(ErrV::Invalid(_)),
                Some(_) => match file_format_of(m) {
                    None => convert_spec(xml, target) matches Err(ErrV::Invalid(_)),
                    Some(cur) => cur != target && !((cur == 10108 && target == 10109) || (cur == 10109
                        && target == 10108)) ==> convert_spec(xml, target) == Err::<Seq<char>, ErrV>(
                        ErrV::Invalid(
                            "unsupported conversion "@ + decimal(cur as nat) + " -> "@ + decimal(target as nat)
                                + ": only 10108 <-> 10109 is implemented (the delta for other formats is not yet known)"@,
                        ),
                    ),
                },
            },
        },
{
}

} // verus!
