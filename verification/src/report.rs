//! What the command line prints and decides around the library calls: the text
//! and JSON renderings of findings, components and format reports, the checks
//! that need a file the front end has read (a script's body, a CAN database, the
//! `FileFormat` gate), and the choice among candidate files. The front end only
//! reads, writes and prints; every rule it applies is here.
use vstd::prelude::*;
use crate::EditError;
use crate::text::{
    chars_of, chars_of_string, string_of, push_str, push_all, is_blank, all_ws, has_prefix, repeat,
    push_repeat, starts_with_str, subvec,
};
use crate::edits::{decimal, decimal_exec, join_with, join_with_exec, last_segment, last_segment_exec};
use crate::props::view_all;
use crate::json::{json_string, json_string_spec};
use crate::validate::{
    Finding, FindingLevel, FindingV, findings_view, fv, mk_finding, DbcModule, validate_dbc_file,
    dbc_file_model,
};
use crate::query::{ComponentEntry, EntryV, entries_view, strs_view};
use crate::format::{
    FormatReport, ReportV, writers_summary_spec, known_writers_summary, file_format, file_format_of,
};
use crate::xml::{
    doc_model, parse_doc, parse_err, NodeV, attr_val, is_elem, last_of, attr_value_str, is_elem_str,
};
use crate::json::{normalise_version_part, normalise_version_part_spec};
use crate::query::{first_elem_from, opt_view};
use crate::edits::eq_ignore_ascii_case;
use crate::validate::eq_ic;
use crate::utf8pos::{byte_pos, char_width_exec, lemma_byte_pos_step, lemma_byte_pos_zero};
use crate::text::{find_seq, find_exec};

verus! {

// ---- findings as text ---------------------------------------------------------------

/// How a finding's level reads in the text report.
pub open spec fn level_label(l: FindingLevel) -> Seq<char> {
    match l {
        FindingLevel::Error => "ERROR"@,
        FindingLevel::Warning => "WARN"@,
    }
}

/// One finding in the text report: `LEVEL path: message`.
pub open spec fn finding_line(f: FindingV) -> Seq<char> {
    level_label(f.level) + " "@ + f.path + ": "@ + f.message
}

impl FindingLevel {
    /// `ERROR` or `WARN`, as the text report prints the level.
    pub fn label(&self) -> (r: &'static str)
        ensures
            r@ == level_label(*self),
    {
        match self {
            FindingLevel::Error => "ERROR",
            FindingLevel::Warning => "WARN",
        }
    }
}

impl Finding {
    /// The finding as the text report prints it: `LEVEL path: message`.
    pub fn display(&self) -> (r: String)
        ensures
            r@ == finding_line(self@),
    {
        let mut out: Vec<char> = Vec::new();
        push_str(&mut out, self.level.label());
        push_str(&mut out, " ");
        push_all(&mut out, &chars_of_string(&self.path));
        push_str(&mut out, ": ");
        push_all(&mut out, &chars_of_string(&self.message));
        string_of(&out)
    }
}

/// How many findings have level `l`.
pub open spec fn count_level_spec(s: Seq<FindingV>, l: FindingLevel) -> nat
    decreases s.len(),
{
    if s.len() == 0 {
        0
    } else {
        count_level_spec(s.drop_last(), l) + if s.last().level == l {
            1nat
        } else {
            0nat
        }
    }
}

proof fn lemma_count_level_bound(s: Seq<FindingV>, l: FindingLevel)
    ensures
        count_level_spec(s, l) <= s.len(),
    decreases s.len(),
{
    if s.len() > 0 {
        lemma_count_level_bound(s.drop_last(), l);
    }
}

/// The number of findings at `level`.
pub fn count_level(v: &Vec<Finding>, level: FindingLevel) -> (n: usize)
    ensures
        n == count_level_spec(findings_view(v@), level),
{
    let ghost s = findings_view(v@);
    let mut n: usize = 0;
    let mut i: usize = 0;
    while i < v.len()
        invariant
            i <= v.len(),
            s == findings_view(v@),
            n == count_level_spec(s.take(i as int), level),
            n <= i,
        decreases v.len() - i,
    {
        assert(s.take(i + 1).drop_last() =~= s.take(i as int));
        assert(s.take(i + 1).last() == v@[i as int]@);
        if v[i].level == level {
            n = n + 1;
        }
        i = i + 1;
    }
    assert(s.take(i as int) =~= s);
    n
}

/// The closing line of the text report.
pub open spec fn findings_summary(s: Seq<FindingV>) -> Seq<char> {
    decimal(s.len()) + " finding(s): "@ + decimal(count_level_spec(s, FindingLevel::Error))
        + " error(s), "@ + decimal(count_level_spec(s, FindingLevel::Warning)) + " warning(s)"@
}

/// Every finding on a line of its own.
pub open spec fn finding_lines(s: Seq<FindingV>) -> Seq<char>
    decreases s.len(),
{
    if s.len() == 0 {
        Seq::empty()
    } else {
        finding_lines(s.drop_last()) + finding_line(s.last()) + "\n"@
    }
}

/// The text report: one line per finding, then the count of findings, errors and
/// warnings.
pub open spec fn findings_text_spec(s: Seq<FindingV>) -> Seq<char> {
    finding_lines(s) + findings_summary(s) + "\n"@
}

/// The text report of `v`.
pub fn findings_text(v: &Vec<Finding>) -> (r: String)
    ensures
        r@ == findings_text_spec(findings_view(v@)),
{
    let ghost s = findings_view(v@);
    let mut out: Vec<char> = Vec::new();
    let mut i: usize = 0;
    while i < v.len()
        invariant
            i <= v.len(),
            s == findings_view(v@),
            out@ == finding_lines(s.take(i as int)),
        decreases v.len() - i,
    {
        assert(s.take(i + 1).drop_last() =~= s.take(i as int));
        assert(s.take(i + 1).last() == v@[i as int]@);
        let line = v[i].display();
        push_all(&mut out, &chars_of_string(&line));
        push_str(&mut out, "\n");
        i = i + 1;
    }
    assert(s.take(i as int) =~= s);
    let errors = count_level(v, FindingLevel::Error);
    let warnings = count_level(v, FindingLevel::Warning);
    proof {
        lemma_count_level_bound(s, FindingLevel::Error);
        lemma_count_level_bound(s, FindingLevel::Warning);
    }
    push_all(&mut out, &decimal_exec(v.len() as u64));
    push_str(&mut out, " finding(s): ");
    push_all(&mut out, &decimal_exec(errors as u64));
    push_str(&mut out, " error(s), ");
    push_all(&mut out, &decimal_exec(warnings as u64));
    push_str(&mut out, " warning(s)");
    push_str(&mut out, "\n");
    string_of(&out)
}

// ---- JSON arrays ------------------------------------------------------------------------

/// A JSON array with one item per line: `[`, the items separated by `,` line
/// ends, `]`, each line ended.
pub open spec fn json_rows(items: Seq<Seq<char>>) -> Seq<char> {
    "[\n"@ + (if items.len() == 0 {
        Seq::empty()
    } else {
        join_with(items, ",\n"@) + "\n"@
    }) + "]\n"@
}

fn json_rows_exec(items: &Vec<Vec<char>>) -> (r: String)
    ensures
        r@ == json_rows(view_all(items@)),
{
    let mut out: Vec<char> = Vec::new();
    push_str(&mut out, "[\n");
    if items.len() > 0 {
        push_all(&mut out, &join_with_exec(items, ",\n"));
        push_str(&mut out, "\n");
    }
    push_str(&mut out, "]\n");
    proof {
        if items.len() == 0 {
            assert(view_all(items@).len() == 0);
        }
    }
    string_of(&out)
}

fn json_chars(s: &str) -> (r: Vec<char>)
    ensures
        r@ == json_string_spec(s@),
{
    chars_of_string(&json_string(s))
}

/// A level as the JSON report writes it.
pub open spec fn level_word(l: FindingLevel) -> Seq<char> {
    match l {
        FindingLevel::Error => "error"@,
        FindingLevel::Warning => "warning"@,
    }
}

/// A finding's M1-Build error number as a bare JSON number, or `null`.
pub open spec fn code_json(c: Option<u32>) -> Seq<char> {
    match c {
        Some(n) => decimal(n as nat),
        None => "null"@,
    }
}

/// One finding as a JSON object on its own (indented) line.
pub open spec fn finding_json(f: FindingV) -> Seq<char> {
    "  {\"level\":"@ + json_string_spec(level_word(f.level)) + ",\"path\":"@ + json_string_spec(f.path)
        + ",\"message\":"@ + json_string_spec(f.message) + ",\"code\":"@ + code_json(f.code) + "}"@
}

fn finding_json_exec(f: &Finding) -> (r: Vec<char>)
    ensures
        r@ == finding_json(f@),
{
    let mut out: Vec<char> = Vec::new();
    push_str(&mut out, "  {\"level\":");
    let word = match f.level {
        FindingLevel::Error => "error",
        FindingLevel::Warning => "warning",
    };
    push_all(&mut out, &json_chars(word));
    push_str(&mut out, ",\"path\":");
    push_all(&mut out, &json_chars(f.path.as_str()));
    push_str(&mut out, ",\"message\":");
    push_all(&mut out, &json_chars(f.message.as_str()));
    push_str(&mut out, ",\"code\":");
    match f.code {
        Some(n) => push_all(&mut out, &decimal_exec(n as u64)),
        None => push_str(&mut out, "null"),
    }
    push_str(&mut out, "}");
    out
}

/// The JSON report: an array of `{level, path, message, code}` objects, one per
/// line.
pub fn findings_json(v: &Vec<Finding>) -> (r: String)
    ensures
        r@ == json_rows(findings_view(v@).map_values(|f: FindingV| finding_json(f))),
{
    let ghost s = findings_view(v@);
    let mut items: Vec<Vec<char>> = Vec::new();
    let mut i: usize = 0;
    while i < v.len()
        invariant
            i <= v.len(),
            s == findings_view(v@),
            view_all(items@) == s.map_values(|f: FindingV| finding_json(f)).take(i as int),
        decreases v.len() - i,
    {
        let ghost before = view_all(items@);
        items.push(finding_json_exec(&v[i]));
        assert(view_all(items@) =~= before.push(finding_json(s[i as int])));
        assert(view_all(items@) =~= s.map_values(|f: FindingV| finding_json(f)).take(i + 1));
        i = i + 1;
    }
    assert(s.map_values(|f: FindingV| finding_json(f)).take(i as int) =~= s.map_values(|f: FindingV| finding_json(f)));
    json_rows_exec(&items)
}

// ---- components -------------------------------------------------------------------------

/// An optional text as JSON: its string literal, or `null`.
pub open spec fn json_opt(o: Option<Seq<char>>) -> Seq<char> {
    match o {
        Some(x) => json_string_spec(x),
        None => "null"@,
    }
}

fn json_opt_exec(o: &Option<String>) -> (r: Vec<char>)
    ensures
        r@ == json_opt(crate::query::opt_view(*o)),
{
    match o {
        Some(x) => json_chars(x.as_str()),
        None => chars_of("null"),
    }
}

/// A list of texts as a one-line JSON array of string literals.
pub open spec fn json_strings(v: Seq<Seq<char>>) -> Seq<char> {
    "["@ + join_with(v.map_values(|x: Seq<char>| json_string_spec(x)), ","@) + "]"@
}

fn json_strings_exec(v: &Vec<String>) -> (r: Vec<char>)
    ensures
        r@ == json_strings(strs_view(v@)),
{
    let ghost sv = strs_view(v@);
    let mut items: Vec<Vec<char>> = Vec::new();
    let mut i: usize = 0;
    while i < v.len()
        invariant
            i <= v.len(),
            sv == strs_view(v@),
            view_all(items@) == sv.map_values(|x: Seq<char>| json_string_spec(x)).take(i as int),
        decreases v.len() - i,
    {
        let ghost before = view_all(items@);
        items.push(json_chars(v[i].as_str()));
        assert(view_all(items@) =~= before.push(json_string_spec(sv[i as int])));
        assert(view_all(items@) =~= sv.map_values(|x: Seq<char>| json_string_spec(x)).take(i + 1));
        i = i + 1;
    }
    assert(sv.map_values(|x: Seq<char>| json_string_spec(x)).take(i as int) =~= sv.map_values(
        |x: Seq<char>| json_string_spec(x),
    ));
    let mut out: Vec<char> = Vec::new();
    push_str(&mut out, "[");
    push_all(&mut out, &join_with_exec(&items, ","));
    push_str(&mut out, "]");
    out
}

/// A list of texts as a one-line JSON array (what `list-security --json` prints).
pub fn strings_json(v: &Vec<String>) -> (r: String)
    ensures
        r@ == json_strings(strs_view(v@)),
{
    string_of(&json_strings_exec(v))
}

/// One component as a JSON object on its own (indented) line.
pub open spec fn component_json(e: EntryV) -> Seq<char> {
    "  {\"path\":"@ + json_string_spec(e.path) + ",\"classname\":"@ + json_string_spec(e.classname)
        + ",\"type\":"@ + json_opt(e.ty) + ",\"unit\":"@ + json_opt(e.unit) + ",\"security\":"@
        + json_opt(e.security) + ",\"call_rate\":"@ + json_opt(e.call_rate) + ",\"qty\":"@ + json_opt(e.qty)
        + ",\"tags\":"@ + json_strings(e.tags) + ",\"comment\":"@ + json_opt(e.comment) + "}"@
}

fn component_json_exec(e: &ComponentEntry) -> (r: Vec<char>)
    ensures
        r@ == component_json(e@),
{
    let mut out: Vec<char> = Vec::new();
    push_str(&mut out, "  {\"path\":");
    push_all(&mut out, &json_chars(e.path.as_str()));
    push_str(&mut out, ",\"classname\":");
    push_all(&mut out, &json_chars(e.classname.as_str()));
    push_str(&mut out, ",\"type\":");
    push_all(&mut out, &json_opt_exec(&e.ty));
    push_str(&mut out, ",\"unit\":");
    push_all(&mut out, &json_opt_exec(&e.unit));
    push_str(&mut out, ",\"security\":");
    push_all(&mut out, &json_opt_exec(&e.security));
    push_str(&mut out, ",\"call_rate\":");
    push_all(&mut out, &json_opt_exec(&e.call_rate));
    push_str(&mut out, ",\"qty\":");
    push_all(&mut out, &json_opt_exec(&e.qty));
    push_str(&mut out, ",\"tags\":");
    push_all(&mut out, &json_strings_exec(&e.tags));
    push_str(&mut out, ",\"comment\":");
    push_all(&mut out, &json_opt_exec(&e.comment));
    push_str(&mut out, "}");
    out
}

/// The components as a JSON array, one object per line (what
/// `list-components --json` prints).
pub fn components_json(v: &Vec<ComponentEntry>) -> (r: String)
    ensures
        r@ == json_rows(entries_view(v@).map_values(|e: EntryV| component_json(e))),
{
    let ghost s = entries_view(v@);
    let mut items: Vec<Vec<char>> = Vec::new();
    let mut i: usize = 0;
    while i < v.len()
        invariant
            i <= v.len(),
            s == entries_view(v@),
            view_all(items@) == s.map_values(|e: EntryV| component_json(e)).take(i as int),
        decreases v.len() - i,
    {
        let ghost before = view_all(items@);
        items.push(component_json_exec(&v[i]));
        assert(view_all(items@) =~= before.push(component_json(s[i as int])));
        assert(view_all(items@) =~= s.map_values(|e: EntryV| component_json(e)).take(i + 1));
        i = i + 1;
    }
    assert(s.map_values(|e: EntryV| component_json(e)).take(i as int) =~= s.map_values(
        |e: EntryV| component_json(e),
    ));
    json_rows_exec(&items)
}

/// A classname without its `BuiltIn.` prefix.
pub open spec fn class_label(c: Seq<char>) -> Seq<char> {
    if has_prefix(c, "BuiltIn."@) {
        c.skip(8)
    } else {
        c
    }
}

/// `key=value` when the value is present.
pub open spec fn opt_prop(key: Seq<char>, v: Option<Seq<char>>) -> Seq<Seq<char>> {
    match v {
        Some(x) => seq![key + x],
        None => Seq::empty(),
    }
}

/// The bracketed facts of a component in the tree listing.
pub open spec fn entry_props(e: EntryV) -> Seq<Seq<char>> {
    seq![class_label(e.classname)] + opt_prop("type="@, e.ty) + opt_prop("unit="@, e.unit) + opt_prop(
        "security="@,
        e.security,
    ) + opt_prop("qty="@, e.qty) + if e.tags.len() == 0 {
        Seq::<Seq<char>>::empty()
    } else {
        seq!["tags="@ + join_with(e.tags, "+"@)]
    }
}

/// A component in the tree listing: indented two spaces per level, its last
/// segment, then its facts in brackets.
pub open spec fn component_line_spec(e: EntryV) -> Seq<char> {
    repeat("  "@, e.depth) + last_segment(e.path) + "  ["@ + join_with(entry_props(e), ", "@) + "]"@
}

fn push_prop(props: &mut Vec<Vec<char>>, key: &str, v: &Option<String>)
    ensures
        view_all(final(props)@) == view_all(old(props)@) + opt_prop(key@, crate::query::opt_view(*v)),
{
    let ghost before = view_all(props@);
    match v {
        Some(x) => {
            let mut p = chars_of(key);
            push_all(&mut p, &chars_of_string(x));
            props.push(p);
            assert(view_all(props@) =~= before + seq![key@ + x@]);
        },
        None => {
            assert(view_all(props@) =~= before + Seq::<Seq<char>>::empty());
        },
    }
}

impl ComponentEntry {
    /// The component's line in the tree listing (`list-components` without
    /// `--json`).
    pub fn tree_line(&self) -> (r: String)
        ensures
            r@ == component_line_spec(self@),
    {
        let cls = chars_of_string(&self.classname);
        let label = if starts_with_str(&cls, "BuiltIn.") {
            proof {
                reveal_strlit("BuiltIn.");
            }
            subvec(&cls, 8, cls.len())
        } else {
            subvec(&cls, 0, cls.len())
        };
        assert(label@ =~= class_label(self.classname@));
        let mut props: Vec<Vec<char>> = Vec::new();
        props.push(label);
        assert(view_all(props@) =~= seq![class_label(self.classname@)]);
        push_prop(&mut props, "type=", &self.ty);
        push_prop(&mut props, "unit=", &self.unit);
        push_prop(&mut props, "security=", &self.security);
        push_prop(&mut props, "qty=", &self.qty);
        if self.tags.len() > 0 {
            let ghost before = view_all(props@);
            let mut tags: Vec<Vec<char>> = Vec::new();
            let mut i: usize = 0;
            while i < self.tags.len()
                invariant
                    i <= self.tags.len(),
                    view_all(tags@) == strs_view(self.tags@).take(i as int),
                decreases self.tags.len() - i,
            {
                let ghost b = view_all(tags@);
                tags.push(chars_of_string(&self.tags[i]));
                assert(view_all(tags@) =~= b.push(self.tags@[i as int]@));
                assert(view_all(tags@) =~= strs_view(self.tags@).take(i + 1));
                i = i + 1;
            }
            assert(strs_view(self.tags@).take(i as int) =~= strs_view(self.tags@));
            let mut t = chars_of("tags=");
            push_all(&mut t, &join_with_exec(&tags, "+"));
            props.push(t);
            assert(view_all(props@) =~= before + seq!["tags="@ + join_with(strs_view(self.tags@), "+"@)]);
        }
        assert(view_all(props@) =~= entry_props(self@));
        let mut out: Vec<char> = Vec::new();
        let mut ind: Vec<char> = Vec::new();
        push_str(&mut ind, "  ");
        push_repeat(&mut out, &ind, self.depth);
        push_all(&mut out, &last_segment_exec(&chars_of_string(&self.path)));
        push_str(&mut out, "  [");
        push_all(&mut out, &join_with_exec(&props, ", "));
        push_str(&mut out, "]");
        string_of(&out)
    }
}

// ---- the format report --------------------------------------------------------------------

/// Who last wrote the project: product and version, the version alone, or
/// `(unknown)`.
pub open spec fn writer_spec(r: ReportV) -> Seq<char> {
    match (r.product_name, r.product_version) {
        (Some(n), Some(v)) => n + " "@ + v,
        (None, Some(v)) => v,
        _ => "(unknown)"@,
    }
}

/// What `format` prints without `--target`: the project, its `FileFormat`, who
/// last wrote it, its package target and the known format writers.
pub open spec fn format_report_text_spec(project: Seq<char>, r: ReportV) -> Seq<char> {
    project + "\n"@ + "  FileFormat:      "@ + match r.file_format {
        Some(f) => decimal(f as nat),
        None => "(none)"@,
    } + "\n"@ + "  Last written by: "@ + writer_spec(r) + "\n"@ + "  Package target:  "@ + match r.package_target {
        Some(t) => t,
        None => "(unknown)"@,
    } + "\n"@ + "  Known writers:   "@ + writers_summary_spec() + "\n"@
}

/// The format report of `project` (as the front end names the file) for `r`.
pub fn format_report_text(project: &str, r: &FormatReport) -> (t: String)
    ensures
        t@ == format_report_text_spec(project@, r@),
{
    let mut out: Vec<char> = Vec::new();
    push_str(&mut out, project);
    push_str(&mut out, "\n");
    push_str(&mut out, "  FileFormat:      ");
    match r.file_format {
        Some(f) => push_all(&mut out, &decimal_exec(f as u64)),
        None => push_str(&mut out, "(none)"),
    }
    push_str(&mut out, "\n");
    push_str(&mut out, "  Last written by: ");
    match (&r.product_name, &r.product_version) {
        (Some(n), Some(v)) => {
            push_all(&mut out, &chars_of_string(n));
            push_str(&mut out, " ");
            push_all(&mut out, &chars_of_string(v));
        },
        (None, Some(v)) => push_all(&mut out, &chars_of_string(v)),
        _ => push_str(&mut out, "(unknown)"),
    }
    push_str(&mut out, "\n");
    push_str(&mut out, "  Package target:  ");
    match &r.package_target {
        Some(t) => push_all(&mut out, &chars_of_string(t)),
        None => push_str(&mut out, "(unknown)"),
    }
    push_str(&mut out, "\n");
    push_str(&mut out, "  Known writers:   ");
    push_all(&mut out, &chars_of_string(&known_writers_summary()));
    push_str(&mut out, "\n");
    string_of(&out)
}

// ---- checks around the library calls -----------------------------------------------------

pub open spec fn opt_finding(o: Option<Finding>) -> Option<FindingV> {
    match o {
        Some(f) => Some(f@),
        None => None,
    }
}

/// The message of the `--max-format` gate.
pub open spec fn format_gate_message(cur: u32, max: u32) -> Seq<char> {
    "file format "@ + decimal(cur as nat) + " exceeds the maximum allowed "@ + decimal(max as nat)
        + " \u{2014} a newer M1-Build has migrated this project; downgrade it with `m1-project format --target "@
        + decimal(max as nat) + "`"@
}

/// The `--max-format` gate: an error on the project (named `project`) when its
/// `FileFormat` exceeds `max`, nothing when it does not or cannot be read.
pub open spec fn format_gate_spec(project: Seq<char>, xml: Seq<char>, max: u32) -> Option<FindingV> {
    let ff = match doc_model(xml) {
        Some(m) => file_format_of(m),
        None => None,
    };
    match ff {
        Some(cur) => if cur > max {
            Some(fv(FindingLevel::Error, project, format_gate_message(cur, max), None))
        } else {
            None
        },
        None => None,
    }
}

/// The finding of the `--max-format` gate for the project text `xml`.
pub fn format_gate_finding(project: &str, xml: &str, max_format: u32) -> (r: Option<Finding>)
    ensures
        opt_finding(r) == format_gate_spec(project@, xml@, max_format),
{
    match file_format(xml) {
        Some(cur) => if cur > max_format {
            let mut msg: Vec<char> = Vec::new();
            push_str(&mut msg, "file format ");
            push_all(&mut msg, &decimal_exec(cur as u64));
            push_str(&mut msg, " exceeds the maximum allowed ");
            push_all(&mut msg, &decimal_exec(max_format as u64));
            push_str(
                &mut msg,
                " \u{2014} a newer M1-Build has migrated this project; downgrade it with `m1-project format --target ",
            );
            push_all(&mut msg, &decimal_exec(max_format as u64));
            push_str(&mut msg, "`");
            Some(mk_finding(FindingLevel::Error, &chars_of(project), &msg, None))
        } else {
            None
        },
        None => None,
    }
}

/// `found` already reports an M1-Build 1648 finding on `path`.
pub open spec fn reported_1648(found: Seq<FindingV>, path: Seq<char>) -> bool {
    exists|j: int| 0 <= j < found.len() && found[j].code == Some(1648u32) && #[trigger] found[j].path == path
}

/// The findings of `extra` whose path carries no 1648 finding in `found`, in order.
pub open spec fn unreported(extra: Seq<FindingV>, found: Seq<FindingV>) -> Seq<FindingV>
    decreases extra.len(),
{
    if extra.len() == 0 {
        Seq::empty()
    } else {
        unreported(extra.drop_last(), found) + if reported_1648(found, extra.last().path) {
            Seq::<FindingV>::empty()
        } else {
            seq![extra.last()]
        }
    }
}

fn reported_1648_exec(found: &Vec<Finding>, path: &String) -> (b: bool)
    ensures
        b == reported_1648(findings_view(found@), path@),
{
    let ghost fs = findings_view(found@);
    let p = chars_of_string(path);
    let mut j: usize = 0;
    while j < found.len()
        invariant
            j <= found.len(),
            fs == findings_view(found@),
            p@ == path@,
            forall|q: int| 0 <= q < j ==> !(fs[q].code == Some(1648u32) && fs[q].path == path@),
        decreases found.len() - j,
    {
        if found[j].code == Some(1648u32) && crate::text::seq_eq(&chars_of_string(&found[j].path), &p) {
            assert(fs[j as int].path == path@);
            return true;
        }
        assert(fs[j as int] == found@[j as int]@);
        j = j + 1;
    }
    false
}

/// Add the known mandatory-tag warnings to `findings`, leaving out each one on a
/// path that already carries an M1-Build 1648 (assigned IO resource) finding.
pub fn add_mandatory_findings(findings: &mut Vec<Finding>, extra: Vec<Finding>)
    ensures
        findings_view(final(findings)@) == findings_view(old(findings)@) + unreported(
            findings_view(extra@),
            findings_view(old(findings)@),
        ),
{
    let ghost found = findings_view(findings@);
    let ghost ev = findings_view(extra@);
    let mut keep: Vec<bool> = Vec::new();
    let mut i: usize = 0;
    while i < extra.len()
        invariant
            i <= extra.len(),
            found == findings_view(findings@),
            ev == findings_view(extra@),
            keep@.len() == i,
            forall|q: int| 0 <= q < i ==> keep@[q] == !reported_1648(found, ev[q].path),
        decreases extra.len() - i,
    {
        let r = reported_1648_exec(findings, &extra[i].path);
        keep.push(!r);
        i = i + 1;
    }
    assert(ev.len() == extra.len());
    let mut rest = extra;
    let mut k: usize = 0;
    assert(ev.take(0) =~= Seq::<FindingV>::empty());
    assert(findings_view(findings@) =~= found + unreported(ev.take(0), found));
    while rest.len() > 0
        invariant
            k <= ev.len(),
            ev.len() <= usize::MAX,
            rest@.len() + k == ev.len(),
            findings_view(rest@) == ev.skip(k as int),
            keep@.len() == ev.len(),
            forall|q: int| 0 <= q < ev.len() ==> keep@[q] == !reported_1648(found, ev[q].path),
            findings_view(findings@) == found + unreported(ev.take(k as int), found),
        decreases rest.len(),
    {
        let ghost r0 = rest@;
        assert(findings_view(r0).len() == r0.len());
        assert(ev.skip(k as int).len() == r0.len());
        let f = rest.remove(0);
        proof {
            assert(rest@ =~= r0.subrange(1, r0.len() as int));
            assert(f@ == findings_view(r0)[0]);
            assert(f@ == ev[k as int]);
            assert forall|q: int| 0 <= q < rest@.len() implies findings_view(rest@)[q] == ev.skip(k + 1)[q] by {
                assert(rest@[q] == r0[q + 1]);
                assert(findings_view(r0)[q + 1] == ev.skip(k as int)[q + 1]);
            }
            assert(findings_view(rest@) =~= ev.skip(k + 1));
            assert(ev.take(k + 1).drop_last() =~= ev.take(k as int));
            assert(ev.take(k + 1).last() == f@);
        }
        let ghost before = findings_view(findings@);
        if keep[k] {
            findings.push(f);
            assert(findings_view(findings@) =~= before.push(f@));
            assert(findings_view(findings@) =~= found + unreported(ev.take(k + 1), found));
        } else {
            assert(findings_view(findings@) =~= found + unreported(ev.take(k + 1), found));
        }
        k = k + 1;
    }
    assert(ev.take(k as int) =~= ev);
}

/// M1-Build's "Missing code" (Error 1024) for a script whose backing file exists
/// and holds only whitespace.
pub open spec fn missing_code_spec(path: Seq<char>, filename: Seq<char>, body: Seq<char>) -> Option<FindingV> {
    if all_ws(body) {
        Some(
            fv(
                FindingLevel::Error,
                path,
                "missing code: backing script `"@ + filename + "` is empty"@,
                Some(1024u32),
            ),
        )
    } else {
        None
    }
}

/// The "Missing code" finding of a script component whose backing `.m1scr` the
/// front end has read as `body`; `None` when it holds code.
pub fn missing_code_finding(script: &crate::query::ScriptComponent, body: &str) -> (r: Option<Finding>)
    ensures
        opt_finding(r) == missing_code_spec(script.path@, script.filename@, body@),
{
    if is_blank(&chars_of(body)) {
        let mut msg: Vec<char> = Vec::new();
        push_str(&mut msg, "missing code: backing script `");
        push_all(&mut msg, &chars_of_string(&script.filename));
        push_str(&mut msg, "` is empty");
        Some(mk_finding(FindingLevel::Error, &chars_of_string(&script.path), &msg, Some(1024u32)))
    } else {
        None
    }
}

// ---- the encoding a project is written back in --------------------------------------------

/// How many leading characters of `s` fit in its first `n` bytes (scanning from
/// character `k`).
pub open spec fn head_chars(s: Seq<char>, n: int, k: int) -> int
    decreases s.len() - k,
{
    if 0 <= k < s.len() && byte_pos(s, k + 1) <= n {
        head_chars(s, n, k + 1)
    } else {
        k
    }
}

/// `s.to_ascii_lowercase()`.
pub open spec fn ascii_lower(s: Seq<char>) -> Seq<char> {
    s.map_values(|c: char| if 'A' <= c && c <= 'Z' { ((c as u32) + 32) as char } else { c })
}

/// The XML declaration within the first 256 bytes names UTF-8 (`encoding="utf-8"`
/// or `encoding='utf-8'`, in any ASCII case): only then is the project written back
/// as UTF-8 rather than MoTeC's Windows-1252.
pub open spec fn declares_utf8_spec(s: Seq<char>) -> bool {
    let h = s.take(head_chars(s, 256, 0));
    match find_seq(h, "?>"@) {
        Some(e) => {
            let d = ascii_lower(h.take(e));
            find_seq(d, "encoding=\"utf-8\""@) is Some || find_seq(d, "encoding='utf-8'"@) is Some
        },
        None => false,
    }
}

/// Whether the project's XML declaration asks for UTF-8; MoTeC otherwise reads its
/// files as Windows-1252. Only the first 256 bytes are looked at, cut back to a
/// character boundary.
pub fn declares_utf8(xml: &str) -> (b: bool)
    ensures
        b == declares_utf8_spec(xml@),
{
    let v = chars_of(xml);
    let mut k: usize = 0;
    let mut bytes: usize = 0;
    proof {
        lemma_byte_pos_zero(v@);
    }
    while k < v.len() && bytes + char_width_exec(v[k]) <= 256
        invariant
            k <= v.len(),
            bytes == byte_pos(v@, k as int),
            bytes <= 256,
            head_chars(v@, 256, 0) == head_chars(v@, 256, k as int),
        decreases v.len() - k,
    {
        proof {
            lemma_byte_pos_step(v@, k as int);
        }
        bytes = bytes + char_width_exec(v[k]);
        k = k + 1;
    }
    proof {
        if k < v.len() {
            lemma_byte_pos_step(v@, k as int);
        }
    }
    let head = subvec(&v, 0, k);
    assert(head@ =~= xml@.take(head_chars(xml@, 256, 0)));
    let close = chars_of("?>");
    match find_exec(&head, &close) {
        Some(e) => {
            proof {
                crate::xml::lemma_find_bounds(head@, "?>"@, 0);
            }
            let mut d: Vec<char> = Vec::new();
            let mut i: usize = 0;
            while i < e
                invariant
                    i <= e,
                    e <= head@.len(),
                    d@ == ascii_lower(head@.take(e as int)).take(i as int),
                decreases e - i,
            {
                let c = head[i];
                let l = if 'A' <= c && c <= 'Z' {
                    let b = c as u8;
                    assert(b as u32 == c as u32);
                    (b + 32) as char
                } else {
                    c
                };
                let ghost before = d@;
                d.push(l);
                assert(d@ =~= ascii_lower(head@.take(e as int)).take(i + 1));
                i = i + 1;
            }
            assert(d@ =~= ascii_lower(head@.take(e as int)));
            let dq = chars_of("encoding=\"utf-8\"");
            let sq = chars_of("encoding='utf-8'");
            find_exec(&d, &dq).is_some() || find_exec(&d, &sq).is_some()
        },
        None => false,
    }
}

// ---- the module files a project selects -----------------------------------------------

/// The `.m1mod` file a `<SelectedModuleSets><File>` element names:
/// `Name.Major.Minor.Build.m1mod` with the version parts' leading zeros dropped;
/// `None` when one of the four attributes is missing.
pub open spec fn module_file_name(n: NodeV) -> Option<Seq<char>> {
    match (
        attr_val(n, "Name"@),
        attr_val(n, "VersionMajor"@),
        attr_val(n, "VersionMinor"@),
        attr_val(n, "VersionBuild"@),
    ) {
        (Some(a), Some(b), Some(c), Some(d)) => Some(
            a + "."@ + normalise_version_part_spec(b) + "."@ + normalise_version_part_spec(c) + "."@
                + normalise_version_part_spec(d) + ".m1mod"@,
        ),
        _ => None,
    }
}

/// The module files named by the `<File>` children of `sets` among nodes `i..hi`.
pub open spec fn module_files_from(m: Seq<NodeV>, sets: int, i: int, hi: int) -> Seq<Seq<char>>
    decreases hi - i,
{
    if i < 0 || i >= hi || i >= m.len() {
        Seq::empty()
    } else {
        let rest = module_files_from(m, sets, i + 1, hi);
        if m[i].parent == Some(sets as usize) && is_elem(m[i], "File"@) && module_file_name(m[i]) is Some {
            seq![module_file_name(m[i]).unwrap()] + rest
        } else {
            rest
        }
    }
}

/// The module files the project's first `<SelectedModuleSets>` selects, in order.
pub open spec fn selected_module_files_spec(m: Seq<NodeV>) -> Seq<Seq<char>> {
    match first_elem_from(m, "SelectedModuleSets"@, 0) {
        Some(sets) => module_files_from(m, sets, sets + 1, last_of(m, sets) + 1),
        None => Seq::empty(),
    }
}

fn module_file_name_exec(n: &crate::xml::XmlNode) -> (r: Option<String>)
    ensures
        opt_view(r) == module_file_name(n@),
{
    match (
        attr_value_str(n, "Name"),
        attr_value_str(n, "VersionMajor"),
        attr_value_str(n, "VersionMinor"),
        attr_value_str(n, "VersionBuild"),
    ) {
        (Some(a), Some(b), Some(c), Some(d)) => {
            let mut out: Vec<char> = Vec::new();
            push_all(&mut out, a);
            push_str(&mut out, ".");
            push_str(&mut out, normalise_version_part(string_of(b).as_str()));
            push_str(&mut out, ".");
            push_str(&mut out, normalise_version_part(string_of(c).as_str()));
            push_str(&mut out, ".");
            push_str(&mut out, normalise_version_part(string_of(d).as_str()));
            push_str(&mut out, ".m1mod");
            Some(string_of(&out))
        },
        _ => None,
    }
}

/// The `.m1mod` files the project selects (`<SelectedModuleSets><File Name
/// VersionMajor VersionMinor VersionBuild>`), each as `Name.Major.Minor.Build.m1mod`.
pub fn selected_module_files(xml: &str) -> (r: Result<Vec<String>, EditError>)
    ensures
        r matches Ok(v) ==> doc_model(xml@) matches Some(m) && strs_view(v@) == selected_module_files_spec(m),
        r matches Err(e) ==> doc_model(xml@) is None && e@ == parse_err(xml@),
{
    let d = parse_doc(xml)?;
    let ghost m = d.model();
    let mut out: Vec<String> = Vec::new();
    match crate::format::first_elem_exec(&d, "SelectedModuleSets") {
        None => {
            assert(strs_view(out@) =~= selected_module_files_spec(m));
        },
        Some(sets) => {
            assert(crate::xml::node_wf(m, sets as int, d.text@.len() as int));
            let last = d.nodes[sets].last.unwrap();
            let mut i: usize = sets + 1;
            while i <= last
                invariant
                    sets < i <= last + 1,
                    last < d.nodes.len(),
                    m == d.model(),
                    last == last_of(m, sets as int),
                    module_files_from(m, sets as int, sets + 1, last + 1) == strs_view(out@)
                        + module_files_from(m, sets as int, i as int, last + 1),
                decreases last + 1 - i,
            {
                let n = &d.nodes[i];
                let ghost before = strs_view(out@);
                if n.parent == Some(sets) && is_elem_str(n, "File") {
                    match module_file_name_exec(n) {
                        Some(f) => {
                            out.push(f);
                            assert(strs_view(out@) =~= before.push(module_file_name(m[i as int]).unwrap()));
                            assert(strs_view(out@) + module_files_from(m, sets as int, i + 1, last + 1)
                                =~= before + module_files_from(m, sets as int, i as int, last + 1));
                        },
                        None => {},
                    }
                }
                i = i + 1;
            }
            assert(module_files_from(m, sets as int, i as int, last + 1) =~= Seq::<Seq<char>>::empty());
            assert(strs_view(out@) =~= selected_module_files_spec(m));
        },
    }
    Ok(out)
}

// ---- locating a DBC module's CAN database ---------------------------------------------

/// Node `n` is the `BuiltIn.CAN.DBC` component of `module`, with the expected MD5
/// (in any ASCII case) when one is given.
pub open spec fn dbc_node_matches(n: NodeV, module: Seq<char>, md5: Option<Seq<char>>) -> bool {
    &&& attr_val(n, "Classname"@) == Some("BuiltIn.CAN.DBC"@)
    &&& attr_val(n, "Name"@) == Some(module)
    &&& match md5 {
        None => true,
        Some(e) => match attr_val(n, "MD5"@) {
            Some(a) => eq_ignore_ascii_case(a, e),
            None => false,
        },
    }
}

pub open spec fn dbc_match_from(m: Seq<NodeV>, module: Seq<char>, md5: Option<Seq<char>>, i: int) -> bool
    decreases m.len() - i,
{
    if i < 0 || i >= m.len() {
        false
    } else {
        dbc_node_matches(m[i], module, md5) || dbc_match_from(m, module, md5, i + 1)
    }
}

/// A candidate `.m1dbc` text is the database the DBC module imported: it parses,
/// and one of its nodes is that module's `BuiltIn.CAN.DBC` component.
pub open spec fn dbc_text_matches_spec(text: Seq<char>, module: Seq<char>, md5: Option<Seq<char>>) -> bool {
    match doc_model(text) {
        Some(m) => dbc_match_from(m, module, md5, 0),
        None => false,
    }
}

/// Whether a same-named candidate file's text identifies the database imported by
/// `module` (used only to choose among several candidates).
pub fn dbc_text_matches_import(text: &str, module: &DbcModule) -> (b: bool)
    ensures
        b == dbc_text_matches_spec(text@, module.module@, opt_view(module.md5)),
{
    let d = match parse_doc(text) {
        Ok(d) => d,
        Err(_) => return false,
    };
    let ghost m = d.model();
    let want = chars_of_string(&module.module);
    let md5 = match &module.md5 {
        Some(e) => Some(chars_of_string(e)),
        None => None,
    };
    let mut i: usize = 0;
    while i < d.nodes.len()
        invariant
            i <= d.nodes.len(),
            m == d.model(),
            doc_model(text@) == Some(m),
            want@ == module.module@,
            md5 matches Some(e) ==> module.md5 matches Some(x) && e@ == x@,
            md5 is None ==> module.md5 is None,
            dbc_match_from(m, module.module@, opt_view(module.md5), 0) == dbc_match_from(
                m,
                module.module@,
                opt_view(module.md5),
                i as int,
            ),
        decreases d.nodes.len() - i,
    {
        let n = &d.nodes[i];
        let cls_ok = match attr_value_str(n, "Classname") {
            Some(c) => crate::text::eq_str(c, "BuiltIn.CAN.DBC"),
            None => false,
        };
        let name_ok = match attr_value_str(n, "Name") {
            Some(x) => crate::text::seq_eq(x, &want),
            None => false,
        };
        let md5_ok = match &md5 {
            None => true,
            Some(e) => match attr_value_str(n, "MD5") {
                Some(a) => eq_ic(a, e),
                None => false,
            },
        };
        if cls_ok && name_ok && md5_ok {
            assert(dbc_node_matches(m[i as int], module.module@, opt_view(module.md5)));
            assert(dbc_match_from(m, module.module@, opt_view(module.md5), i as int));
            return true;
        }
        i = i + 1;
    }
    false
}

/// Indices as integers.
pub open spec fn as_ints(v: Seq<usize>) -> Seq<int> {
    v.map_values(|x: usize| x as int)
}

/// The positions of the `true` flags, in order.
pub open spec fn flagged(b: Seq<bool>) -> Seq<int>
    decreases b.len(),
{
    if b.len() == 0 {
        Seq::empty()
    } else {
        flagged(b.drop_last()) + if b.last() {
            seq![b.len() - 1]
        } else {
            Seq::<int>::empty()
        }
    }
}

/// The positions of `pool` whose flag is set, in order.
pub open spec fn flagged_in(pool: Seq<int>, b: Seq<bool>) -> Seq<int>
    decreases pool.len(),
{
    if pool.len() == 0 {
        Seq::empty()
    } else {
        flagged_in(pool.drop_last(), b) + if b[pool.last()] {
            seq![pool.last()]
        } else {
            Seq::<int>::empty()
        }
    }
}

/// The candidates a DBC module is looked for among: those inside the project's
/// own directory when there are any, else all of them.
pub open spec fn dbc_pool(local: Seq<bool>) -> Seq<int> {
    if flagged(local).len() > 0 {
        flagged(local)
    } else {
        Seq::new(local.len(), |i: int| i)
    }
}

/// Which candidate file holds a DBC module's database: the only one of the pool,
/// else the only one of the pool that matches the import; otherwise the pool
/// itself, for the error.
pub open spec fn pick_dbc_spec(local: Seq<bool>, matches: Seq<bool>) -> Result<int, Seq<int>> {
    let pool = dbc_pool(local);
    if pool.len() == 1 {
        Ok(pool[0])
    } else if flagged_in(pool, matches).len() == 1 {
        Ok(flagged_in(pool, matches)[0])
    } else {
        Err(pool)
    }
}

proof fn lemma_flagged_bound(b: Seq<bool>)
    ensures
        forall|k: int| 0 <= k < flagged(b).len() ==> 0 <= #[trigger] flagged(b)[k] < b.len(),
        flagged(b).len() <= b.len(),
    decreases b.len(),
{
    if b.len() > 0 {
        lemma_flagged_bound(b.drop_last());
    }
}

proof fn lemma_flagged_in_bound(pool: Seq<int>, b: Seq<bool>)
    ensures
        forall|k: int| 0 <= k < flagged_in(pool, b).len() ==> exists|j: int|
            0 <= j < pool.len() && pool[j] == #[trigger] flagged_in(pool, b)[k],
        flagged_in(pool, b).len() <= pool.len(),
    decreases pool.len(),
{
    if pool.len() > 0 {
        lemma_flagged_in_bound(pool.drop_last(), b);
        let r = flagged_in(pool, b);
        let p = flagged_in(pool.drop_last(), b);
        assert forall|k: int| 0 <= k < r.len() implies exists|j: int|
            0 <= j < pool.len() && pool[j] == #[trigger] r[k] by {
            if k < p.len() {
                let j = choose|j: int| 0 <= j < pool.drop_last().len() && pool.drop_last()[j] == p[k];
                assert(pool[j] == r[k]);
            } else {
                assert(pool[pool.len() - 1] == r[k]);
            }
        }
    }
}

fn flagged_exec(b: &Vec<bool>) -> (r: Vec<usize>)
    ensures
        as_ints(r@) == flagged(b@),
{
    let mut r: Vec<usize> = Vec::new();
    let mut i: usize = 0;
    assert(b@.take(0) =~= Seq::<bool>::empty());
    while i < b.len()
        invariant
            i <= b.len(),
            as_ints(r@) == flagged(b@.take(i as int)),
        decreases b.len() - i,
    {
        let ghost before = as_ints(r@);
        assert(b@.take(i + 1).drop_last() =~= b@.take(i as int));
        if b[i] {
            r.push(i);
        }
        assert(as_ints(r@) =~= flagged(b@.take(i + 1)));
        i = i + 1;
    }
    assert(b@.take(i as int) =~= b@);
    r
}

/// Choose the file of a DBC module among its same-named candidates, given which
/// of them lie in the project's directory (`local`) and which identify the
/// imported database (`matches`): `Ok` with the chosen candidate, or `Err` with
/// the candidates considered when none or several remain.
pub fn pick_dbc_candidate(local: &Vec<bool>, matches: &Vec<bool>) -> (r: Result<usize, Vec<usize>>)
    requires
        local.len() == matches.len(),
    ensures
        match r {
            Ok(i) => pick_dbc_spec(local@, matches@) == Ok::<int, Seq<int>>(i as int),
            Err(p) => pick_dbc_spec(local@, matches@) == Err::<int, Seq<int>>(as_ints(p@)),
        },
{
    let loc = flagged_exec(local);
    proof {
        lemma_flagged_bound(local@);
    }
    let pool: Vec<usize> = if loc.len() > 0 {
        loc
    } else {
        let mut all: Vec<usize> = Vec::new();
        let mut i: usize = 0;
        while i < local.len()
            invariant
                i <= local.len(),
                all@.len() == i,
                as_ints(all@) == Seq::new(i as nat, |k: int| k),
            decreases local.len() - i,
        {
            let ghost before = all@;
            all.push(i);
            assert forall|k: int| 0 <= k < i + 1 implies #[trigger] as_ints(all@)[k]
                == k by {
                if k < i {
                    assert(all@[k] == before[k]);
                    assert(as_ints(before)[k] == k);
                }
            }
            assert(as_ints(all@) =~= Seq::new((i + 1) as nat, |k: int| k));
            i = i + 1;
        }
        all
    };
    let ghost pv = as_ints(pool@);
    assert(pv == dbc_pool(local@));
    assert(forall|k: int| 0 <= k < pv.len() ==> 0 <= #[trigger] pv[k] < local@.len());
    if pool.len() == 1 {
        return Ok(pool[0]);
    }
    let mut hits: Vec<usize> = Vec::new();
    let mut j: usize = 0;
    assert(pv.take(0) =~= Seq::<int>::empty());
    while j < pool.len()
        invariant
            j <= pool.len(),
            pv == as_ints(pool@),
            local.len() == matches.len(),
            forall|k: int| 0 <= k < pv.len() ==> 0 <= #[trigger] pv[k] < local@.len(),
            as_ints(hits@) == flagged_in(pv.take(j as int), matches@),
        decreases pool.len() - j,
    {
        let ghost before = as_ints(hits@);
        assert(pv.take(j + 1).drop_last() =~= pv.take(j as int));
        assert(pv.take(j + 1).last() == pool@[j as int] as int);
        assert(0 <= pv[j as int] < local@.len());
        if matches[pool[j]] {
            hits.push(pool[j]);
        }
        assert(as_ints(hits@) =~= flagged_in(pv.take(j + 1), matches@));
        j = j + 1;
    }
    assert(pv.take(j as int) =~= pv);
    if hits.len() == 1 {
        Ok(hits[0])
    } else {
        Err(pool)
    }
}

/// The finding for a DBC module whose file cannot be picked: no candidate under
/// `root`, or the names of the candidates that remained.
pub open spec fn dbc_unlocated_spec(name: Seq<char>, module: Seq<char>, root: Seq<char>, candidates: Seq<Seq<char>>) -> FindingV {
    fv(
        FindingLevel::Error,
        name,
        "DBC module file `"@ + module + ".m1dbc` cannot be located unambiguously: "@ + if candidates.len() == 0 {
            "no matching file was found under `"@ + root + "`"@
        } else {
            "the candidates are "@ + join_with(candidates, ", "@)
        },
        None,
    )
}

/// The error for a DBC module whose `.m1dbc` cannot be located unambiguously.
pub fn dbc_unlocated_finding(m: &DbcModule, root: &str, candidates: &Vec<String>) -> (f: Finding)
    ensures
        f@ == dbc_unlocated_spec(m.name@, m.module@, root@, strs_view(candidates@)),
{
    let mut msg: Vec<char> = Vec::new();
    push_str(&mut msg, "DBC module file `");
    push_all(&mut msg, &chars_of_string(&m.module));
    push_str(&mut msg, ".m1dbc` cannot be located unambiguously: ");
    if candidates.len() == 0 {
        push_str(&mut msg, "no matching file was found under `");
        push_str(&mut msg, root);
        push_str(&mut msg, "`");
    } else {
        let mut names: Vec<Vec<char>> = Vec::new();
        let mut i: usize = 0;
        while i < candidates.len()
            invariant
                i <= candidates.len(),
                view_all(names@) == strs_view(candidates@).take(i as int),
            decreases candidates.len() - i,
        {
            let ghost b = view_all(names@);
            names.push(chars_of_string(&candidates[i]));
            assert(view_all(names@) =~= b.push(candidates@[i as int]@));
            assert(view_all(names@) =~= strs_view(candidates@).take(i + 1));
            i = i + 1;
        }
        assert(strs_view(candidates@).take(i as int) =~= strs_view(candidates@));
        push_str(&mut msg, "the candidates are ");
        push_all(&mut msg, &join_with_exec(&names, ", "));
    }
    let ghost head = "DBC module file `"@ + m.module@ + ".m1dbc` cannot be located unambiguously: "@;
    assert(msg@ =~= head + if strs_view(candidates@).len() == 0 {
        "no matching file was found under `"@ + root@ + "`"@
    } else {
        "the candidates are "@ + join_with(strs_view(candidates@), ", "@)
    });
    mk_finding(FindingLevel::Error, &chars_of_string(&m.name), &msg, None)
}

/// The findings for the `.m1dbc` file chosen for a DBC module and shown as
/// `display`: the file's own checks when it was read and parses, else one error
/// that it is unreadable or not well-formed.
pub open spec fn dbc_file_findings_spec(
    name: Seq<char>,
    module: Seq<char>,
    md5: Option<Seq<char>>,
    display: Seq<char>,
    body: Option<Seq<char>>,
) -> Seq<FindingV> {
    match body {
        None => seq![
            fv(
                FindingLevel::Error,
                name,
                "DBC module file `"@ + display + "` is unreadable \u{2014} M1-Build cannot load the CAN database"@,
                None,
            ),
        ],
        Some(text) => match doc_model(text) {
            Some(m) => dbc_file_model(m, name, module, md5, module, display),
            None => seq![
                fv(FindingLevel::Error, name, "DBC module file `"@ + display + "` is not well-formed XML"@, None),
            ],
        },
    }
}

/// Check the `.m1dbc` file chosen for DBC module `m` (its text `body` when it
/// could be read). The file was found by the module's name, so its stem is the
/// module.
pub fn dbc_file_findings(m: &DbcModule, display: &str, body: Option<&str>) -> (r: Vec<Finding>)
    ensures
        findings_view(r@) == dbc_file_findings_spec(
            m.name@,
            m.module@,
            opt_view(m.md5),
            display@,
            match body {
                Some(t) => Some(t@),
                None => None,
            },
        ),
{
    let name = chars_of_string(&m.name);
    match body {
        None => {
            let mut msg: Vec<char> = Vec::new();
            push_str(&mut msg, "DBC module file `");
            push_str(&mut msg, display);
            push_str(&mut msg, "` is unreadable \u{2014} M1-Build cannot load the CAN database");
            let mut out: Vec<Finding> = Vec::new();
            out.push(mk_finding(FindingLevel::Error, &name, &msg, None));
            assert(findings_view(out@) =~= seq![fv(FindingLevel::Error, m.name@, msg@, None)]);
            out
        },
        Some(text) => {
            let md5 = match &m.md5 {
                Some(e) => Some(e.as_str()),
                None => None,
            };
            match validate_dbc_file(text, m.name.as_str(), m.module.as_str(), md5, m.module.as_str(), display) {
                Ok(fs) => {
                    assert(opt_view(m.md5) == match md5 {
                        Some(e) => Some(e@),
                        None => None::<Seq<char>>,
                    });
                    fs
                },
                Err(_) => {
                    let mut msg: Vec<char> = Vec::new();
                    push_str(&mut msg, "DBC module file `");
                    push_str(&mut msg, display);
                    push_str(&mut msg, "` is not well-formed XML");
                    let mut out: Vec<Finding> = Vec::new();
                    out.push(mk_finding(FindingLevel::Error, &name, &msg, None));
                    assert(findings_view(out@) =~= seq![fv(FindingLevel::Error, m.name@, msg@, None)]);
                    out
                },
            }
        },
    }
}

// ---- renaming backing scripts -----------------------------------------------------------

pub open spec fn renames_view(v: Seq<crate::edits::ScriptRename>) -> Seq<(Seq<char>, Seq<char>)> {
    v.map_values(|r: crate::edits::ScriptRename| (r.old@, r.new@))
}

/// An earlier rename whose source moves has the same destination as rename `i`.
pub open spec fn dest_taken(r: Seq<(Seq<char>, Seq<char>)>, moving: Seq<bool>, i: int) -> bool {
    exists|j: int| 0 <= j < i && moving[j] && #[trigger] r[j].1 == r[i].1
}

/// The first rename, from `i` on, that would destroy a file: its source moves and
/// its destination is another moving rename's (`true`) or an existing, different
/// file (`false`).
pub open spec fn rename_conflict_from(
    r: Seq<(Seq<char>, Seq<char>)>,
    moving: Seq<bool>,
    occupied: Seq<bool>,
    i: int,
) -> Option<(int, bool)>
    decreases r.len() - i,
{
    if i < 0 || i >= r.len() {
        None
    } else if !moving[i] {
        rename_conflict_from(r, moving, occupied, i + 1)
    } else if dest_taken(r, moving, i) {
        Some((i, true))
    } else if occupied[i] {
        Some((i, false))
    } else {
        rename_conflict_from(r, moving, occupied, i + 1)
    }
}

/// Check a plan of backing-script renames before any file moves: for each rename,
/// whether its source exists (`moving`) and whether its destination is taken by a
/// different existing file (`occupied`). Gives the first rename that would
/// overwrite a file — `true` when two renames share its destination — or `None`
/// when the plan is safe.
pub fn rename_conflict(renames: &Vec<crate::edits::ScriptRename>, moving: &Vec<bool>, occupied: &Vec<bool>) -> (r:
    Option<(usize, bool)>)
    requires
        moving.len() == renames.len(),
        occupied.len() == renames.len(),
    ensures
        match r {
            Some((i, dup)) => rename_conflict_from(renames_view(renames@), moving@, occupied@, 0) == Some(
                (i as int, dup),
            ),
            None => rename_conflict_from(renames_view(renames@), moving@, occupied@, 0) is None,
        },
{
    let ghost rv = renames_view(renames@);
    let mut i: usize = 0;
    while i < renames.len()
        invariant
            i <= renames.len(),
            moving.len() == renames.len(),
            occupied.len() == renames.len(),
            rv == renames_view(renames@),
            rename_conflict_from(rv, moving@, occupied@, 0) == rename_conflict_from(
                rv,
                moving@,
                occupied@,
                i as int,
            ),
        decreases renames.len() - i,
    {
        if moving[i] {
            let dest = chars_of_string(&renames[i].new);
            let mut j: usize = 0;
            let mut dup = false;
            while j < i
                invariant
                    j <= i < renames.len(),
                    moving.len() == renames.len(),
                    rv == renames_view(renames@),
                    dest@ == rv[i as int].1,
                    dup == exists|q: int| 0 <= q < j && moving@[q] && #[trigger] rv[q].1 == rv[i as int].1,
                decreases i - j,
            {
                if moving[j] && crate::text::seq_eq(&chars_of_string(&renames[j].new), &dest) {
                    assert(rv[j as int].1 == rv[i as int].1);
                    dup = true;
                }
                proof {
                    if moving@[j as int] && rv[j as int].1 == rv[i as int].1 {
                        assert(dup);
                    }
                }
                j = j + 1;
            }
            assert(dup == dest_taken(rv, moving@, i as int));
            if dup {
                return Some((i, true));
            }
            if occupied[i] {
                return Some((i, false));
            }
        }
        i = i + 1;
    }
    None
}

} // verus!
