//! The mutating verbs: `create_*`, `delete_component`, `rename_component`, the
//! `set_*` property edits and their value/name validators. Every edit is a pure
//! `&str -> Result<String, EditError>` computed on the parsed document model.
use vstd::prelude::*;
use crate::{EditError, ErrV, text_result, chars_result};
use crate::text::{
    chars_of, string_of, push_str, push_all, push_range, subvec, seq_eq, eq_str, starts_with_str,
    ends_with_str, find_exec, rfind_char, rfind_seq, find_seq, has_prefix, has_suffix, count_char,
    count_char_exec, repeat, push_repeat, trim, trim_exec, all_ws, is_blank, escape, escape_exec, escape_char,
    match_at, find_char, splice,
};
use crate::xml::{Doc, NodeV, doc_model, parse_doc, parse_err, find_component, attr_val};
use crate::props::{
    set_props_attr_spec, set_props_attr, set_default_attr_spec, set_default_attr,
    remove_props_attr_spec, remove_props_attr, add_tag_spec, add_tag_doc, remove_tag_spec,
    remove_tag_doc, inside_component, lemma_set_props_attr_inside, lemma_set_default_attr_inside,
    default_frame, default_value_range, lemma_default_frame,
    lemma_add_tag_inside,
};

verus! {

/// A backing-script file to rename on disk after [`rename_component`]: paths
/// relative to the project's `Scripts/` directory.
#[derive(Debug, Clone, PartialEq, Eq)]
pub struct ScriptRename {
    pub old: String,
    pub new: String,
}

// ---- value validators ------------------------------------------------------------

/// A security group the project accepts: one its `<SecurityMgr><SecurityRoles>`
/// declares, or, when it declares none, one of the four standard MoTeC groups.
pub open spec fn security_ok(m: Seq<NodeV>, s: Seq<char>) -> bool {
    crate::query::security_groups_spec(m).contains(s)
}

/// The storage primitives a channel/parameter may declare.
pub open spec fn is_storage_type(t: Seq<char>) -> bool {
    t == "bool"@ || t == "u8"@ || t == "u16"@ || t == "u32"@ || t == "s8"@ || t == "s16"@ || t
        == "s32"@ || t == "f32"@ || t == "f64"@
}

/// An enum reference: optionally `::`-prefixed, then a dotted name whose every
/// segment is non-empty (`::This.Foo`, `MoTeC Types.Bar`).
pub open spec fn is_enum_ref(t: Seq<char>) -> bool {
    let b = if has_prefix(t, "::"@) {
        t.skip(2)
    } else {
        t
    };
    &&& b.len() > 0
    &&& b[0] != '.'
    &&& b.last() != '.'
    &&& find_seq(b, seq!['.']) is Some
    &&& find_seq(b, seq!['.', '.']) is None
}

pub open spec fn type_ok(t: Seq<char>) -> bool {
    is_storage_type(t) || is_enum_ref(t)
}

pub open spec fn security_error(m: Seq<NodeV>, s: Seq<char>) -> ErrV {
    ErrV::Invalid(
        "unknown security level `"@ + s + "`; valid: "@ + join_with(crate::query::security_groups_spec(m), ", "@),
    )
}

pub open spec fn type_error(t: Seq<char>) -> ErrV {
    ErrV::Invalid(
        "unknown type `"@ + t + "`; valid primitives: bool, u8, u16, u32, s8, s16, s32, f32, f64"@,
    )
}

/// The MoTeC security levels, in increasing order of restriction.
pub fn security_levels() -> (r: Vec<&'static str>)
    ensures
        r@.map_values(|x: &str| x@) == seq!["Tune"@, "Calibration"@, "Master Calibration"@, "Resource"@],
{
    let mut r: Vec<&'static str> = Vec::new();
    r.push("Tune");
    r.push("Calibration");
    r.push("Master Calibration");
    r.push("Resource");
    assert(r@.map_values(|x: &str| x@) =~= seq!["Tune"@, "Calibration"@, "Master Calibration"@, "Resource"@]);
    r
}

/// The storage primitives a channel/parameter may declare.
pub fn storage_types() -> (r: Vec<&'static str>)
    ensures
        r@.map_values(|x: &str| x@) == seq![
            "bool"@,
            "u8"@,
            "u16"@,
            "u32"@,
            "s8"@,
            "s16"@,
            "s32"@,
            "f32"@,
            "f64"@,
        ],
{
    let mut r: Vec<&'static str> = Vec::new();
    r.push("bool");
    r.push("u8");
    r.push("u16");
    r.push("u32");
    r.push("s8");
    r.push("s16");
    r.push("s32");
    r.push("f32");
    r.push("f64");
    assert(r@.map_values(|x: &str| x@) =~= seq![
        "bool"@,
        "u8"@,
        "u16"@,
        "u32"@,
        "s8"@,
        "s16"@,
        "s32"@,
        "f32"@,
        "f64"@,
    ]);
    r
}

fn invalid(msg: &str) -> (e: EditError)
    ensures
        e@ == ErrV::Invalid(msg@),
{
    let v = chars_of(msg);
    EditError::Invalid(string_of(&v))
}

/// Accept a security group the project accepts (see [`security_ok`]).
pub fn validate_security(d: &Doc, s: &str) -> (r: Result<(), EditError>)
    requires
        d.wf(),
    ensures
        r is Ok <==> security_ok(d.model(), s@),
        r matches Err(e) ==> e@ == security_error(d.model(), s@),
{
    let v = chars_of(s);
    let groups = crate::query::security_groups_of(d);
    if crate::props::contains_tag(&groups, &v) {
        Ok(())
    } else {
        let mut msg: Vec<char> = Vec::new();
        push_str(&mut msg, "unknown security level `");
        push_all(&mut msg, &v);
        push_str(&mut msg, "`; valid: ");
        push_all(&mut msg, &join_with_exec(&groups, ", "));
        Err(EditError::Invalid(string_of(&msg)))
    }
}

fn is_enum_ref_exec(t: &Vec<char>) -> (b: bool)
    ensures
        b == is_enum_ref(t@),
{
    let b = if starts_with_str(t, "::") {
        proof {
            reveal_strlit("::");
        }
        subvec(t, 2, t.len())
    } else {
        subvec(t, 0, t.len())
    };
    assert(b@ =~= (if has_prefix(t@, "::"@) { t@.skip(2) } else { t@ }));
    if b.len() == 0 || b[0] == '.' || b[b.len() - 1] == '.' {
        return false;
    }
    let dot = find_char(&b, '.');
    let mut dd: Vec<char> = Vec::new();
    dd.push('.');
    dd.push('.');
    assert(dd@ =~= seq!['.', '.']);
    let two = find_exec(&b, &dd);
    dot.is_some() && two.is_none()
}

/// Accept a storage primitive or a well-formed enum reference.
pub fn validate_type(t: &str) -> (r: Result<(), EditError>)
    ensures
        r is Ok <==> type_ok(t@),
        r matches Err(e) ==> e@ == type_error(t@),
{
    let v = chars_of(t);
    let prim = eq_str(&v, "bool") || eq_str(&v, "u8") || eq_str(&v, "u16") || eq_str(&v, "u32")
        || eq_str(&v, "s8") || eq_str(&v, "s16") || eq_str(&v, "s32") || eq_str(&v, "f32")
        || eq_str(&v, "f64");
    if prim || is_enum_ref_exec(&v) {
        Ok(())
    } else {
        let mut msg: Vec<char> = Vec::new();
        push_str(&mut msg, "unknown type `");
        push_all(&mut msg, &v);
        push_str(&mut msg, "`; valid primitives: bool, u8, u16, u32, s8, s16, s32, f32, f64");
        Err(EditError::Invalid(string_of(&msg)))
    }
}

/// The part of a dotted name after its last dot (the whole name without dots).
pub open spec fn last_segment(name: Seq<char>) -> Seq<char> {
    match rfind_seq(name, seq!['.']) {
        Some(i) => name.skip(i + 1),
        None => name,
    }
}

/// The parent path of a dotted name (`Root.A.B` -> `Root.A`), `None` for one segment.
pub open spec fn parent_of(name: Seq<char>) -> Option<Seq<char>> {
    match rfind_seq(name, seq!['.']) {
        Some(i) => Some(name.take(i)),
        None => None,
    }
}

pub fn last_segment_exec(name: &Vec<char>) -> (r: Vec<char>)
    ensures
        r@ == last_segment(name@),
{
    proof {
        crate::xml::lemma_rfind_bounds(name@, seq!['.'], name@.len() - 1);
    }
    match rfind_char(name, '.') {
        Some(i) => {
            assert(seq!['.'].len() == 1);
            assert(match_at(name@, seq!['.'], i as int));
            assert(i + 1 <= name@.len());
            assert(name@.len() == name.len());
            let r = subvec(name, i + 1, name.len());
            assert(r@ =~= name@.skip(i + 1));
            r
        },
        None => subvec(name, 0, name.len()),
    }
}

pub fn parent_of_exec(name: &Vec<char>) -> (r: Option<Vec<char>>)
    ensures
        r matches Some(p) ==> parent_of(name@) == Some(p@),
        r is None ==> parent_of(name@) is None,
{
    proof {
        crate::xml::lemma_rfind_bounds(name@, seq!['.'], name@.len() - 1);
    }
    match rfind_char(name, '.') {
        Some(i) => {
            let r = subvec(name, 0, i);
            assert(r@ =~= name@.take(i as int));
            Some(r)
        },
        None => None,
    }
}

pub open spec fn name_segment_error(name: Seq<char>) -> Option<ErrV> {
    if name.len() == 0 {
        Some(ErrV::Invalid("name must not be empty"@))
    } else if last_segment(name).len() == 0 {
        Some(ErrV::Invalid("name must not end with a dot"@))
    } else {
        None
    }
}

/// A component name is usable when it is non-empty and its last dot-segment (the
/// new component's own name) is non-empty.
pub fn validate_name_segment(name: &str) -> (r: Result<(), EditError>)
    ensures
        r is Ok <==> name_segment_error(name@) is None,
        r matches Err(e) ==> Some(e@) == name_segment_error(name@),
{
    let v = chars_of(name);
    if v.len() == 0 {
        return Err(invalid("name must not be empty"));
    }
    let seg = last_segment_exec(&v);
    if seg.len() == 0 {
        return Err(invalid("name must not end with a dot"));
    }
    Ok(())
}

/// The conventional backing-script path: the name without a leading `Root.`, plus
/// `.m1scr`.
pub open spec fn script_relpath_spec(name: Seq<char>) -> Seq<char> {
    (if has_prefix(name, "Root."@) {
        name.skip(5)
    } else {
        name
    }) + ".m1scr"@
}

pub fn script_relpath_chars(name: &Vec<char>) -> (r: Vec<char>)
    ensures
        r@ == script_relpath_spec(name@),
{
    let mut r = if starts_with_str(name, "Root.") {
        proof {
            reveal_strlit("Root.");
        }
        subvec(name, 5, name.len())
    } else {
        subvec(name, 0, name.len())
    };
    assert(r@ =~= (if has_prefix(name@, "Root."@) { name@.skip(5) } else { name@ }));
    push_str(&mut r, ".m1scr");
    r
}

/// The backing-script path of a script component
/// (`Root.Control.Drive State.Update` -> `Control.Drive State.Update.m1scr`).
pub fn script_relpath(name: &str) -> (r: String)
    ensures
        r@ == script_relpath_spec(name@),
{
    let v = chars_of(name);
    let r = script_relpath_chars(&v);
    string_of(&r)
}

// ---- parsing and re-parsing --------------------------------------------------------

/// Parse a text held as characters.
pub fn parse_chars(v: &Vec<char>) -> (res: Result<Doc, EditError>)
    ensures
        res matches Ok(d) ==> doc_model(v@) == Some(d.model()) && d.text@ == v@ && d.wf(),
        res is Err ==> doc_model(v@) is None,
        res matches Err(e) ==> e@ == parse_err(v@),
{
    let s = string_of(v);
    parse_doc(s.as_str())
}

/// Run one document step on `xml`: parse errors first, then `step` on the model.
pub open spec fn on_doc(xml: Seq<char>, r: spec_fn(Seq<NodeV>) -> Result<Seq<char>, ErrV>) -> Result<
    Seq<char>,
    ErrV,
> {
    match doc_model(xml) {
        None => Err(parse_err(xml)),
        Some(m) => r(m),
    }
}

pub fn finish(r: Result<Vec<char>, EditError>) -> (out: Result<String, EditError>)
    ensures
        text_result(out) == chars_result(r),
{
    match r {
        Ok(v) => Ok(string_of(&v)),
        Err(e) => Err(e),
    }
}

// ---- property setters ------------------------------------------------------------

pub open spec fn set_security_spec(xml: Seq<char>, comp: Seq<char>, sec: Seq<char>) -> Result<
    Seq<char>,
    ErrV,
> {
    on_doc(xml, |m: Seq<NodeV>| set_security_on(xml, m, comp, sec))
}

/// `set_security` on a document: a group the project accepts, set on the
/// component's `<Props>`.
pub open spec fn set_security_on(s: Seq<char>, m: Seq<NodeV>, comp: Seq<char>, sec: Seq<char>) -> Result<
    Seq<char>,
    ErrV,
> {
    if !security_ok(m, sec) {
        Err(security_error(m, sec))
    } else {
        set_props_attr_spec(s, m, comp, "Security"@, sec)
    }
}

/// On a component that exists, `set_security` succeeds exactly for the groups
/// [`crate::security_groups`] lists, and refuses every other group naming the
/// valid ones.
pub proof fn lemma_set_security_accepts_listed_groups(xml: Seq<char>, comp: Seq<char>, sec: Seq<char>)
    requires
        doc_model(xml) matches Some(m) && find_component(m, comp) is Some,
    ensures
        (set_security_spec(xml, comp, sec) is Ok) == crate::query::security_groups_spec(doc_model(xml).unwrap()).contains(sec),
        !crate::query::security_groups_spec(doc_model(xml).unwrap()).contains(sec) ==> set_security_spec(xml, comp, sec)
            == Err::<Seq<char>, ErrV>(security_error(doc_model(xml).unwrap(), sec)),
{
    let m = doc_model(xml).unwrap();
    crate::props::lemma_set_props_attr_ok(xml, m, comp, "Security"@, sec);
}

/// Set (or replace) a component's `<Props Security="…">` to a security group the
/// project accepts (the groups [`crate::security_groups`] lists).
pub fn set_security(xml: &str, component: &str, security: &str) -> (r: Result<String, EditError>)
    ensures
        text_result(r) == set_security_spec(xml@, component@, security@),
{
    let d = parse_doc(xml)?;
    set_security_doc(&d, component, security)
}

/// [`set_security`] on a parsed document.
pub fn set_security_doc(d: &Doc, component: &str, security: &str) -> (r: Result<String, EditError>)
    requires
        d.wf(),
    ensures
        text_result(r) == set_security_on(d.text@, d.model(), component@, security@),
{
    match validate_security(d, security) {
        Err(e) => return Err(e),
        Ok(()) => {},
    }
    let c = chars_of(component);
    let v = chars_of(security);
    finish(set_props_attr(d, &c, "Security", &v))
}

pub open spec fn set_type_spec(xml: Seq<char>, comp: Seq<char>, ty: Seq<char>) -> Result<
    Seq<char>,
    ErrV,
> {
    if !type_ok(ty) {
        Err(type_error(ty))
    } else {
        on_doc(xml, |m: Seq<NodeV>| set_props_attr_spec(xml, m, comp, "Type"@, ty))
    }
}

/// Set (or replace) a component's storage `<Props Type="…">`.
pub fn set_type(xml: &str, component: &str, ty: &str) -> (r: Result<String, EditError>)
    ensures
        text_result(r) == set_type_spec(xml@, component@, ty@),
{
    match validate_type(ty) {
        Err(e) => return Err(e),
        Ok(()) => {},
    }
    let d = parse_doc(xml)?;
    let c = chars_of(component);
    let v = chars_of(ty);
    finish(set_props_attr(&d, &c, "Type", &v))
}

pub open spec fn set_quantity_spec(xml: Seq<char>, comp: Seq<char>, qty: Seq<char>) -> Result<
    Seq<char>,
    ErrV,
> {
    if all_ws(qty) {
        Err(ErrV::Invalid("quantity must not be empty"@))
    } else {
        on_doc(xml, |m: Seq<NodeV>| set_props_attr_spec(xml, m, comp, "Qty"@, qty))
    }
}

/// Set (or replace) a component's physical quantity (`<Props Qty="…">`).
pub fn set_quantity(xml: &str, component: &str, qty: &str) -> (r: Result<String, EditError>)
    ensures
        text_result(r) == set_quantity_spec(xml@, component@, qty@),
{
    let v = chars_of(qty);
    if is_blank(&v) {
        return Err(invalid("quantity must not be empty"));
    }
    let d = parse_doc(xml)?;
    let c = chars_of(component);
    finish(set_props_attr(&d, &c, "Qty", &v))
}

pub open spec fn set_unit_spec(xml: Seq<char>, comp: Seq<char>, unit: Seq<char>) -> Result<
    Seq<char>,
    ErrV,
> {
    if all_ws(unit) {
        Err(ErrV::Invalid("unit must not be empty"@))
    } else {
        on_doc(xml, |m: Seq<NodeV>| set_default_attr_spec(xml, m, comp, "Unit"@, unit))
    }
}

/// Set (or replace) a component's display unit (`<Props><Locale><Default Unit>`).
/// An empty or whitespace-only unit is refused.
pub fn set_unit(xml: &str, component: &str, unit: &str) -> (r: Result<String, EditError>)
    ensures
        text_result(r) == set_unit_spec(xml@, component@, unit@),
{
    let v = chars_of(unit);
    if is_blank(&v) {
        return Err(invalid("unit must not be empty"));
    }
    let d = parse_doc(xml)?;
    let c = chars_of(component);
    finish(set_default_attr(&d, &c, "Unit", &v))
}

pub open spec fn set_format_spec(xml: Seq<char>, comp: Seq<char>, format: Seq<char>) -> Result<
    Seq<char>,
    ErrV,
> {
    if all_ws(format) {
        Err(ErrV::Invalid("format must not be empty"@))
    } else {
        on_doc(xml, |m: Seq<NodeV>| set_default_attr_spec(xml, m, comp, "Format"@, format))
    }
}

/// Set (or replace) a component's display format (`<Default Format>`).
pub fn set_format(xml: &str, component: &str, format: &str) -> (r: Result<String, EditError>)
    ensures
        text_result(r) == set_format_spec(xml@, component@, format@),
{
    let v = chars_of(format);
    if is_blank(&v) {
        return Err(invalid("format must not be empty"));
    }
    let d = parse_doc(xml)?;
    let c = chars_of(component);
    finish(set_default_attr(&d, &c, "Format", &v))
}

/// Decimal digits of `n`, most significant first.
pub open spec fn decimal(n: nat) -> Seq<char>
    decreases n,
{
    if n < 10 {
        seq![digit(n)]
    } else {
        decimal(n / 10) + seq![digit(n % 10)]
    }
}

pub open spec fn digit(d: nat) -> char {
    if d == 0 {
        '0'
    } else if d == 1 {
        '1'
    } else if d == 2 {
        '2'
    } else if d == 3 {
        '3'
    } else if d == 4 {
        '4'
    } else if d == 5 {
        '5'
    } else if d == 6 {
        '6'
    } else if d == 7 {
        '7'
    } else if d == 8 {
        '8'
    } else {
        '9'
    }
}

fn digit_exec(d: u64) -> (c: char)
    requires
        d < 10,
    ensures
        c == digit(d as nat),
{
    if d == 0 {
        '0'
    } else if d == 1 {
        '1'
    } else if d == 2 {
        '2'
    } else if d == 3 {
        '3'
    } else if d == 4 {
        '4'
    } else if d == 5 {
        '5'
    } else if d == 6 {
        '6'
    } else if d == 7 {
        '7'
    } else if d == 8 {
        '8'
    } else {
        '9'
    }
}

/// The decimal text of `n` (`u32::to_string`).
pub fn decimal_exec(n: u64) -> (r: Vec<char>)
    ensures
        r@ == decimal(n as nat),
    decreases n,
{
    if n < 10 {
        let mut r: Vec<char> = Vec::new();
        r.push(digit_exec(n));
        assert(r@ =~= seq![digit(n as nat)]);
        r
    } else {
        let mut r = decimal_exec(n / 10);
        r.push(digit_exec(n % 10));
        r
    }
}

pub open spec fn set_dps_spec(xml: Seq<char>, comp: Seq<char>, dps: nat) -> Result<Seq<char>, ErrV> {
    on_doc(xml, |m: Seq<NodeV>| set_default_attr_spec(xml, m, comp, "DPS"@, decimal(dps)))
}

/// Set (or replace) a component's decimal places (`<Default DPS>`).
pub fn set_dps(xml: &str, component: &str, dps: u32) -> (r: Result<String, EditError>)
    ensures
        text_result(r) == set_dps_spec(xml@, component@, dps as nat),
{
    let v = decimal_exec(dps as u64);
    let d = parse_doc(xml)?;
    let c = chars_of(component);
    finish(set_default_attr(&d, &c, "DPS", &v))
}

proof fn lemma_escape_decimal(n: nat)
    ensures
        escape(decimal(n)) == decimal(n),
    decreases n,
{
    let d = decimal(n);
    let c = digit(n % 10);
    assert(escape_char(c) == seq![c]);
    if n < 10 {
        assert(d == seq![c]);
        assert(d.drop_last() =~= Seq::<char>::empty());
        assert(escape(d.drop_last()) =~= Seq::<char>::empty());
        assert(escape(d) =~= d);
    } else {
        lemma_escape_decimal(n / 10);
        assert(d.drop_last() =~= decimal(n / 10));
        assert(d.last() == c);
        assert(escape(d) =~= d);
    }
}

/// Setting a component's decimal places twice gives what setting the second value
/// once gives. The second call parses the first one's result; the law holds where
/// the parser reads that text with the component's `DPS` where the first call wrote
/// it (between the two parts of [`default_frame`]).
#[verifier::rlimit(40)]
pub proof fn lemma_set_dps_twice(xml: Seq<char>, comp: Seq<char>, d1: nat, d2: nat)
    requires
        doc_model(xml) matches Some(m) && default_frame(xml, m, comp, "DPS"@) matches Some(pq) && doc_model(
            pq.0 + decimal(d1) + pq.1,
        ) matches Some(m2) && default_value_range(m2, comp, "DPS"@) == Some(
            (pq.0.len() as int, (pq.0.len() + decimal(d1).len()) as int),
        ),
    ensures
        set_dps_spec(xml, comp, d1) matches Ok(y) && set_dps_spec(y, comp, d2) == set_dps_spec(xml, comp, d2),
{
    let m = doc_model(xml).unwrap();
    let pq = default_frame(xml, m, comp, "DPS"@).unwrap();
    let v1 = decimal(d1);
    let v2 = decimal(d2);
    lemma_default_frame(xml, m, comp, "DPS"@, v1);
    lemma_default_frame(xml, m, comp, "DPS"@, v2);
    lemma_escape_decimal(d1);
    lemma_escape_decimal(d2);
    let y = pq.0 + v1 + pq.1;
    assert(set_dps_spec(xml, comp, d1) == Ok::<Seq<char>, ErrV>(y));
    assert(set_dps_spec(xml, comp, d2) == Ok::<Seq<char>, ErrV>(pq.0 + v2 + pq.1));
    let m2 = doc_model(y).unwrap();
    let k = pq.0.len() as int;
    assert(set_default_attr_spec(y, m2, comp, "DPS"@, v2) == Ok::<Seq<char>, ErrV>(splice(y, k, k + v1.len(), v2)));
    assert(y.take(k) =~= pq.0);
    assert(y.skip(k + v1.len()) =~= pq.1);
}

pub open spec fn set_display_range_spec(xml: Seq<char>, comp: Seq<char>, min: Seq<char>, max: Seq<char>) -> Result<
    Seq<char>,
    ErrV,
> {
    match on_doc(xml, |m: Seq<NodeV>| set_default_attr_spec(xml, m, comp, "Min"@, min)) {
        Err(e) => Err(e),
        Ok(x1) => on_doc(x1, |m: Seq<NodeV>| set_default_attr_spec(x1, m, comp, "Max"@, max)),
    }
}

/// Write a component's display `Min` then `Max` (`<Default Min=… Max=…>`) from
/// already-formatted bound texts; the second edit runs on the re-parsed result of
/// the first. Formatting and ordering the numeric bounds is the caller's part.
pub fn set_display_range_text(xml: &str, component: &str, min: &str, max: &str) -> (r: Result<
    String,
    EditError,
>)
    ensures
        text_result(r) == set_display_range_spec(xml@, component@, min@, max@),
{
    let d = parse_doc(xml)?;
    let c = chars_of(component);
    let lo = chars_of(min);
    let hi = chars_of(max);
    let x1 = set_default_attr(&d, &c, "Min", &lo)?;
    let d1 = parse_chars(&x1)?;
    finish(set_default_attr(&d1, &c, "Max", &hi))
}

pub open spec fn set_validation_spec(
    xml: Seq<char>,
    comp: Seq<char>,
    kind: Seq<char>,
    min: Option<Seq<char>>,
    max: Option<Seq<char>>,
) -> Result<Seq<char>, ErrV> {
    if kind == "None"@ || kind == "none"@ {
        match on_doc(xml, |m: Seq<NodeV>| remove_props_attr_spec(xml, m, comp, "Validation"@)) {
            Err(e) => Err(e),
            Ok(x1) => match on_doc(x1, |m: Seq<NodeV>| remove_props_attr_spec(x1, m, comp, "ValMin"@)) {
                Err(e) => Err(e),
                Ok(x2) => on_doc(x2, |m: Seq<NodeV>| remove_props_attr_spec(x2, m, comp, "ValMax"@)),
            },
        }
    } else if kind == "MinMax"@ {
        match (min, max) {
            (Some(lo), Some(hi)) => match on_doc(
                xml,
                |m: Seq<NodeV>| set_props_attr_spec(xml, m, comp, "ValMax"@, hi),
            ) {
                Err(e) => Err(e),
                Ok(x1) => match on_doc(
                    x1,
                    |m: Seq<NodeV>| set_props_attr_spec(x1, m, comp, "ValMin"@, lo),
                ) {
                    Err(e) => Err(e),
                    Ok(x2) => on_doc(
                        x2,
                        |m: Seq<NodeV>| set_props_attr_spec(x2, m, comp, "Validation"@, "MinMax"@),
                    ),
                },
            },
            _ => Err(ErrV::Invalid("MinMax validation needs --min and --max"@)),
        }
    } else {
        Err(ErrV::Invalid("unknown validation type `"@ + kind + "`; valid: MinMax, None"@))
    }
}

/// Set or clear a value component's *Validation* from already-formatted bound
/// texts: `None`/`none` removes `Validation`, `ValMin`, `ValMax`; `MinMax` needs
/// both bounds and writes `ValMax`, `ValMin`, `Validation` in turn (each freshly
/// added attribute lands first, so the three read `Validation ValMin ValMax`).
/// Each step runs on the re-parsed result of the previous one. Checking that the
/// numeric bounds are ordered is the caller's part.
pub fn set_validation_text(
    xml: &str,
    component: &str,
    kind: &str,
    min: Option<&str>,
    max: Option<&str>,
) -> (r: Result<String, EditError>)
    ensures
        text_result(r) == set_validation_spec(
            xml@,
            component@,
            kind@,
            match min {
                Some(x) => Some(x@),
                None => None,
            },
            match max {
                Some(x) => Some(x@),
                None => None,
            },
        ),
{
    let k = chars_of(kind);
    let c = chars_of(component);
    if eq_str(&k, "None") || eq_str(&k, "none") {
        let d = parse_doc(xml)?;
        let x1 = remove_props_attr(&d, &c, "Validation")?;
        let d1 = parse_chars(&x1)?;
        let x2 = remove_props_attr(&d1, &c, "ValMin")?;
        let d2 = parse_chars(&x2)?;
        finish(remove_props_attr(&d2, &c, "ValMax"))
    } else if eq_str(&k, "MinMax") {
        match (min, max) {
            (Some(lo), Some(hi)) => {
                let lo = chars_of(lo);
                let hi = chars_of(hi);
                let d = parse_doc(xml)?;
                let x1 = set_props_attr(&d, &c, "ValMax", &hi)?;
                let d1 = parse_chars(&x1)?;
                let x2 = set_props_attr(&d1, &c, "ValMin", &lo)?;
                let d2 = parse_chars(&x2)?;
                let mm = chars_of("MinMax");
                finish(set_props_attr(&d2, &c, "Validation", &mm))
            },
            _ => Err(invalid("MinMax validation needs --min and --max")),
        }
    } else {
        let mut msg: Vec<char> = Vec::new();
        push_str(&mut msg, "unknown validation type `");
        push_all(&mut msg, &k);
        push_str(&mut msg, "`; valid: MinMax, None");
        Err(EditError::Invalid(string_of(&msg)))
    }
}

// ---- user tags -------------------------------------------------------------------------

pub open spec fn add_tag_public(xml: Seq<char>, comp: Seq<char>, tag: Seq<char>) -> Result<
    Seq<char>,
    ErrV,
> {
    if all_ws(tag) {
        Err(ErrV::Invalid("tag must not be empty"@))
    } else {
        on_doc(xml, |m: Seq<NodeV>| add_tag_spec(xml, m, comp, tag))
    }
}

/// Add a user tag (`<Props><List.UserTags><Entry Value="tag"/>`); idempotent.
pub fn add_tag(xml: &str, component: &str, tag: &str) -> (r: Result<String, EditError>)
    ensures
        text_result(r) == add_tag_public(xml@, component@, tag@),
{
    let t = chars_of(tag);
    if is_blank(&t) {
        return Err(invalid("tag must not be empty"));
    }
    let d = parse_doc(xml)?;
    let c = chars_of(component);
    finish(add_tag_doc(&d, &c, &t))
}

/// Remove a user tag; refused when the component does not carry it.
pub fn remove_tag(xml: &str, component: &str, tag: &str) -> (r: Result<String, EditError>)
    ensures
        text_result(r) == on_doc(xml@, |m: Seq<NodeV>| remove_tag_spec(xml@, m, component@, tag@)),
{
    let d = parse_doc(xml)?;
    let c = chars_of(component);
    let t = chars_of(tag);
    finish(remove_tag_doc(&d, &c, &t))
}

// ---- call rate -------------------------------------------------------------------------

/// The ASCII-lowercased code of a character.
pub open spec fn lower_code(c: char) -> u32 {
    if 'A' <= c && c <= 'Z' {
        (c as u32 + 32) as u32
    } else {
        c as u32
    }
}

/// `a.eq_ignore_ascii_case(b)`.
pub open spec fn eq_ignore_ascii_case(a: Seq<char>, b: Seq<char>) -> bool {
    a.len() == b.len() && forall|i: int| 0 <= i < a.len() ==> lower_code(a[i]) == lower_code(b[i])
}

/// `s.trim_end_matches("Hz")`.
pub open spec fn strip_hz(s: Seq<char>) -> Seq<char>
    decreases s.len(),
{
    if s.len() >= 2 && has_suffix(s, "Hz"@) {
        strip_hz(s.take(s.len() - 2))
    } else {
        s
    }
}

pub open spec fn digits_or_dots(s: Seq<char>) -> bool {
    forall|i: int| 0 <= i < s.len() ==> ('0' <= #[trigger] s[i] && s[i] <= '9') || s[i] == '.'
}

/// The clock leaf a rate names: `On Startup` for `startup` (any ASCII case), else
/// `On <N>Hz` for a number `N` (digits and dots, an optional `Hz` suffix and
/// surrounding whitespace are allowed).
pub open spec fn rate_leaf(rate: Seq<char>) -> Result<Seq<char>, ErrV> {
    if eq_ignore_ascii_case(rate, "startup"@) {
        Ok("On Startup"@)
    } else {
        let n = trim(strip_hz(trim(rate)));
        if n.len() == 0 || !digits_or_dots(n) {
            Err(ErrV::Invalid("rate must be `startup` or a number in Hz, got `"@ + rate + "`"@))
        } else {
            Ok("On "@ + n + "Hz"@)
        }
    }
}

/// A class that can be scheduled: a `FuncUser` (but not a parametric
/// `FuncUserParam`, which is called rather than scheduled) or a `MethodUser`.
pub open spec fn schedulable(class: Seq<char>) -> bool {
    (find_seq(class, "FuncUser"@) is Some && find_seq(class, "FuncUserParam"@) is None) || find_seq(
        class,
        "MethodUser"@,
    ) is Some
}

/// `segs.join(sep)`.
pub open spec fn join_with(segs: Seq<Seq<char>>, sep: Seq<char>) -> Seq<char>
    decreases segs.len(),
{
    if segs.len() == 0 {
        Seq::empty()
    } else if segs.len() == 1 {
        segs[0]
    } else {
        join_with(segs.drop_last(), sep) + sep + segs.last()
    }
}

pub fn join_with_exec(segs: &Vec<Vec<char>>, sep: &str) -> (r: Vec<char>)
    ensures
        r@ == join_with(crate::props::view_all(segs@), sep@),
{
    let ghost vs = crate::props::view_all(segs@);
    let mut r: Vec<char> = Vec::new();
    let mut i: usize = 0;
    assert(vs.take(0) =~= Seq::<Seq<char>>::empty());
    while i < segs.len()
        invariant
            i <= segs.len(),
            vs == crate::props::view_all(segs@),
            r@ == join_with(vs.take(i as int), sep@),
        decreases segs.len() - i,
    {
        let ghost t = vs.take(i + 1);
        assert(t.drop_last() =~= vs.take(i as int));
        assert(t.last() == segs@[i as int]@);
        if i > 0 {
            push_str(&mut r, sep);
        } else {
            assert(t =~= seq![segs@[0]@]);
            assert(r@ =~= Seq::<char>::empty());
        }
        push_all(&mut r, &segs[i]);
        i = i + 1;
    }
    assert(vs.take(i as int) =~= vs);
    r
}

pub open spec fn trigger_for(script: Seq<char>, leaf: Seq<char>) -> Seq<char> {
    repeat("Parent."@, count_char(script, '.')) + "Events."@ + leaf
}

pub open spec fn call_rate_on(s: Seq<char>, m: Seq<NodeV>, script: Seq<char>, rate: Seq<char>) -> Result<
    Seq<char>,
    ErrV,
> {
    match find_component(m, script) {
        None => Err(ErrV::NoSuchComponent(script)),
        Some(c) => {
            let cls = attr_val(m[c], "Classname"@).unwrap();
            if !schedulable(cls) {
                Err(
                    ErrV::Invalid(
                        "`"@ + script + "` is a "@ + cls
                            + " \u{2014} only FuncUser/MethodUser scripts have a call rate"@,
                    ),
                )
            } else {
                match rate_leaf(rate) {
                    Err(e) => Err(e),
                    Ok(leaf) => {
                        let clock = "Root.Events."@ + leaf;
                        if find_component(m, clock) is None {
                            Err(
                                ErrV::Invalid(
                                    "no clock `"@ + clock + "` in the project; available: "@
                                        + join_with(crate::query::available_rates_spec(m), ", "@),
                                ),
                            )
                        } else {
                            set_props_attr_spec(s, m, script, "SelectedTrigger"@, trigger_for(script, leaf))
                        }
                    },
                }
            }
        },
    }
}

fn lower_code_exec(c: char) -> (r: u32)
    ensures
        r == lower_code(c),
{
    if 'A' <= c && c <= 'Z' {
        c as u32 + 32
    } else {
        c as u32
    }
}

fn eq_ignore_ascii_case_exec(a: &Vec<char>, lit: &str) -> (r: bool)
    ensures
        r == eq_ignore_ascii_case(a@, lit@),
{
    let b = chars_of(lit);
    if a.len() != b.len() {
        return false;
    }
    let mut i: usize = 0;
    while i < a.len()
        invariant
            i <= a.len(),
            a.len() == b.len(),
            b@ == lit@,
            forall|k: int| 0 <= k < i ==> lower_code(a@[k]) == lower_code(b@[k]),
        decreases a.len() - i,
    {
        if lower_code_exec(a[i]) != lower_code_exec(b[i]) {
            return false;
        }
        i = i + 1;
    }
    true
}

fn strip_hz_exec(s: &Vec<char>) -> (r: Vec<char>)
    ensures
        r@ == strip_hz(s@),
{
    let mut t = subvec(s, 0, s.len());
    assert(t@ =~= s@);
    while t.len() >= 2 && ends_with_str(&t, "Hz")
        invariant
            strip_hz(s@) == strip_hz(t@),
        decreases t.len(),
    {
        let n = t.len() - 2;
        t = subvec(&t, 0, n);
    }
    t
}

fn rate_leaf_exec(rate: &Vec<char>) -> (r: Result<Vec<char>, EditError>)
    ensures
        chars_result(r) == rate_leaf(rate@),
{
    if eq_ignore_ascii_case_exec(rate, "startup") {
        return Ok(chars_of("On Startup"));
    }
    let t = trim_exec(rate);
    let h = strip_hz_exec(&t);
    let n = trim_exec(&h);
    let mut ok = n.len() > 0;
    let mut i: usize = 0;
    while ok && i < n.len()
        invariant
            i <= n.len(),
            ok ==> n.len() > 0,
            ok ==> forall|k: int| 0 <= k < i ==> ('0' <= #[trigger] n@[k] && n@[k] <= '9') || n@[k] == '.',
            !ok ==> (n@.len() == 0 || !digits_or_dots(n@)),
        decreases n.len() - i,
    {
        let c = n[i];
        if !(('0' <= c && c <= '9') || c == '.') {
            ok = false;
        }
        i = i + 1;
    }
    if !ok {
        let mut msg: Vec<char> = Vec::new();
        push_str(&mut msg, "rate must be `startup` or a number in Hz, got `");
        push_all(&mut msg, rate);
        push_str(&mut msg, "`");
        return Err(EditError::Invalid(string_of(&msg)));
    }
    let mut leaf: Vec<char> = Vec::new();
    push_str(&mut leaf, "On ");
    push_all(&mut leaf, &n);
    push_str(&mut leaf, "Hz");
    Ok(leaf)
}

pub open spec fn set_call_rate_spec(xml: Seq<char>, script: Seq<char>, rate: Seq<char>) -> Result<
    Seq<char>,
    ErrV,
> {
    on_doc(xml, |m: Seq<NodeV>| call_rate_on(xml, m, script, rate))
}

/// [`set_call_rate`] on a parsed document.
pub fn set_call_rate_doc(d: &Doc, script: &str, rate: &str) -> (r: Result<String, EditError>)
    requires
        d.wf(),
    ensures
        text_result(r) == call_rate_on(d.text@, d.model(), script@, rate@),
{
    let sc = chars_of(script);
    let c = match d.find_component(&sc) {
        Some(c) => c,
        None => return Err(EditError::NoSuchComponent(string_of(&sc))),
    };
    let cls = crate::xml::attr_value_str(&d.nodes[c], "Classname").unwrap();
    let sched = (crate::query::contains_str(cls, "FuncUser") && !crate::query::contains_str(
        cls,
        "FuncUserParam",
    )) || crate::query::contains_str(cls, "MethodUser");
    if !sched {
        let mut msg: Vec<char> = Vec::new();
        push_str(&mut msg, "`");
        push_all(&mut msg, &sc);
        push_str(&mut msg, "` is a ");
        push_all(&mut msg, cls);
        push_str(&mut msg, " \u{2014} only FuncUser/MethodUser scripts have a call rate");
        return Err(EditError::Invalid(string_of(&msg)));
    }
    let rv = chars_of(rate);
    let leaf = match rate_leaf_exec(&rv) {
        Ok(l) => l,
        Err(e) => return Err(e),
    };
    let mut clock: Vec<char> = Vec::new();
    push_str(&mut clock, "Root.Events.");
    push_all(&mut clock, &leaf);
    if d.find_component(&clock).is_none() {
        let rates = crate::query::rates_of(d);
        let mut msg: Vec<char> = Vec::new();
        push_str(&mut msg, "no clock `");
        push_all(&mut msg, &clock);
        push_str(&mut msg, "` in the project; available: ");
        let joined = join_with_exec(&rates, ", ");
        push_all(&mut msg, &joined);
        return Err(EditError::Invalid(string_of(&msg)));
    }
    let mut trig: Vec<char> = Vec::new();
    let mut par: Vec<char> = Vec::new();
    push_str(&mut par, "Parent.");
    let dots = count_char_exec(&sc, '.');
    push_repeat(&mut trig, &par, dots);
    push_str(&mut trig, "Events.");
    push_all(&mut trig, &leaf);
    finish(set_props_attr(d, &sc, "SelectedTrigger", &trig))
}

/// Point a script (`FuncUser`/`MethodUser`) at the `On <rate>` clock by setting its
/// `<Props SelectedTrigger>`: `rate` is `startup` (any ASCII case) or a frequency in
/// Hz; the `Root.Events.On <…>` clock must exist. The trigger climbs one `Parent.`
/// per dot of the script's path, then names `Events.<leaf>`.
pub fn set_call_rate(xml: &str, script: &str, rate: &str) -> (r: Result<String, EditError>)
    ensures
        text_result(r) == set_call_rate_spec(xml@, script@, rate@),
{
    let d = parse_doc(xml)?;
    set_call_rate_doc(&d, script, rate)
}

/// When `set_call_rate` succeeds, the rate names a clock `Root.Events.<leaf>` of
/// the project, and the edit sets the script's `SelectedTrigger` to a value that,
/// resolved from the script (a path under `Root`), names that clock.
pub proof fn lemma_call_rate_points_at_clock(s: Seq<char>, m: Seq<NodeV>, script: Seq<char>, rate: Seq<char>)
    requires
        script == "Root"@ || has_prefix(script, "Root."@),
    ensures
        call_rate_on(s, m, script, rate) is Ok ==> (rate_leaf(rate) matches Ok(leaf) && find_component(
            m,
            "Root.Events."@ + leaf,
        ) is Some && call_rate_on(s, m, script, rate) == set_props_attr_spec(
            s,
            m,
            script,
            "SelectedTrigger"@,
            trigger_for(script, leaf),
        ) && crate::query::resolve_trigger_spec(script, trigger_for(script, leaf)) == Some(
            "Root.Events."@ + leaf,
        )),
{
    if let Ok(leaf) = rate_leaf(rate) {
        crate::query::lemma_events_trigger_resolves(script, leaf);
    }
}

// ---- edits are surgical -------------------------------------------------------------------

/// Every property edit is surgical: when it succeeds, one stretch of the text is
/// replaced, and that stretch lies inside the target component's element — the
/// text before the component's element and after it is byte-for-byte the same.
pub proof fn lemma_property_edits_stay_inside_component(
    xml: Seq<char>,
    comp: Seq<char>,
    value: Seq<char>,
    dps: nat,
)
    ensures
        set_security_spec(xml, comp, value) matches Ok(t) ==> doc_model(xml) matches Some(m)
            && inside_component(xml, m, comp, t),
        set_type_spec(xml, comp, value) matches Ok(t) ==> doc_model(xml) matches Some(m)
            && inside_component(xml, m, comp, t),
        set_quantity_spec(xml, comp, value) matches Ok(t) ==> doc_model(xml) matches Some(m)
            && inside_component(xml, m, comp, t),
        set_unit_spec(xml, comp, value) matches Ok(t) ==> doc_model(xml) matches Some(m)
            && inside_component(xml, m, comp, t),
        set_format_spec(xml, comp, value) matches Ok(t) ==> doc_model(xml) matches Some(m)
            && inside_component(xml, m, comp, t),
        set_dps_spec(xml, comp, dps) matches Ok(t) ==> doc_model(xml) matches Some(m)
            && inside_component(xml, m, comp, t),
        add_tag_public(xml, comp, value) matches Ok(t) ==> doc_model(xml) matches Some(m)
            && inside_component(xml, m, comp, t),
        set_call_rate_spec(xml, comp, value) matches Ok(t) ==> doc_model(xml) matches Some(m)
            && inside_component(xml, m, comp, t),
{
    if let Some(m) = doc_model(xml) {
        assert(crate::xml::doc_wf(m, xml.len() as int) && crate::xml::doc_nested(m));
        lemma_set_props_attr_inside(xml, m, comp, "Security"@, value);
        lemma_set_props_attr_inside(xml, m, comp, "Type"@, value);
        lemma_set_props_attr_inside(xml, m, comp, "Qty"@, value);
        lemma_set_default_attr_inside(xml, m, comp, "Unit"@, value);
        lemma_set_default_attr_inside(xml, m, comp, "Format"@, value);
        lemma_set_default_attr_inside(xml, m, comp, "DPS"@, decimal(dps));
        lemma_add_tag_inside(xml, m, comp, value);
        if let Ok(leaf) = rate_leaf(value) {
            lemma_set_props_attr_inside(xml, m, comp, "SelectedTrigger"@, trigger_for(comp, leaf));
        }
    }
}

/// Adding a tag the component already carries leaves the text unchanged.
pub proof fn lemma_add_present_tag_is_identity(xml: Seq<char>, comp: Seq<char>, tag: Seq<char>)
    ensures
        (match doc_model(xml) {
            Some(m) => match find_component(m, comp) {
                Some(c) => crate::props::user_tags(m, c).contains(tag) && !all_ws(tag),
                None => false,
            },
            None => false,
        }) ==> add_tag_public(xml, comp, tag) == Ok::<Seq<char>, ErrV>(xml),
{
    if let Some(m) = doc_model(xml) {
        if let Some(c) = find_component(m, comp) {
            if crate::props::user_tags(m, c).contains(tag) {
                assert(crate::props::tags_list(m, c) is Some);
            }
        }
    }
}

} // verus!
