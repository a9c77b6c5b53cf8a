//! `m1-project` — structured, validated edits to a MoTeC M1 `Project.m1prj`.
//!
//! The `.m1prj` is a large XML file that MoTeC M1-Build also writes, so every edit
//! here is surgical: the target element is located byte-accurately with the XML
//! parser and the smallest possible text change is spliced in, leaving the rest of
//! the file untouched. Every mutation is a pure `&str -> Result<String, EditError>`.
//!
//! The parser's view of a document is held in [`xml::Doc`], a flat arena of nodes in
//! document order whose offsets are character positions in the source text; every
//! contract below is stated over that model and over the text as a sequence of
//! characters.
pub mod text;
pub mod utf8pos;
pub mod xml;
pub mod props;
pub mod edits;
pub mod sort;
pub mod query;
pub mod structure;
pub mod validate;
pub mod format;
pub mod json;
pub mod report;

use vstd::prelude::*;
use crate::text::{chars_of_string, push_all, push_str, string_of};

pub use edits::{
    ScriptRename, add_tag, remove_tag, script_relpath, set_call_rate, set_display_range_text,
    security_levels, set_dps, set_format, set_quantity, set_security, set_type, set_unit,
    set_validation_text, storage_types, validate_name_segment, validate_security, validate_type,
};
pub use format::{
    FormatReport, KnownFormat, convert_format, file_format, format_report, known_formats,
    known_writers_summary,
};
pub use json::{json_string, json_string_or_null, normalise_version_part};
pub use query::{
    ComponentEntry, ScriptComponent, available_rates, build_trigger, list_components,
    reference_resolves, resolve_reference, resolve_trigger, script_components, security_groups,
};
pub use structure::{
    create_channel, create_function, create_group, create_parameter, create_scheduled_function,
    delete_component, rename_component,
};
pub use report::{
    add_mandatory_findings, components_json, count_level, dbc_file_findings,
    dbc_text_matches_import, dbc_unlocated_finding, declares_utf8, findings_json, findings_text,
    format_gate_finding, format_report_text, missing_code_finding, pick_dbc_candidate,
    rename_conflict, selected_module_files, strings_json,
};
pub use validate::{
    DbcModule, Finding, FindingLevel, dbc_modules, invalid_name_segment_reason,
    mandatory_tag_findings, sort_by_path, validate, validate_dbc_file, validate_with_modules,
};

verus! {

/// Why an edit or query was refused.
#[derive(Debug, PartialEq, Eq)]
pub enum EditError {
    /// The file did not parse as XML.
    Xml(String),
    /// A referenced component path does not exist in the project.
    NoSuchComponent(String),
    /// The target name already exists (create would duplicate it).
    Duplicate(String),
    /// A value failed validation (unknown security level, type, rate, …).
    Invalid(String),
}

/// [`EditError`] with its message as a character sequence.
pub enum ErrV {
    Xml(Seq<char>),
    NoSuchComponent(Seq<char>),
    Duplicate(Seq<char>),
    Invalid(Seq<char>),
}

impl View for EditError {
    type V = ErrV;

    open spec fn view(&self) -> ErrV {
        match self {
            EditError::Xml(m) => ErrV::Xml(m@),
            EditError::NoSuchComponent(m) => ErrV::NoSuchComponent(m@),
            EditError::Duplicate(m) => ErrV::Duplicate(m@),
            EditError::Invalid(m) => ErrV::Invalid(m@),
        }
    }
}

/// The human-readable message of an error, as the command line prints it.
pub open spec fn message_spec(e: ErrV) -> Seq<char> {
    match e {
        ErrV::Xml(m) => "invalid .m1prj XML: "@ + m,
        ErrV::NoSuchComponent(p) => "no component named `"@ + p + "` in the project"@,
        ErrV::Duplicate(p) => "a component named `"@ + p + "` already exists"@,
        ErrV::Invalid(m) => m,
    }
}

impl EditError {
    /// The error's message: the XML error, the missing or duplicated component
    /// path, or the validation message itself.
    pub fn message(&self) -> (r: String)
        ensures
            r@ == message_spec(self@),
    {
        let mut out: Vec<char> = Vec::new();
        match self {
            EditError::Xml(m) => {
                push_str(&mut out, "invalid .m1prj XML: ");
                push_all(&mut out, &chars_of_string(m));
            },
            EditError::NoSuchComponent(p) => {
                push_str(&mut out, "no component named `");
                push_all(&mut out, &chars_of_string(p));
                push_str(&mut out, "` in the project");
            },
            EditError::Duplicate(p) => {
                push_str(&mut out, "a component named `");
                push_all(&mut out, &chars_of_string(p));
                push_str(&mut out, "` already exists");
            },
            EditError::Invalid(m) => {
                push_all(&mut out, &chars_of_string(m));
            },
        }
        string_of(&out)
    }
}

/// The view of an edit's outcome: the new text, or the error.
pub open spec fn text_result(r: Result<String, EditError>) -> Result<Seq<char>, ErrV> {
    match r {
        Ok(s) => Ok(s@),
        Err(e) => Err(e@),
    }
}

/// The view of an intermediate outcome held as characters.
pub open spec fn chars_result(r: Result<Vec<char>, EditError>) -> Result<Seq<char>, ErrV> {
    match r {
        Ok(s) => Ok(s@),
        Err(e) => Err(e@),
    }
}

} // verus!
