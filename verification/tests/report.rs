//! What the command line prints and decides: text and JSON reports, the checks
//! on files the front end reads, and the choice of a DBC module's file.
use m1_project::{
    DbcModule, Finding, FindingLevel, ScriptComponent, add_mandatory_findings, components_json,
    count_level, dbc_file_findings, dbc_text_matches_import, dbc_unlocated_finding, declares_utf8,
    findings_json, findings_text, format_gate_finding, format_report, format_report_text,
    list_components, missing_code_finding, pick_dbc_candidate, selected_module_files, sort_by_path,
    strings_json,
};

fn finding(level: FindingLevel, path: &str, message: &str, code: Option<u32>) -> Finding {
    Finding {
        level,
        path: path.to_string(),
        message: message.to_string(),
        code,
    }
}

const SMALL: &str = r#"<?xml version="1.0"?>
<MoTeCM1BuildSession>
 <Project Name="T">
  <ComponentStream>
   <List>
    <Component Classname="BuiltIn.GroupCompound" Name="Root"/>
    <Component Classname="BuiltIn.GroupCompound" Name="Root.Engine"/>
    <Component Classname="BuiltIn.Channel" Name="Root.Engine.Speed">
     <Props Type="f32" Security="Tune"/>
    </Component>
   </List>
  </ComponentStream>
 </Project>
</MoTeCM1BuildSession>
"#;

#[test]
fn finding_display_is_level_path_message() {
    let f = finding(FindingLevel::Error, "Root.X", "bad thing", None);
    assert_eq!(f.display(), "ERROR Root.X: bad thing");
    let w = finding(FindingLevel::Warning, "Root.Y", "maybe", Some(1142));
    assert_eq!(w.display(), "WARN Root.Y: maybe");
    assert_eq!(FindingLevel::Error.label(), "ERROR");
    assert_eq!(FindingLevel::Warning.label(), "WARN");
}

#[test]
fn findings_text_ends_with_the_counts() {
    let v = vec![
        finding(FindingLevel::Error, "Root.A", "one", None),
        finding(FindingLevel::Warning, "Root.B", "two", Some(1142)),
        finding(FindingLevel::Error, "Root.C", "three", Some(1601)),
    ];
    assert_eq!(
        findings_text(&v),
        "ERROR Root.A: one\nWARN Root.B: two\nERROR Root.C: three\n3 finding(s): 2 error(s), 1 warning(s)\n"
    );
    assert_eq!(count_level(&v, FindingLevel::Error), 2);
    assert_eq!(count_level(&v, FindingLevel::Warning), 1);
    assert_eq!(findings_text(&Vec::new()), "0 finding(s): 0 error(s), 0 warning(s)\n");
}

#[test]
fn findings_json_is_one_object_per_line() {
    let v = vec![
        finding(FindingLevel::Error, "Root.A", "say \"no\"", Some(1601)),
        finding(FindingLevel::Warning, "Root.B", "line\nbreak", None),
    ];
    assert_eq!(
        findings_json(&v),
        "[\n  {\"level\":\"error\",\"path\":\"Root.A\",\"message\":\"say \\\"no\\\"\",\"code\":1601},\n  {\"level\":\"warning\",\"path\":\"Root.B\",\"message\":\"line\\nbreak\",\"code\":null}\n]\n"
    );
    assert_eq!(findings_json(&Vec::new()), "[\n]\n");
}

#[test]
fn strings_json_is_a_one_line_array() {
    let v = vec!["Tune".to_string(), "PDM".to_string()];
    assert_eq!(strings_json(&v), "[\"Tune\",\"PDM\"]");
    assert_eq!(strings_json(&Vec::new()), "[]");
}

#[test]
fn components_render_as_json_and_as_a_tree() {
    let entries = list_components(SMALL).unwrap();
    assert_eq!(
        components_json(&entries),
        "[\n  {\"path\":\"Root\",\"classname\":\"BuiltIn.GroupCompound\",\"type\":null,\"unit\":null,\"security\":null,\"call_rate\":null,\"qty\":null,\"tags\":[],\"comment\":null},\n  {\"path\":\"Root.Engine\",\"classname\":\"BuiltIn.GroupCompound\",\"type\":null,\"unit\":null,\"security\":null,\"call_rate\":null,\"qty\":null,\"tags\":[],\"comment\":null},\n  {\"path\":\"Root.Engine.Speed\",\"classname\":\"BuiltIn.Channel\",\"type\":\"f32\",\"unit\":null,\"security\":\"Tune\",\"call_rate\":null,\"qty\":null,\"tags\":[],\"comment\":null}\n]\n"
    );
    let lines: Vec<String> = entries.iter().map(|e| e.tree_line()).collect();
    assert_eq!(
        lines,
        vec![
            "Root  [GroupCompound]".to_string(),
            "  Engine  [GroupCompound]".to_string(),
            "    Speed  [Channel, type=f32, security=Tune]".to_string(),
        ]
    );
}

#[test]
fn tree_line_lists_tags_joined_with_plus() {
    let prj = m1_project::add_tag(SMALL, "Root.Engine.Speed", "Normal").unwrap();
    let prj = m1_project::add_tag(&prj, "Root.Engine.Speed", "Input").unwrap();
    let entries = list_components(&prj).unwrap();
    let speed = entries.iter().find(|e| e.path == "Root.Engine.Speed").unwrap();
    assert_eq!(
        speed.tree_line(),
        "    Speed  [Channel, type=f32, security=Tune, tags=Normal+Input]"
    );
}

fn versioned(file_format: u32) -> String {
    format!(
        "<?xml version=\"1.0\"?>\n<MoTeCM1BuildSession ProductName=\"M1Build (x64)\" ProductVersion=\"1.4.5.556\">\n <Project FileFormat=\"{file_format}\" Name=\"T\">\n  <System VersionMajor=\"1\" VersionMinor=\"4\" VersionRelease=\"0\" VersionBuild=\"0108\"/>\n </Project>\n</MoTeCM1BuildSession>\n"
    )
}

#[test]
fn format_report_text_names_format_writer_and_target() {
    let xml = versioned(10109);
    let r = format_report(&xml).unwrap();
    let text = format_report_text("P.m1prj", &r);
    let expected = format!(
        "P.m1prj\n  FileFormat:      10109\n  Last written by: M1Build (x64) 1.4.5.556\n  Package target:  1.4.0.0108\n  Known writers:   {}\n",
        m1_project::known_writers_summary()
    );
    assert_eq!(text, expected);
}

#[test]
fn format_gate_flags_only_a_newer_format() {
    let xml = versioned(10109);
    let f = format_gate_finding("P.m1prj", &xml, 10108).expect("10109 exceeds 10108");
    assert_eq!(f.level, FindingLevel::Error);
    assert_eq!(f.path, "P.m1prj");
    assert_eq!(
        f.message,
        "file format 10109 exceeds the maximum allowed 10108 \u{2014} a newer M1-Build has migrated this project; downgrade it with `m1-project format --target 10108`"
    );
    assert_eq!(f.code, None);
    assert!(format_gate_finding("P.m1prj", &xml, 10109).is_none());
    assert!(format_gate_finding("P.m1prj", "<not xml", 1).is_none());
}

#[test]
fn mandatory_warnings_skip_paths_with_a_1648_finding() {
    let mut found = vec![
        finding(FindingLevel::Error, "Root.Assigned", "incomplete", Some(1648)),
        finding(FindingLevel::Error, "Root.Other", "other", Some(1601)),
    ];
    let extra = vec![
        finding(FindingLevel::Warning, "Root.Assigned", "mandatory", Some(1142)),
        finding(FindingLevel::Warning, "Root.Table", "mandatory", Some(1142)),
        finding(FindingLevel::Warning, "Root.Other", "mandatory", Some(1142)),
    ];
    add_mandatory_findings(&mut found, extra);
    let paths: Vec<&str> = found.iter().map(|f| f.path.as_str()).collect();
    assert_eq!(paths, vec!["Root.Assigned", "Root.Other", "Root.Table", "Root.Other"]);
}

#[test]
fn findings_sort_by_path_then_message() {
    let v = vec![
        finding(FindingLevel::Error, "Root.B", "b", None),
        finding(FindingLevel::Error, "Root.A", "z", None),
        finding(FindingLevel::Warning, "Root.A", "a", None),
    ];
    let s = sort_by_path(v);
    let keys: Vec<(&str, &str)> = s.iter().map(|f| (f.path.as_str(), f.message.as_str())).collect();
    assert_eq!(keys, vec![("Root.A", "a"), ("Root.A", "z"), ("Root.B", "b")]);
}

#[test]
fn an_empty_backing_script_is_missing_code() {
    let s = ScriptComponent {
        path: "Root.Engine.Update".to_string(),
        filename: "Engine.Update.m1scr".to_string(),
    };
    let f = missing_code_finding(&s, "  \r\n\t").expect("blank body");
    assert_eq!(f.level, FindingLevel::Error);
    assert_eq!(f.path, "Root.Engine.Update");
    assert_eq!(f.message, "missing code: backing script `Engine.Update.m1scr` is empty");
    assert_eq!(f.code, Some(1024));
    assert!(missing_code_finding(&s, "x = 1;").is_none());
}

#[test]
fn motec_write_encoding_defaults_to_1252_not_sniffed_utf8() {
    // MoTeC's prolog omits `encoding=`, so write-back is Windows-1252 (what MoTeC
    // reads) — not the UTF-8 a pure-ASCII file sniffs as. Only an explicit utf-8
    // declaration means UTF-8.
    assert!(!declares_utf8(
        "<?xml version=\"1.0\"?>\n<Project Locale=\"English_Australia.1252\"/>"
    ));
    assert!(declares_utf8("<?xml version=\"1.0\" encoding=\"UTF-8\"?>\n<x/>"));
    assert!(declares_utf8("<?xml version='1.0' encoding='utf-8'?>"));
}

#[test]
fn motec_write_encoding_no_panic_on_multibyte_char_across_byte_256() {
    // The 256-byte head window is snapped to a char boundary: a 2-byte `°`
    // straddles byte offset 256.
    let mut xml = String::from("<?xml version=\"1.0\"?>");
    while xml.len() < 255 {
        xml.push('a');
    }
    assert_eq!(xml.len(), 255);
    xml.push('°');
    assert!(!xml.is_char_boundary(256));
    assert!(!declares_utf8(&xml));
}

#[test]
fn a_declaration_beyond_the_first_256_bytes_is_not_seen() {
    assert!(!declares_utf8("<x/>"));
    let late = format!("{}<?xml encoding=\"utf-8\"?>", " ".repeat(300));
    assert!(!declares_utf8(&late));
    let early = format!("<?xml encoding=\"utf-8\"?>{}", " ".repeat(300));
    assert!(declares_utf8(&early));
}

#[test]
fn selected_module_files_drop_leading_zeros() {
    let xml = r#"<?xml version="1.0"?>
<MoTeCM1BuildSession><Project Name="T">
 <SelectedModuleSets>
  <File Name="Test Module" VersionMajor="01" VersionMinor="004" VersionBuild="0108"/>
  <File Name="Other" VersionMajor="2" VersionMinor="0" VersionBuild="000"/>
  <File Name="Incomplete" VersionMajor="1"/>
 </SelectedModuleSets>
</Project></MoTeCM1BuildSession>"#;
    assert_eq!(
        selected_module_files(xml).unwrap(),
        vec!["Test Module.1.4.108.m1mod".to_string(), "Other.2.0.0.m1mod".to_string()]
    );
    assert!(selected_module_files(SMALL).unwrap().is_empty());
    assert!(matches!(selected_module_files("<a>"), Err(m1_project::EditError::Xml(_))));
}

fn dbc_module(md5: Option<&str>) -> DbcModule {
    DbcModule {
        name: "DBC.M150".to_string(),
        module: "M150".to_string(),
        md5: md5.map(str::to_string),
    }
}

const DBC_TEXT: &str = r#"<?xml version="1.0"?>
<MoTeCM1BuildSession><List>
<Component Classname="BuiltIn.CAN.DBC" Name="M150" MD5="ABCDEF"/>
</List></MoTeCM1BuildSession>"#;

#[test]
fn a_candidate_matches_by_name_and_md5_in_any_case() {
    assert!(dbc_text_matches_import(DBC_TEXT, &dbc_module(None)));
    assert!(dbc_text_matches_import(DBC_TEXT, &dbc_module(Some("abcdef"))));
    assert!(!dbc_text_matches_import(DBC_TEXT, &dbc_module(Some("123456"))));
    let other = DbcModule {
        name: "DBC.M1".to_string(),
        module: "M1".to_string(),
        md5: None,
    };
    assert!(!dbc_text_matches_import(DBC_TEXT, &other));
    assert!(!dbc_text_matches_import("<broken", &dbc_module(None)));
}

#[test]
fn a_dbc_file_is_picked_locally_first_then_by_import() {
    // One candidate: it is the file.
    assert_eq!(pick_dbc_candidate(&vec![false], &vec![false]), Ok(0));
    // A single local candidate wins over others.
    assert_eq!(pick_dbc_candidate(&vec![false, true, false], &vec![false, false, false]), Ok(1));
    // Several: the only one matching the import.
    assert_eq!(pick_dbc_candidate(&vec![false, false, false], &vec![false, true, false]), Ok(1));
    // Several local ones: only they are considered.
    assert_eq!(
        pick_dbc_candidate(&vec![true, false, true], &vec![false, true, false]),
        Err(vec![0, 2])
    );
    // None at all.
    assert_eq!(pick_dbc_candidate(&Vec::new(), &Vec::new()), Err(Vec::new()));
}

#[test]
fn an_unlocated_dbc_file_names_the_candidates() {
    let m = dbc_module(None);
    let none = dbc_unlocated_finding(&m, "/ws", &Vec::new());
    assert_eq!(none.path, "DBC.M150");
    assert_eq!(
        none.message,
        "DBC module file `M150.m1dbc` cannot be located unambiguously: no matching file was found under `/ws`"
    );
    let two = dbc_unlocated_finding(&m, "/ws", &vec!["a/M150.m1dbc".to_string(), "b/M150.m1dbc".to_string()]);
    assert_eq!(
        two.message,
        "DBC module file `M150.m1dbc` cannot be located unambiguously: the candidates are a/M150.m1dbc, b/M150.m1dbc"
    );
}

#[test]
fn an_unreadable_or_malformed_dbc_file_is_one_error() {
    let m = dbc_module(None);
    let unreadable = dbc_file_findings(&m, "dbc/M150.m1dbc", None);
    assert_eq!(unreadable.len(), 1);
    assert_eq!(
        unreadable[0].message,
        "DBC module file `dbc/M150.m1dbc` is unreadable \u{2014} M1-Build cannot load the CAN database"
    );
    let malformed = dbc_file_findings(&m, "dbc/M150.m1dbc", Some("<oops"));
    assert_eq!(malformed.len(), 1);
    assert_eq!(malformed[0].path, "DBC.M150");
    assert_eq!(malformed[0].message, "DBC module file `dbc/M150.m1dbc` is not well-formed XML");
}

fn rename(old: &str, new: &str) -> m1_project::ScriptRename {
    m1_project::ScriptRename {
        old: old.to_string(),
        new: new.to_string(),
    }
}

#[test]
fn a_rename_plan_may_not_overwrite_a_file() {
    let plan = vec![rename("A.m1scr", "X.m1scr"), rename("B.m1scr", "X.m1scr")];
    assert_eq!(
        m1_project::rename_conflict(&plan, &vec![true, true], &vec![false, false]),
        Some((1, true))
    );
    // A rename whose source is absent moves nothing, so its destination is free.
    assert_eq!(m1_project::rename_conflict(&plan, &vec![false, true], &vec![false, false]), None);
    let plan = vec![rename("A.m1scr", "X.m1scr"), rename("B.m1scr", "Y.m1scr")];
    assert_eq!(
        m1_project::rename_conflict(&plan, &vec![true, true], &vec![false, true]),
        Some((1, false))
    );
    assert_eq!(m1_project::rename_conflict(&plan, &vec![true, true], &vec![false, false]), None);
    assert_eq!(m1_project::rename_conflict(&plan, &vec![false, false], &vec![true, true]), None);
}
