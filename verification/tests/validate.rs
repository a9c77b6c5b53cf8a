//! The structural checks of `validate`, the module-aware tag checks and the
//! component-name rules.
use m1_project::{
    Finding, FindingLevel, invalid_name_segment_reason, mandatory_tag_findings, validate,
    validate_with_modules,
};

fn project_with_components(components: &str) -> String {
    format!(
        "<?xml version=\"1.0\"?>\n<MoTeCM1BuildSession>\n <Project Name=\"T\">\n  <ComponentStream>\n   <List>\n{components}   </List>\n  </ComponentStream>\n </Project>\n</MoTeCM1BuildSession>\n"
    )
}

fn findings_with_code(xml: &str, code: u32) -> Vec<Finding> {
    validate(xml)
        .expect("valid XML")
        .into_iter()
        .filter(|f| f.code == Some(code))
        .collect()
}

#[test]
fn validate_rejects_invalid_project_envelopes() {
    let wrong_root = validate("<?xml version=\"1.0\"?><NotAM1Project/>").unwrap();
    assert!(wrong_root.iter().any(|f| {
        f.level == FindingLevel::Error && f.message.contains("MoTeCM1BuildSession")
    }));

    for body in [
        "<MoTeCM1BuildSession/>",
        "<MoTeCM1BuildSession><Wrapper><Project/></Wrapper></MoTeCM1BuildSession>",
        "<MoTeCM1BuildSession><Project/><Project/></MoTeCM1BuildSession>",
    ] {
        let findings = validate(body).unwrap();
        assert!(
            findings.iter().any(|f| f.level == FindingLevel::Error
                && f.message.contains("exactly one direct <Project> child")),
            "invalid envelope accepted: {body}"
        );
    }

    assert!(
        validate("<MoTeCM1BuildSession><Project/></MoTeCM1BuildSession>")
            .unwrap()
            .iter()
            .all(|f| !f.message.contains("document envelope"))
    );
}

#[test]
fn validate_reports_conflicting_and_unsupported_tags() {
    let xml = project_with_components(
        r#"    <Component Classname="BuiltIn.GroupCompound" Name="Root"/>
    <Component Classname="BuiltIn.Parameter" Name="Root.Bad Pin"><Props><List.UserTags><Entry Value="Pin"/></List.UserTags></Props></Component>
    <Component Classname="BuiltIn.Channel" Name="Root.Bad Setup"><Props Security="Tune"><List.UserTags><Entry Value="Setup"/></List.UserTags></Props></Component>
    <Component Classname="BuiltIn.Reference" Name="Root.Parameter Reference"><Props><List.UserTags><Entry Value="Pin"/></List.UserTags></Props></Component>
    <Component Classname="BuiltIn.Parameter" Name="Root.Parameter Reference.Value"><Props/></Component>
    <Component Classname="BuiltIn.Reference" Name="Root.Channel Reference"><Props><List.UserTags><Entry Value="Pin"/></List.UserTags></Props></Component>
    <Component Classname="BuiltIn.Channel" Name="Root.Channel Reference.Value"><Props Security="Tune"/></Component>
    <Component Classname="BuiltIn.Channel" Name="Root.Conflict"><Props Security="Tune"><List.UserTags><Entry Value="Normal"/><Entry Value="Diagnostic"/></List.UserTags></Props></Component>
    <Component Classname="BuiltIn.Channel" Name="Root.Independent"><Props Security="Tune"><List.UserTags><Entry Value="Normal"/><Entry Value="Input"/></List.UserTags></Props></Component>
"#,
    );
    let unsupported = findings_with_code(&xml, 1140);
    assert_eq!(unsupported.len(), 3, "{unsupported:?}");
    assert!(unsupported.iter().any(|f| f.path == "Root.Bad Pin"));
    assert!(unsupported.iter().any(|f| f.path == "Root.Bad Setup"));
    assert!(
        unsupported
            .iter()
            .any(|f| f.path == "Root.Parameter Reference.Value")
    );
    assert!(
        !unsupported
            .iter()
            .any(|f| f.path == "Root.Channel Reference.Value"),
        "Pin is legal on the generated channel: {unsupported:?}"
    );
    assert!(
        unsupported
            .iter()
            .all(|f| f.message.contains("legal tag set")),
        "1140 guidance must suggest a complete legal set: {unsupported:?}"
    );

    let conflicts = findings_with_code(&xml, 1141);
    assert_eq!(conflicts.len(), 1, "{conflicts:?}");
    assert_eq!(conflicts[0].path, "Root.Conflict");
    assert!(conflicts[0].message.contains("Normal"));
    assert!(conflicts[0].message.contains("Diagnostic"));
    assert!(conflicts[0].message.contains("Type"));
}

#[test]
fn validate_reports_state_sensor_and_assigned_io_tag_requirements() {
    let xml = project_with_components(
        r#"    <Component Classname="BuiltIn.GroupCompound" Name="Root"/>
    <Component Classname="BuiltIn.Channel" Name="Root.Mode.State"><Props Type="::This.Mode" Security="Tune"><List.UserTags><Entry Value="Diagnostic"/></List.UserTags></Props></Component>
    <Component Classname="BuiltIn.Channel" Name="Root.State"><Props Type="f32" Security="Tune"/></Component>
    <Component Classname="BuiltIn.Channel" Name="Root.Enum Value"><Props Type="::This.Mode" Security="Tune"/></Component>
    <Component Classname="MoTeC Input.Sensor" Name="Root.Sensor"/>
    <Component Classname="BuiltIn.Channel" Name="Root.Sensor.Value"><Props Security="Tune"><List.UserTags><Entry Value="Advanced"/></List.UserTags></Props></Component>
    <Component Classname="BuiltIn.IOResourceValueInput" Name="Root.Input Resource"><Props NameCreation="AutoParam" NameTarget="This.Value"><List.UserTags><Entry Value="Setup"/></List.UserTags></Props></Component>
    <Component Classname="BuiltIn.IOResourceValueOutput" Name="Root.Output Resource"><Props NameCreation="AutoParam" NameTarget="This.Value"><List.UserTags><Entry Value="Output"/></List.UserTags></Props></Component>
    <Component Classname="BuiltIn.IOResourceValueInput" Name="Root.Unassigned Resource"/>
"#,
    );

    let state = findings_with_code(&xml, 1647);
    assert_eq!(
        state.len(),
        1,
        "only enum-typed *.State must flag: {state:?}"
    );
    assert_eq!(state[0].path, "Root.Mode.State");
    assert!(state[0].message.contains("replace"));

    let io = findings_with_code(&xml, 1648);
    assert_eq!(
        io.len(),
        2,
        "both assigned resources are incomplete: {io:?}"
    );
    assert!(
        io.iter().any(|f| {
            f.path == "Root.Input Resource" && f.message.contains("Setup + Input")
        })
    );
    assert!(
        io.iter().any(|f| {
            f.path == "Root.Output Resource" && f.message.contains("Setup + Output")
        })
    );
    assert!(!io.iter().any(|f| f.path == "Root.Unassigned Resource"));

    let sensor = findings_with_code(&xml, 1649);
    assert_eq!(sensor.len(), 1, "{sensor:?}");
    assert_eq!(sensor[0].path, "Root.Sensor.Value");
    assert!(sensor[0].message.contains("replace"));
}

#[test]
fn validate_accepts_a_complete_assigned_input_resource_tag_set() {
    let xml = project_with_components(
        r#"    <Component Classname="BuiltIn.GroupCompound" Name="Root"/>
    <Component Classname="BuiltIn.IOResourceValueInput" Name="Root.Input Resource"><Props NameCreation="AutoParam" NameTarget="This.Value"><List.UserTags><Entry Value="Setup"/><Entry Value="Input"/></List.UserTags></Props></Component>
    <Component Classname="BuiltIn.IOResourceParameter" Name="Root.Input Resource.Value"><Props Security="Resource"/></Component>
"#,
    );

    let tag_findings: Vec<_> = validate(&xml)
        .expect("valid XML")
        .into_iter()
        .filter(|finding| matches!(finding.code, Some(1140 | 1648)))
        .collect();
    assert!(
        tag_findings.is_empty(),
        "Setup + Input is the complete legal assignment: {tag_findings:?}"
    );
}

#[test]
fn validate_rejects_an_illegal_assigned_input_resource_tag_set() {
    let xml = project_with_components(
        r#"    <Component Classname="BuiltIn.GroupCompound" Name="Root"/>
    <Component Classname="BuiltIn.IOResourceValueInput" Name="Root.Input Resource"><Props NameCreation="AutoParam" NameTarget="This.Value"><List.UserTags><Entry Value="Pin"/><Entry Value="Input"/></List.UserTags></Props></Component>
    <Component Classname="BuiltIn.IOResourceParameter" Name="Root.Input Resource.Value"><Props Security="Resource"/></Component>
"#,
    );

    let unsupported = findings_with_code(&xml, 1140);
    assert_eq!(unsupported.len(), 1, "{unsupported:?}");
    assert_eq!(unsupported[0].path, "Root.Input Resource.Value");
    assert!(unsupported[0].message.contains("Setup + Input"));
}

#[test]
fn validate_resolves_inherited_tags_and_project_target_creation() {
    let project = project_with_components(
        r#"    <Component Classname="BuiltIn.GroupCompound" Name="Root"/>
    <Component Classname="Test Module.Example" Name="Root.Example"/>
    <Component Classname="BuiltIn.Reference" Name="Root.Example.Drive"><Props TargetCreation="AutoChannel" Target="This.Value"/></Component>
    <Component Classname="BuiltIn.Reference" Name="Root.Example.Pin Choice"><Props TargetCreation="AutoParam" Target="This.Value"/></Component>
"#,
    );
    let module = r#"<?xml version="1.0"?>
<MoTecM1BuildModuleSet Name="Test Module">
 <Modules><ModuleStream><List>
  <Module Base="BuiltIn.GroupCompound" Name="Group.Example">
   <ComponentStream><List>
    <Component Classname="BuiltIn.GroupCompound" Name="Base"/>
    <Component Classname="BuiltIn.Reference" Name="Base.Drive"><Props TargetCreation="AutoParam"><List.UserTags><Entry Value="Setup"/></List.UserTags></Props></Component>
    <Component Classname="BuiltIn.Reference" Name="Base.Pin Choice"><Props TargetCreation="AutoChannel"><List.UserTags><Entry Value="Pin"/></List.UserTags></Props></Component>
   </List></ComponentStream>
  </Module>
 </List></ModuleStream></Modules>
</MoTecM1BuildModuleSet>"#;

    let findings =
        validate_with_modules(&project, &[module]).expect("valid project and module");
    let unsupported: Vec<_> = findings
        .into_iter()
        .filter(|finding| finding.code == Some(1140))
        .collect();
    assert_eq!(unsupported.len(), 2, "{unsupported:?}");
    assert!(unsupported.iter().any(|finding| {
        finding.path == "Root.Example.Drive.Value"
            && finding.message.contains("Setup")
            && finding.message.contains("BuiltIn.Channel")
            && finding.message.contains("legal tag set Normal")
    }));
    assert!(unsupported.iter().any(|finding| {
        finding.path == "Root.Example.Pin Choice.Value"
            && finding.message.contains("Pin")
            && finding.message.contains("BuiltIn.Parameter")
            && finding.message.contains("legal tag set Setup")
    }));
}

#[test]
fn mandatory_tags_match_known_1142_cases() {
    let xml = project_with_components(
        r#"    <Component Classname="BuiltIn.GroupCompound" Name="Root"/>
    <Component Classname="BuiltIn.Channel" Name="Root.Channel"><Props Security="Tune"/></Component>
    <Component Classname="BuiltIn.Parameter" Name="Root.Parameter"><Props Security="Tune"/></Component>
    <Component Classname="BuiltIn.Table" Name="Root.Table"><Props Security="Tune"/></Component>
    <Component Classname="BuiltIn.IOResourceValueInput" Name="Root.Assigned"><Props NameCreation="AutoParam" NameTarget="This.Value"/></Component>
    <Component Classname="BuiltIn.IOResourceValueInput" Name="Root.Unassigned"/>
"#,
    );
    let findings = mandatory_tag_findings(&xml).unwrap();
    let paths: Vec<&str> = findings.iter().map(|f| f.path.as_str()).collect();
    assert_eq!(paths, vec!["Root.Assigned", "Root.Table"], "{findings:?}");
    assert!(findings.iter().all(|f| {
        f.level == FindingLevel::Warning
            && f.code == Some(1142)
            && !f.message.contains("heuristic")
    }));
}

/// Wrap a flat `<List>` of the given `Name`s in a minimal, valid project so the
/// Check-12 findings can be exercised end-to-end through `validate`.
fn project_with_names(names: &[&str]) -> String {
    let mut list = String::new();
    for nm in names {
        list.push_str(&format!(
            "    <Component Classname=\"BuiltIn.GroupCompound\" Name=\"{nm}\"/>\n"
        ));
    }
    format!(
        "<?xml version=\"1.0\"?>\n<MoTeCM1BuildSession>\n <Project Name=\"UQR-EV\">\n  <ComponentStream>\n   <List>\n{list}   </List>\n  </ComponentStream>\n </Project>\n</MoTeCM1BuildSession>\n"
    )
}

fn naming_findings(names: &[&str]) -> Vec<Finding> {
    validate(&project_with_names(names))
        .expect("valid xml")
        .into_iter()
        .filter(|f| f.code == Some(1132))
        .collect()
}

#[test]
fn reason_flags_each_of_the_four_rules() {
    // Rule 4 — reserved keyword as a word.
    assert!(
        invalid_name_segment_reason("Receive IRTS and SGAMP 100Hz")
            .unwrap()
            .contains("`and` is a reserved keyword")
    );
    // Rule 1 — must begin with a letter.
    assert!(
        invalid_name_segment_reason("100Hz Receive")
            .unwrap()
            .contains("begin with a letter")
    );
    // Rule 3 — two consecutive spaces.
    assert!(
        invalid_name_segment_reason("Receive  IRTS")
            .unwrap()
            .contains("two consecutive spaces")
    );
    // Rule 2 — illegal character.
    assert!(
        invalid_name_segment_reason("Receive-IRTS")
            .unwrap()
            .contains("illegal character")
    );
    // Bare keyword.
    assert!(invalid_name_segment_reason("if").is_some());
    assert!(
        invalid_name_segment_reason("Check if Valid")
            .unwrap()
            .contains("`if` is a reserved keyword")
    );
}

#[test]
fn reason_accepts_legal_names() {
    // The corrected form of the incident name, and other real project names.
    for ok in [
        "Receive IRTS SGAMP 100Hz",
        "Receive IRRHS 500Hz",
        "i2t Motor Monitoring Active",
        "Root",
        "Parent", // scope anchors are legal in names (caveat 2)
        "Engine",
        "On 100Hz",
    ] {
        assert_eq!(invalid_name_segment_reason(ok), None, "{ok} must be legal");
    }
}

#[test]
fn reason_is_case_sensitive_on_keywords() {
    // The parser (and this rule) reject lowercase `and`; capitalised variants
    // are accepted, matching m1-typecheck's identifier lexer.
    assert!(invalid_name_segment_reason("Left and Right").is_some());
    assert_eq!(invalid_name_segment_reason("Left And Right"), None);
    assert_eq!(invalid_name_segment_reason("Left AND Right"), None);
}

#[test]
fn reason_does_not_flag_expand_to_neq() {
    // Deliberately NOT reserved here (they parse as identifiers) — flagging them
    // would be a false positive on ordinary names.
    for ok in ["Ramp to Target", "expand Range", "Compare neq Zero"] {
        assert_eq!(invalid_name_segment_reason(ok), None, "{ok} must be legal");
    }
}

#[test]
fn validate_reports_1132_for_bad_component_leaf() {
    let findings =
        naming_findings(&["Root", "Root.CAN", "Root.CAN.Receive IRTS and SGAMP 100Hz"]);
    assert_eq!(findings.len(), 1, "exactly one 1132 finding expected");
    let f = &findings[0];
    assert_eq!(f.path, "Root.CAN.Receive IRTS and SGAMP 100Hz");
    assert!(f.message.contains("Error 1132"));
    assert!(f.message.contains("`and` is a reserved keyword"));
}

#[test]
fn validate_checks_only_the_leaf_segment_no_double_report() {
    // The bad word is in the LEAF; the bad component and a child of it both
    // exist. Only the component whose own leaf is bad is reported — the child's
    // own leaf (`Value`) is fine, so no duplicate finding for the shared
    // ancestor segment.
    let findings = naming_findings(&["Root", "Root.Bad and Name", "Root.Bad and Name.Value"]);
    assert_eq!(findings.len(), 1);
    assert_eq!(findings[0].path, "Root.Bad and Name");
}

#[test]
fn validate_does_not_flag_project_name_with_hyphen() {
    // `UQR-EV` is the <Project> Name (a hyphen would fail Rule 2) but it is not
    // a component, so it must never produce a 1132 finding.
    let findings = naming_findings(&["Root", "Root.Engine"]);
    assert!(
        findings.is_empty(),
        "clean project must have no 1132 finding"
    );
}
