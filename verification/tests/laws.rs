//! The library's laws on concrete values, and the error messages.
use m1_project::{FindingLevel, validate_dbc_file};
use m1_project::{
    EditError, available_rates, build_trigger, resolve_trigger, set_call_rate, set_dps,
    set_security, set_unit, validate,
};

const PRJ: &str = r#"<?xml version="1.0"?>
<MoTeCM1BuildSession>
 <Project Name="T">
  <ComponentStream>
   <List>
    <Component Classname="BuiltIn.GroupCompound" Name="Root"/>
    <Component Classname="BuiltIn.GroupCompound" Name="Root.Engine"/>
    <Component Classname="BuiltIn.Channel" Name="Root.Engine.Speed">
     <Props Type="f32" Security="Tune"/>
    </Component>
    <Component Classname="BuiltIn.Channel" Name="Root.Engine.Plain"/>
    <Component Classname="BuiltIn.MethodUser" Name="Root.Engine.Update"/>
    <Component Classname="BuiltIn.Channel" Name="Root.Zeta"/>
    <Component Classname="BuiltIn.Channel" Name="Root.Alpha"/>
    <Component Classname="BuiltIn.GroupCompound" Name="Root.Events"/>
    <Component Classname="BuiltIn.EventKernel" Name="Root.Events.On 500Hz"/>
    <Component Classname="BuiltIn.EventKernel" Name="Root.Events.On 100Hz"/>
    <Component Classname="BuiltIn.EventKernel" Name="Root.Events.On Startup"/>
   </List>
  </ComponentStream>
 </Project>
</MoTeCM1BuildSession>
"#;

#[test]
fn a_built_trigger_resolves_back_to_its_clock() {
    for (owner, clock) in [
        ("Root.Engine.Update", "Root.Events.On 100Hz"),
        ("Root.A.B.C.D", "Root.Events.On Startup"),
        ("Root.Events.Tick", "Root.Events.On 10Hz"),
        ("Other.Script", "Root.Events.On 1Hz"),
        ("Root.A", "Root.A.Child"),
    ] {
        let trigger = build_trigger(owner, clock);
        assert_eq!(resolve_trigger(owner, &trigger).as_deref(), Some(clock), "{owner} -> {clock}");
    }
    assert_eq!(build_trigger("Root.Engine.Update", "Root.Events.On 100Hz"), "Parent.Parent.Events.On 100Hz");
}

#[test]
fn a_trigger_to_an_ancestor_does_not_round_trip() {
    // The clock is the owner's own group: the built trigger is `Parent.` alone,
    // which resolves to the group's path with a trailing dot.
    let trigger = build_trigger("Root.A", "Root");
    assert_eq!(trigger, "Parent.");
    assert_eq!(resolve_trigger("Root.A", &trigger).as_deref(), Some("Root."));
}

#[test]
fn resolving_climbs_no_higher_than_the_root() {
    assert_eq!(resolve_trigger("Root.A", "Parent.Parent.Parent.X"), None);
    assert_eq!(resolve_trigger("Root.A", "Parent.Parent.X").as_deref(), Some("X"));
}

#[test]
fn validate_reports_in_path_then_message_order() {
    let findings = validate(PRJ).unwrap();
    assert!(findings.len() >= 3, "{findings:?}");
    for w in findings.windows(2) {
        let a = (w[0].path.as_str(), w[0].message.as_str());
        let b = (w[1].path.as_str(), w[1].message.as_str());
        assert!(a <= b, "{a:?} before {b:?}");
    }
}

#[test]
fn available_rates_are_sorted() {
    let rates = available_rates(PRJ).unwrap();
    assert_eq!(rates, vec!["100Hz".to_string(), "500Hz".to_string(), "Startup".to_string()]);
}

/// The text before `start` and after `end` of the component element is the same
/// in both texts.
fn unchanged_outside(before: &str, after: &str, name: &str) {
    let open = before.find(&format!("Name=\"{name}\"")).unwrap();
    let start = before[..open].rfind("<Component").unwrap();
    let rest = &before[start..];
    let end = start
        + if rest[..rest.find('>').unwrap()].ends_with('/') {
            rest.find('>').unwrap() + 1
        } else {
            rest.find("</Component>").unwrap() + "</Component>".len()
        };
    assert_eq!(&after[..start], &before[..start], "text before the component changed");
    let tail = &before[end..];
    assert!(after.ends_with(tail), "text after the component changed");
}

#[test]
fn property_edits_change_only_the_component() {
    let out = set_security(PRJ, "Root.Engine.Speed", "Calibration").unwrap();
    unchanged_outside(PRJ, &out, "Root.Engine.Speed");
    let out = set_security(PRJ, "Root.Engine.Plain", "Resource").unwrap();
    unchanged_outside(PRJ, &out, "Root.Engine.Plain");
    let out = set_unit(PRJ, "Root.Engine.Speed", "rpm").unwrap();
    unchanged_outside(PRJ, &out, "Root.Engine.Speed");
    let out = set_dps(PRJ, "Root.Alpha", 3).unwrap();
    unchanged_outside(PRJ, &out, "Root.Alpha");
    let out = set_call_rate(PRJ, "Root.Engine.Update", "startup").unwrap();
    unchanged_outside(PRJ, &out, "Root.Engine.Update");
    assert!(out.contains(r#"SelectedTrigger="Parent.Parent.Events.On Startup""#));
}

#[test]
fn each_error_reads_as_the_command_line_prints_it() {
    let xml = set_security("<not xml", "Root", "Tune").unwrap_err();
    assert!(matches!(xml, EditError::Xml(_)));
    assert!(xml.message().starts_with("invalid .m1prj XML: "), "{}", xml.message());
    let missing = set_security(PRJ, "Root.Ghost", "Tune").unwrap_err();
    assert_eq!(missing, EditError::NoSuchComponent("Root.Ghost".to_string()));
    assert_eq!(missing.message(), "no component named `Root.Ghost` in the project");
    let dup = m1_project::create_group(PRJ, "Root.Engine").unwrap_err();
    assert_eq!(dup.message(), "a component named `Root.Engine` already exists");
    let bad = set_security(PRJ, "Root.Engine.Speed", "Wizard").unwrap_err();
    assert_eq!(
        bad.message(),
        "unknown security level `Wizard`; valid: Tune, Calibration, Master Calibration, Resource"
    );
}

#[test]
fn setting_dps_twice_is_setting_the_second_value() {
    for comp in ["Root.Engine.Speed", "Root.Engine.Plain", "Root.Zeta"] {
        let once = set_dps(PRJ, comp, 3).unwrap();
        let twice = set_dps(&set_dps(PRJ, comp, 12).unwrap(), comp, 3).unwrap();
        assert_eq!(twice, once);
    }
}

#[test]
fn every_channel_without_security_is_reported() {
    let findings = validate(PRJ).unwrap();
    for path in ["Root.Engine.Plain", "Root.Zeta", "Root.Alpha"] {
        assert!(findings.iter().any(|f| f.path == path
            && f.code == Some(1601)
            && f.message.starts_with("no security group selected")));
    }
    assert!(!findings.iter().any(|f| f.path == "Root.Engine.Speed" && f.code == Some(1601)));
}

const DBC_FILE: &str = r#"<?xml version="1.0"?>
<MoTeCM1BuildSession>
 <Project Name="Sample">
  <ComponentStream>
   <List><Component Classname="BuiltIn.CAN.DBC" MD5="abcdef" Name="Sample"/></List>
  </ComponentStream>
 </Project>
</MoTeCM1BuildSession>
"#;

#[test]
fn dbc_md5_finding_comes_exactly_when_out_of_sync() {
    let same = validate_dbc_file(DBC_FILE, "DBC.Sample", "Sample", Some("ABCDEF"), "Sample", "can/Sample.m1dbc")
        .unwrap();
    assert!(same.is_empty(), "{same:?}");
    let off = validate_dbc_file(DBC_FILE, "DBC.Sample", "Sample", Some("123456"), "Sample", "can/Sample.m1dbc")
        .unwrap();
    assert_eq!(off.len(), 1);
    assert_eq!(off[0].path, "DBC.Sample");
    assert_eq!(off[0].level, FindingLevel::Error);
    assert_eq!(
        off[0].message,
        "`can/Sample.m1dbc` internal MD5 `abcdef` does not match the DBCRoot MD5 `123456` \u{2014} the imported database is out of sync"
    );
}

#[test]
fn dbc_stem_finding_only_when_module_matches_and_stem_differs() {
    let renamed = validate_dbc_file(DBC_FILE, "DBC.Sample", "Sample", None, "Other", "can/Other.m1dbc").unwrap();
    assert_eq!(renamed.len(), 1);
    assert_eq!(
        renamed[0].message,
        "`can/Other.m1dbc` internal module name `Sample` does not match its filename stem `Other`"
    );
    let both = validate_dbc_file(DBC_FILE, "DBC.X", "X", Some("0"), "Other", "f").unwrap();
    assert_eq!(both.len(), 2);
    assert!(both.iter().all(|f| f.path == "DBC.X" && f.level == FindingLevel::Error));
    assert!(both[0].message < both[1].message);
    assert!(both.iter().all(|f| !f.message.contains("filename stem")));
}

#[test]
fn a_call_rate_trigger_resolves_to_its_clock() {
    for (script, rate, clock) in [
        ("Root.Engine.Update", "100", "Root.Events.On 100Hz"),
        ("Root.Engine.Update", "STARTUP", "Root.Events.On Startup"),
    ] {
        let out = set_call_rate(PRJ, script, rate).unwrap();
        let start = out.find("SelectedTrigger=\"").unwrap() + "SelectedTrigger=\"".len();
        let len = out[start..].find('"').unwrap();
        let trigger = &out[start..start + len];
        assert_eq!(resolve_trigger(script, trigger).as_deref(), Some(clock));
    }
}

#[test]
fn the_listing_has_one_entry_per_component_in_order() {
    let es = m1_project::list_components(PRJ).unwrap();
    let paths: Vec<&str> = es.iter().map(|e| e.path.as_str()).collect();
    assert_eq!(
        paths,
        [
            "Root", "Root.Engine", "Root.Engine.Speed", "Root.Engine.Plain", "Root.Engine.Update",
            "Root.Zeta", "Root.Alpha", "Root.Events", "Root.Events.On 500Hz",
            "Root.Events.On 100Hz", "Root.Events.On Startup",
        ]
    );
    assert!(es.iter().all(|e| e.depth == e.path.matches('.').count()));
    assert_eq!(es[2].ty.as_deref(), Some("f32"));
    assert_eq!(es[2].security.as_deref(), Some("Tune"));
}
