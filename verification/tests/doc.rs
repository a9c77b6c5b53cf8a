//! The edits and queries on a parsed document, and on a document model written
//! out by hand.
use m1_project::edits::{set_call_rate_doc, set_security_doc};
use m1_project::format::convert_format_doc;
use m1_project::query::{list_components_doc, script_components_doc};
use m1_project::structure::{delete_component_doc, rename_component_doc};
use m1_project::xml::{Doc, XmlAttr, XmlNode, parse_doc};
use m1_project::{
    EditError, convert_format, delete_component, list_components, rename_component,
    script_components, set_call_rate, set_security,
};

const PRJ: &str = r#"<?xml version="1.0"?>
<MoTeCM1BuildSession>
 <Project Name="T" FileFormat="10108">
  <ComponentStream>
   <List>
    <Component Classname="BuiltIn.GroupCompound" Name="Root"/>
    <Component Classname="BuiltIn.GroupCompound" Name="Root.Engine"/>
    <Component Classname="BuiltIn.Channel" Name="Root.Engine.Speed">
     <Props Type="f32" Security="Tune"/>
    </Component>
    <Component Classname="BuiltIn.MethodUser" Name="Root.Engine.Update"/>
    <Component Classname="BuiltIn.GroupCompound" Name="Root.Events"/>
    <Component Classname="BuiltIn.EventKernel" Name="Root.Events.On 100Hz"/>
   </List>
  </ComponentStream>
 </Project>
</MoTeCM1BuildSession>
"#;

fn chars(s: &str) -> Vec<char> {
    s.chars().collect()
}

fn attr(name: &str, value: &str, start: usize, vstart: usize) -> XmlAttr {
    XmlAttr {
        name: chars(name),
        value: chars(value),
        range: start..vstart + value.len() + 1,
        value_range: vstart..vstart + value.len(),
    }
}

/// `<a><Component Classname="X" Name="R"/></a>` as the parser reports it.
fn hand_doc() -> Doc {
    let text = r#"<a><Component Classname="X" Name="R"/></a>"#;
    Doc {
        text: chars(text),
        nodes: vec![
            XmlNode {
                element: false,
                tag: vec![],
                parent: None,
                last: Some(2),
                range: 0..42,
                text: None,
                attrs: vec![],
            },
            XmlNode {
                element: true,
                tag: chars("a"),
                parent: Some(0),
                last: Some(2),
                range: 0..42,
                text: None,
                attrs: vec![],
            },
            XmlNode {
                element: true,
                tag: chars("Component"),
                parent: Some(1),
                last: Some(2),
                range: 3..38,
                text: None,
                attrs: vec![attr("Classname", "X", 14, 25), attr("Name", "R", 28, 34)],
            },
        ],
    }
}

#[test]
fn hand_written_model_lists_its_component() {
    let es = list_components_doc(&hand_doc());
    assert_eq!(es.len(), 1);
    assert_eq!(es[0].path, "R");
    assert_eq!(es[0].classname, "X");
    assert_eq!(es[0].depth, 0);
    assert_eq!(es[0].security, None);
}

#[test]
fn hand_written_model_takes_a_security_group() {
    let out = set_security_doc(&hand_doc(), "R", "Tune").unwrap();
    assert!(out.contains(r#"<Props Security="Tune"/>"#));
    assert!(out.starts_with(r#"<a><Component Classname="X" Name="R">"#));
    assert_eq!(
        set_security_doc(&hand_doc(), "R", "Wizard"),
        Err(EditError::Invalid(
            "unknown security level `Wizard`; valid: Tune, Calibration, Master Calibration, Resource"
                .into()
        ))
    );
    assert_eq!(
        set_security_doc(&hand_doc(), "Q", "Tune"),
        Err(EditError::NoSuchComponent("Q".into()))
    );
}

#[test]
fn hand_written_model_deletes_and_renames() {
    assert_eq!(delete_component_doc(&hand_doc(), "R", false, false).unwrap(), "<a></a>");
    let (out, renames) = rename_component_doc(&hand_doc(), "R", "S").unwrap();
    assert_eq!(out, r#"<a><Component Classname="X" Name="S"/></a>"#);
    assert!(renames.is_empty());
}

#[test]
fn document_forms_agree_with_the_text_forms() {
    let d = parse_doc(PRJ).unwrap();
    assert_eq!(
        format!("{:?}", list_components_doc(&d)),
        format!("{:?}", list_components(PRJ).unwrap())
    );
    assert_eq!(list_components_doc(&d).len(), 6);
    assert_eq!(
        format!("{:?}", script_components_doc(&d)),
        format!("{:?}", script_components(PRJ).unwrap())
    );
    assert_eq!(
        set_security_doc(&d, "Root.Engine.Speed", "Resource"),
        set_security(PRJ, "Root.Engine.Speed", "Resource")
    );
    assert_eq!(
        set_call_rate_doc(&d, "Root.Engine.Update", "100Hz"),
        set_call_rate(PRJ, "Root.Engine.Update", "100Hz")
    );
    assert_eq!(
        delete_component_doc(&d, "Root.Engine", true, false),
        delete_component(PRJ, "Root.Engine", true, false)
    );
    assert_eq!(
        rename_component_doc(&d, "Root.Engine", "Motor"),
        rename_component(PRJ, "Root.Engine", "Motor")
    );
    assert_eq!(convert_format_doc(&d, 10108), convert_format(PRJ, 10108));
    assert_eq!(convert_format_doc(&d, 10108).unwrap(), PRJ);
}
