use entity_templates::document::Document;
use entity_templates::events::TagEvent;
use entity_templates::properties::Property;
use entity_templates::subsystem::{Declaration, TemplateSubSystem};
use entity_templates::template::{ParseError, Template};
use std::path::PathBuf;

fn inline(text: &str) -> Declaration {
    Declaration { kind: "template".to_string(), data: text.to_string() }
}

fn attribute(name: &str, value: &str) -> Property {
    Property { name: name.to_string(), value: value.to_string() }
}

fn start(name: &str, attributes: Vec<Property>) -> TagEvent {
    TagEvent::Start { name: name.to_string(), attributes }
}

fn end(name: &str) -> TagEvent {
    TagEvent::End { name: name.to_string() }
}

#[test]
fn test_template() {
    let template = r#"<Rock x="5"/>"#;
    let mut doc = Document::new("Root");
    let root = doc.get_root_entity().unwrap();
    let ent = doc.create_child_entity(root, "Rock").unwrap();
    doc.set_property(ent, "name", "tmp").unwrap();

    let mut system = TemplateSubSystem::new(PathBuf::new());
    let report = system.on_document_loaded(&mut doc, &vec![inline(template)], &Vec::new());

    assert_eq!(report.load, Ok(()));
    assert!(report.failures.is_empty());
    assert_eq!(doc.get_property(ent, "x"), Ok("5".to_string()));
}

#[test]
fn test_template_inherits() {
    let template1 = r#"<Rock x="5"/>"#;
    let template2 = r#"<Granit inherits="Rock" y="2"/>"#;
    let mut doc = Document::new("Root");
    let root = doc.get_root_entity().unwrap();
    let ent = doc.create_child_entity(root, "Granit").unwrap();
    doc.set_property(ent, "name", "tmp").unwrap();

    let mut system = TemplateSubSystem::new(PathBuf::new());
    let declarations = vec![inline(template1), inline(template2)];
    let report = system.on_document_loaded(&mut doc, &declarations, &Vec::new());

    assert_eq!(report.load, Ok(()));
    assert_eq!(doc.get_property(ent, "x"), Ok("5".to_string()));
    assert_eq!(doc.get_property(ent, "y"), Ok("2".to_string()));
}

#[test]
fn parsed_template_is_found_under_its_type() {
    let mut system = TemplateSubSystem::new(PathBuf::new());
    system.register(Template::from_string(r#"<Rock x="5"/>"#).unwrap());

    let rock = system.get("Rock").unwrap();
    assert_eq!(rock.entity_type, "Rock");
    assert_eq!(rock.properties.len(), 1);
    assert_eq!(rock.properties.get("x"), Some(&"5".to_string()));
    assert_eq!(rock.parent, None);
    assert!(rock.children.is_empty());
    assert!(system.get("Granit").is_none());
    assert_eq!(system.templates().len(), 1);
}

#[test]
fn parse_takes_parent_from_inherits() {
    let t = Template::from_string(r#"<Granit inherits="Rock" y="2"/>"#).unwrap();
    assert_eq!(t.entity_type, "Granit");
    assert_eq!(t.parent, Some("Rock".to_string()));
    assert_eq!(t.properties.len(), 1);
    assert!(!t.properties.contains("inherits"));
    assert_eq!(t.properties.get("y"), Some(&"2".to_string()));
}

#[test]
fn parse_keeps_children_in_document_order() {
    let text = r#"<Tree height="3"><Branch side="left"><Leaf/></Branch><Branch side="right"/></Tree>"#;
    let t = Template::from_string(text).unwrap();
    assert_eq!(t.entity_type, "Tree");
    assert_eq!(t.properties.get("height"), Some(&"3".to_string()));
    assert_eq!(t.children.len(), 2);
    assert_eq!(t.children[0].entity_type, "Branch");
    assert_eq!(t.children[0].properties.get("side"), Some(&"left".to_string()));
    assert_eq!(t.children[0].children.len(), 1);
    assert_eq!(t.children[0].children[0].entity_type, "Leaf");
    assert_eq!(t.children[1].entity_type, "Branch");
    assert_eq!(t.children[1].properties.get("side"), Some(&"right".to_string()));
    assert!(t.children[1].children.is_empty());
}

#[test]
fn parse_keeps_attribute_order_and_unescapes_values() {
    let t = Template::from_string(r#"<Rock b="1" a="&lt;2&gt;" c="3"/>"#).unwrap();
    assert_eq!(t.properties.len(), 3);
    assert_eq!(t.properties.entry(0).name, "b");
    assert_eq!(t.properties.entry(1).name, "a");
    assert_eq!(t.properties.entry(1).value, "<2>");
    assert_eq!(t.properties.entry(2).name, "c");
}

#[test]
fn parse_ignores_text_and_comments() {
    let t = Template::from_string("<Rock x=\"5\">\n  <!-- a pebble -->\n  <Pebble/>\n</Rock>").unwrap();
    assert_eq!(t.children.len(), 1);
    assert_eq!(t.children[0].entity_type, "Pebble");
}

#[test]
fn parse_uses_local_tag_names() {
    let t = Template::from_string(r#"<g:Rock xmlns:g="urn:g" g:x="5"/>"#).unwrap();
    assert_eq!(t.entity_type, "Rock");
    assert_eq!(t.properties.get("x"), Some(&"5".to_string()));
}

#[test]
fn parse_rejects_malformed_text() {
    assert_eq!(Template::from_string(r#"<Rock x="5">"#).err(), Some(ParseError::Malformed));
    assert_eq!(Template::from_string(r#"<Rock x=5/>"#).err(), Some(ParseError::Malformed));
    assert_eq!(Template::from_string(r#"<Rock></Stone>"#).err(), Some(ParseError::Malformed));
    assert_eq!(Template::from_string("").err(), Some(ParseError::Malformed));
    assert_eq!(Template::from_string("Rock").err(), Some(ParseError::Malformed));
    assert_eq!(Template::from_string("<Rock/><Stone/>").err(), Some(ParseError::Malformed));
}

#[test]
fn from_tag_lets_the_later_attribute_win() {
    let attributes = vec![
        attribute("x", "1"),
        attribute("inherits", "Stone"),
        attribute("y", "2"),
        attribute("x", "3"),
        attribute("inherits", "Rock"),
    ];
    let t = Template::from_tag("Granit", &attributes);
    assert_eq!(t.entity_type, "Granit");
    assert_eq!(t.parent, Some("Rock".to_string()));
    assert_eq!(t.properties.len(), 2);
    assert_eq!(t.properties.entry(0).name, "x");
    assert_eq!(t.properties.entry(0).value, "3");
    assert_eq!(t.properties.entry(1).name, "y");
    assert_eq!(t.properties.entry(1).value, "2");
    assert!(t.children.is_empty());
}

#[test]
fn new_template_is_empty() {
    let t = Template::new("Rock".to_string());
    assert_eq!(t.entity_type, "Rock");
    assert_eq!(t.properties.len(), 0);
    assert_eq!(t.parent, None);
    assert!(t.children.is_empty());
}

#[test]
fn parse_event_builds_the_tree_on_a_stack() {
    let mut stack: Vec<Template> = Vec::new();
    assert!(Template::parse_event(&mut stack, &start("Tree", vec![attribute("h", "3")])).unwrap().is_none());
    assert_eq!(stack.len(), 1);
    assert!(Template::parse_event(&mut stack, &TagEvent::Other).unwrap().is_none());
    assert_eq!(stack.len(), 1);
    assert!(Template::parse_event(&mut stack, &start("Leaf", Vec::new())).unwrap().is_none());
    assert_eq!(stack.len(), 2);
    assert!(Template::parse_event(&mut stack, &end("Leaf")).unwrap().is_none());
    assert_eq!(stack.len(), 1);
    assert_eq!(stack[0].children.len(), 1);
    let tree = Template::parse_event(&mut stack, &end("Tree")).unwrap().unwrap();
    assert!(stack.is_empty());
    assert_eq!(tree.entity_type, "Tree");
    assert_eq!(tree.properties.get("h"), Some(&"3".to_string()));
    assert_eq!(tree.children.len(), 1);
    assert_eq!(tree.children[0].entity_type, "Leaf");
}

#[test]
fn parse_event_rejects_an_end_without_its_start() {
    let mut stack: Vec<Template> = Vec::new();
    assert_eq!(Template::parse_event(&mut stack, &end("Rock")).err(), Some(ParseError::Malformed));
    assert!(stack.is_empty());

    Template::parse_event(&mut stack, &start("Rock", Vec::new())).unwrap();
    assert_eq!(Template::parse_event(&mut stack, &end("Stone")).err(), Some(ParseError::Malformed));
    assert_eq!(stack.len(), 1);
    assert_eq!(stack[0].entity_type, "Rock");
}

#[test]
fn parse_events_returns_every_top_level_template() {
    let events = vec![
        TagEvent::Other,
        start("Rock", vec![attribute("x", "5")]),
        end("Rock"),
        start("Tree", Vec::new()),
        start("Leaf", Vec::new()),
        end("Leaf"),
        end("Tree"),
        TagEvent::Other,
    ];
    let templates = Template::parse_events(&events).unwrap();
    assert_eq!(templates.len(), 2);
    assert_eq!(templates[0].entity_type, "Rock");
    assert_eq!(templates[1].entity_type, "Tree");
    assert_eq!(templates[1].children.len(), 1);
    assert_eq!(Template::from_events(&events).err(), Some(ParseError::Malformed));
    assert_eq!(Template::parse_events(&Vec::new()).unwrap().len(), 0);
    assert_eq!(Template::from_events(&Vec::new()).err(), Some(ParseError::Malformed));
}

#[test]
fn parse_events_rejects_an_open_tag_at_the_end() {
    let events = vec![start("Rock", Vec::new()), end("Rock"), start("Tree", Vec::new())];
    assert_eq!(Template::parse_events(&events).err(), Some(ParseError::Malformed));
    let events = vec![start("Rock", Vec::new()), end("Rock"), end("Rock")];
    assert_eq!(Template::parse_events(&events).err(), Some(ParseError::Malformed));
}

#[test]
fn parse_enveloped_passes_over_the_envelope() {
    let events = vec![
        start("Tpml", Vec::new()),
        start("Rock", Vec::new()),
        end("Rock"),
        start("Tree", Vec::new()),
        end("Tree"),
        end("Tpml"),
    ];
    let templates = Template::parse_enveloped(&events, "Tpml").unwrap();
    assert_eq!(templates.len(), 2);
    assert_eq!(templates[0].entity_type, "Rock");
    assert_eq!(templates[1].entity_type, "Tree");

    let whole = Template::parse_enveloped(&events, "Other").unwrap();
    assert_eq!(whole.len(), 1);
    assert_eq!(whole[0].entity_type, "Tpml");
    assert_eq!(whole[0].children.len(), 2);
}

#[test]
fn events_can_be_cloned() {
    let event = start("Rock", vec![attribute("x", "5"), attribute("y", "2")]);
    match event.clone() {
        TagEvent::Start { name, attributes } => {
            assert_eq!(name, "Rock");
            assert_eq!(attributes.len(), 2);
            assert_eq!(attributes[0].name, "x");
            assert_eq!(attributes[0].value, "5");
            assert_eq!(attributes[1].name, "y");
            assert_eq!(attributes[1].value, "2");
        }
        _ => panic!("a start tag clones to a start tag"),
    }
    assert!(matches!(end("Rock").clone(), TagEvent::End { name } if name == "Rock"));
    assert!(matches!(TagEvent::Other.clone(), TagEvent::Other));
}
