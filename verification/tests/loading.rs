use entity_templates::document::{Document, EntityId};
use entity_templates::resolver::ApplyError;
use entity_templates::subsystem::{
    Declaration, DeclarationKind, LoadError, TemplateFile, TemplateSubSystem,
};
use entity_templates::template::{ParseError, Template};
use std::path::PathBuf;

fn inline(text: &str) -> Declaration {
    Declaration { kind: "template".to_string(), data: text.to_string() }
}

fn from_file(path: &str) -> Declaration {
    Declaration { kind: "templates_from_file".to_string(), data: path.to_string() }
}

fn file(path: &str, contents: &str) -> TemplateFile {
    TemplateFile { path: path.to_string(), contents: contents.to_string() }
}

fn value_of(system: &TemplateSubSystem, entity_type: &str, name: &str) -> Option<String> {
    system.get(entity_type).and_then(|t| t.properties.get(name).cloned())
}

#[test]
fn new_subsystem_keeps_its_root_path_and_no_templates() {
    let system = TemplateSubSystem::new(PathBuf::from("assets/templates"));
    assert_eq!(system.root_path(), &PathBuf::from("assets/templates"));
    assert_eq!(system.templates().len(), 0);
    assert!(system.get("Rock").is_none());
}

#[test]
fn declaration_kinds_are_the_two_tags() {
    assert_eq!(DeclarationKind::of("template"), Some(DeclarationKind::Inline));
    assert_eq!(DeclarationKind::of("templates_from_file"), Some(DeclarationKind::FromFile));
    assert_eq!(DeclarationKind::of("templates"), None);
    assert_eq!(DeclarationKind::of("Template"), None);
    assert_eq!(DeclarationKind::of(""), None);
}

#[test]
fn register_each_registers_in_order() {
    let mut system = TemplateSubSystem::new(PathBuf::new());
    let templates = vec![
        Template::from_string(r#"<Rock x="1"/>"#).unwrap(),
        Template::from_string(r#"<Tree h="3"/>"#).unwrap(),
        Template::from_string(r#"<Rock x="2"/>"#).unwrap(),
    ];
    system.register_each(templates);
    assert_eq!(system.templates().len(), 2);
    assert_eq!(value_of(&system, "Rock", "x"), Some("2".to_string()));
    assert_eq!(value_of(&system, "Tree", "h"), Some("3".to_string()));
}

#[test]
fn a_file_with_two_templates_registers_both() {
    let contents = r#"<Tpml><Rock x="5"/><Granit inherits="Rock" y="2"/></Tpml>"#;
    let mut system = TemplateSubSystem::new(PathBuf::new());
    assert_eq!(system.load_templates_from_file(contents), Ok(()));
    assert_eq!(system.templates().len(), 2);
    assert_eq!(value_of(&system, "Rock", "x"), Some("5".to_string()));
    assert_eq!(value_of(&system, "Granit", "y"), Some("2".to_string()));
    assert_eq!(system.get("Granit").unwrap().parent, Some("Rock".to_string()));
    assert!(system.get("Tpml").is_none());
}

#[test]
fn a_file_may_hold_a_single_template_without_envelope() {
    let mut system = TemplateSubSystem::new(PathBuf::new());
    assert_eq!(system.load_templates_from_file(r#"<Rock x="5"><Pebble/></Rock>"#), Ok(()));
    assert_eq!(system.templates().len(), 1);
    assert_eq!(system.get("Rock").unwrap().children.len(), 1);
}

#[test]
fn a_malformed_file_registers_nothing() {
    let mut system = TemplateSubSystem::new(PathBuf::new());
    system.register(Template::from_string(r#"<Tree h="3"/>"#).unwrap());
    let contents = r#"<Tpml><Rock x="5"/><Granit y="2"></Tpml>"#;
    assert_eq!(
        system.load_templates_from_file(contents),
        Err(LoadError::Parse(ParseError::Malformed))
    );
    assert_eq!(system.templates().len(), 1);
    assert!(system.get("Rock").is_none());
    assert!(system.get("Tree").is_some());
}

#[test]
fn file_and_inline_declarations_shadow_each_other_by_order() {
    let files = vec![file("rocks.xml", r#"<Tpml><Rock x="file"/><Granit y="file"/></Tpml>"#)];

    let mut inline_last = TemplateSubSystem::new(PathBuf::new());
    let declarations = vec![from_file("rocks.xml"), inline(r#"<Rock x="inline"/>"#)];
    assert_eq!(inline_last.load_templates(&declarations, &files), Ok(()));
    assert_eq!(inline_last.templates().len(), 2);
    assert_eq!(value_of(&inline_last, "Rock", "x"), Some("inline".to_string()));
    assert_eq!(value_of(&inline_last, "Granit", "y"), Some("file".to_string()));

    let mut file_last = TemplateSubSystem::new(PathBuf::new());
    let declarations = vec![inline(r#"<Rock x="inline"/>"#), from_file("rocks.xml")];
    assert_eq!(file_last.load_templates(&declarations, &files), Ok(()));
    assert_eq!(file_last.templates().len(), 2);
    assert_eq!(value_of(&file_last, "Rock", "x"), Some("file".to_string()));
    assert_eq!(value_of(&file_last, "Granit", "y"), Some("file".to_string()));
}

#[test]
fn the_first_file_of_a_path_is_the_one_loaded() {
    let files = vec![
        file("other.xml", r#"<Tree/>"#),
        file("rocks.xml", r#"<Rock x="1"/>"#),
        file("rocks.xml", r#"<Rock x="2"/>"#),
    ];
    let mut system = TemplateSubSystem::new(PathBuf::new());
    assert_eq!(system.load_declaration(&from_file("rocks.xml"), &files), Ok(()));
    assert_eq!(system.templates().len(), 1);
    assert_eq!(value_of(&system, "Rock", "x"), Some("1".to_string()));
}

#[test]
fn an_unknown_kind_stops_the_loading() {
    let mut system = TemplateSubSystem::new(PathBuf::new());
    let declarations = vec![
        inline(r#"<Rock x="5"/>"#),
        Declaration { kind: "prefab".to_string(), data: "<Tree/>".to_string() },
        inline(r#"<Granit y="2"/>"#),
    ];
    assert_eq!(
        system.load_templates(&declarations, &Vec::new()),
        Err(LoadError::UnknownDeclarationKind("prefab".to_string()))
    );
    assert_eq!(system.templates().len(), 1);
    assert!(system.get("Rock").is_some());
    assert!(system.get("Granit").is_none());
}

#[test]
fn a_file_that_was_not_read_is_an_io_error() {
    let mut system = TemplateSubSystem::new(PathBuf::new());
    let declarations = vec![from_file("rocks.xml")];
    let files = vec![file("trees.xml", "<Tree/>")];
    assert_eq!(
        system.load_templates(&declarations, &files),
        Err(LoadError::Io("rocks.xml".to_string()))
    );
    assert_eq!(system.templates().len(), 0);
}

#[test]
fn a_malformed_inline_template_is_a_parse_error() {
    let mut system = TemplateSubSystem::new(PathBuf::new());
    let declarations = vec![inline(r#"<Rock x="5"/>"#), inline(r#"<Granit y="2">"#)];
    assert_eq!(
        system.load_templates(&declarations, &Vec::new()),
        Err(LoadError::Parse(ParseError::Malformed))
    );
    assert_eq!(system.templates().len(), 1);
    assert_eq!(
        system.load_declaration(&from_file("bad.xml"), &vec![file("bad.xml", "<Rock")]),
        Err(LoadError::Parse(ParseError::Malformed))
    );
}

#[test]
fn an_inline_declaration_holds_one_template() {
    let mut system = TemplateSubSystem::new(PathBuf::new());
    assert_eq!(
        system.load_declaration(&inline(r#"<Tpml><Rock/><Tree/></Tpml>"#), &Vec::new()),
        Ok(())
    );
    assert_eq!(system.templates().len(), 1);
    assert_eq!(system.get("Tpml").unwrap().children.len(), 2);
}

#[test]
fn loading_a_document_sweeps_the_entities_it_held() {
    let mut doc = Document::new("Root");
    let root = doc.get_root_entity().unwrap();
    let rock = doc.create_child_entity(root, "Rock").unwrap();
    let tree = doc.create_child_entity(root, "Tree").unwrap();
    let bad = doc.create_child_entity(root, "Bad").unwrap();
    let granit = doc.create_child_entity(rock, "Granit").unwrap();
    doc.set_property(granit, "x", "own").unwrap();

    let mut system = TemplateSubSystem::new(PathBuf::new());
    let declarations = vec![
        inline(r#"<Rock x="5"/>"#),
        inline(r#"<Bad inherits="Gone"/>"#),
        from_file("more.xml"),
        inline(r#"<Never/>"#),
    ];
    let files = vec![file("more.xml", r#"<Tpml><Granit inherits="Rock" y="2"/><Tree><Leaf c="g"/></Tree></Tpml>"#)];
    let report = system.on_document_loaded(&mut doc, &declarations, &files);

    assert_eq!(report.load, Ok(()));
    assert_eq!(report.failures, vec![(bad, ApplyError::MissingParent("Gone".to_string()))]);
    assert_eq!(system.templates().len(), 5);
    assert!(!doc.has_property(root, "x"));
    assert_eq!(doc.get_property(rock, "x"), Ok("5".to_string()));
    assert_eq!(doc.get_property(granit, "x"), Ok("own".to_string()));
    assert_eq!(doc.get_property(granit, "y"), Ok("2".to_string()));
    assert_eq!(doc.len(), 6);
    let leaf = EntityId { index: 5 };
    assert_eq!(doc.get_entity_type_name(leaf), Ok("Leaf".to_string()));
    assert_eq!(doc.get_parent(leaf), Some(tree));
    assert_eq!(doc.get_property(leaf, "c"), Ok("g".to_string()));
}

#[test]
fn a_failed_load_is_reported_and_the_sweep_still_runs() {
    let mut doc = Document::new("Root");
    let root = doc.get_root_entity().unwrap();
    let rock = doc.create_child_entity(root, "Rock").unwrap();
    let tree = doc.create_child_entity(root, "Tree").unwrap();

    let mut system = TemplateSubSystem::new(PathBuf::new());
    let declarations = vec![inline(r#"<Rock x="5"/>"#), from_file("gone.xml"), inline(r#"<Tree h="3"/>"#)];
    let report = system.on_document_loaded(&mut doc, &declarations, &Vec::new());

    assert_eq!(report.load, Err(LoadError::Io("gone.xml".to_string())));
    assert!(report.failures.is_empty());
    assert_eq!(doc.get_property(rock, "x"), Ok("5".to_string()));
    assert!(!doc.has_property(tree, "h"));
}

#[test]
fn spawned_entities_are_not_swept_again() {
    let mut doc = Document::new("Root");
    let root = doc.get_root_entity().unwrap();
    doc.create_child_entity(root, "Tree").unwrap();

    let mut system = TemplateSubSystem::new(PathBuf::new());
    let declarations = vec![inline(r#"<Tree><Leaf/></Tree>"#), inline(r#"<Leaf c="g"/>"#)];
    let report = system.on_document_loaded(&mut doc, &declarations, &Vec::new());

    assert_eq!(report.load, Ok(()));
    assert_eq!(doc.len(), 3);
    assert!(!doc.has_property(EntityId { index: 2 }, "c"));
}

#[test]
fn a_new_document_discards_the_templates_of_the_one_before() {
    let mut system = TemplateSubSystem::new(PathBuf::new());

    let mut first = Document::new("Root");
    let root = first.get_root_entity().unwrap();
    let old = first.create_child_entity(root, "Old").unwrap();
    let report = system.on_document_loaded(&mut first, &vec![inline(r#"<Old a="1"/>"#)], &Vec::new());
    assert_eq!(report.load, Ok(()));
    assert_eq!(first.get_property(old, "a"), Ok("1".to_string()));
    assert_eq!(system.templates().len(), 1);
    assert!(system.get("Old").is_some());

    let mut second = Document::new("Root");
    let root = second.get_root_entity().unwrap();
    let rock = second.create_child_entity(root, "Rock").unwrap();
    let stale = second.create_child_entity(root, "Old").unwrap();
    let report = system.on_document_loaded(&mut second, &vec![inline(r#"<Rock x="5"/>"#)], &Vec::new());
    assert_eq!(report.load, Ok(()));
    assert!(report.failures.is_empty());
    assert_eq!(system.templates().len(), 1);
    assert!(system.get("Rock").is_some());
    assert!(system.get("Old").is_none());
    assert_eq!(second.get_property(rock, "x"), Ok("5".to_string()));
    assert!(!second.has_property(stale, "a"));
}

#[test]
fn a_document_without_declarations_leaves_no_templates() {
    let mut system = TemplateSubSystem::new(PathBuf::new());
    system.register(Template::from_string(r#"<Old a="1"/>"#).unwrap());
    let mut doc = Document::new("Old");
    let root = doc.get_root_entity().unwrap();
    let report = system.on_document_loaded(&mut doc, &Vec::new(), &Vec::new());
    assert_eq!(report.load, Ok(()));
    assert_eq!(system.templates().len(), 0);
    assert!(!doc.has_property(root, "a"));
}

#[test]
fn clear_forgets_every_template() {
    let mut system = TemplateSubSystem::new(PathBuf::from("assets"));
    system.register(Template::from_string(r#"<Rock x="5"/>"#).unwrap());
    system.register(Template::from_string(r#"<Tree/>"#).unwrap());
    system.clear();
    assert_eq!(system.templates().len(), 0);
    assert!(system.get("Rock").is_none());
    assert_eq!(system.root_path(), &PathBuf::from("assets"));
}

#[test]
fn templates_can_be_printed() {
    let t = Template::from_string(r#"<Rock x="5"><Pebble/></Rock>"#).unwrap();
    let text = format!("{:?}", t);
    assert!(text.contains("Rock"));
    assert!(text.contains("Pebble"));
    assert!(text.contains("\"5\""));
}
