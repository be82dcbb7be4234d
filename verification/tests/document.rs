use entity_templates::document::{Document, DocumentError, EntityId};

#[test]
fn new_document_holds_its_root() {
    let doc = Document::new("Root");
    assert_eq!(doc.len(), 1);
    let root = doc.get_root_entity().unwrap();
    assert_eq!(root, EntityId { index: 0 });
    assert!(doc.contains_entity(root));
    assert_eq!(doc.get_entity_type_name(root), Ok("Root".to_string()));
    assert_eq!(doc.get_parent(root), None);
    assert_eq!(doc.entities(), vec![root]);
}

#[test]
fn children_are_created_in_order() {
    let mut doc = Document::new("Root");
    let root = doc.get_root_entity().unwrap();
    let a = doc.create_child_entity(root, "Rock").unwrap();
    let b = doc.create_child_entity(a, "Pebble").unwrap();
    assert_eq!(a, EntityId { index: 1 });
    assert_eq!(b, EntityId { index: 2 });
    assert_eq!(doc.len(), 3);
    assert_eq!(doc.get_entity_type_name(a), Ok("Rock".to_string()));
    assert_eq!(doc.get_entity_type_name(b), Ok("Pebble".to_string()));
    assert_eq!(doc.get_parent(a), Some(root));
    assert_eq!(doc.get_parent(b), Some(a));
    assert_eq!(doc.entities(), vec![root, a, b]);
    assert!(!doc.has_property(b, "x"));
}

#[test]
fn properties_are_set_and_read_per_entity() {
    let mut doc = Document::new("Root");
    let root = doc.get_root_entity().unwrap();
    let a = doc.create_child_entity(root, "Rock").unwrap();
    assert_eq!(doc.set_property(a, "x", "5"), Ok(()));
    assert_eq!(doc.set_property(a, "y", "2"), Ok(()));
    assert_eq!(doc.set_property(a, "x", "6"), Ok(()));
    assert!(doc.has_property(a, "x"));
    assert!(!doc.has_property(root, "x"));
    assert_eq!(doc.get_property(a, "x"), Ok("6".to_string()));
    assert_eq!(doc.get_property(a, "y"), Ok("2".to_string()));
    assert_eq!(doc.get_property(root, "x"), Err(DocumentError::NoSuchProperty));
    assert_eq!(doc.get_property(a, "z"), Err(DocumentError::NoSuchProperty));
}

#[test]
fn unknown_entities_are_refused() {
    let mut doc = Document::new("Root");
    let nobody = EntityId { index: 7 };
    assert!(!doc.contains_entity(nobody));
    assert_eq!(doc.get_entity_type_name(nobody), Err(DocumentError::NoSuchEntity));
    assert_eq!(doc.get_parent(nobody), None);
    assert!(!doc.has_property(nobody, "x"));
    assert_eq!(doc.get_property(nobody, "x"), Err(DocumentError::NoSuchEntity));
    assert_eq!(doc.set_property(nobody, "x", "5"), Err(DocumentError::NoSuchEntity));
    assert_eq!(doc.create_child_entity(nobody, "Rock"), Err(DocumentError::NoSuchEntity));
    assert_eq!(doc.len(), 1);
}

#[test]
fn the_empty_name_is_refused() {
    let mut doc = Document::new("Root");
    let root = doc.get_root_entity().unwrap();
    assert_eq!(doc.set_property(root, "", "5"), Err(DocumentError::InvalidPropertyName));
    assert!(!doc.has_property(root, ""));
    assert_eq!(doc.set_property(EntityId { index: 3 }, "", "5"), Err(DocumentError::NoSuchEntity));
}

#[test]
fn errors_say_why_in_words() {
    assert_eq!(DocumentError::NoSuchEntity.describe(), "no such entity");
    assert_eq!(DocumentError::NoSuchProperty.describe(), "no such property");
    assert_eq!(
        DocumentError::InvalidPropertyName.describe(),
        "the empty string names no property"
    );
}
