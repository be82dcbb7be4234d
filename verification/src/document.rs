//! The document: a tree of typed entities, each with its own properties.
//! Templates read and fill it through the operations below.

use vstd::prelude::*;
use crate::properties::{has_key, lookup, put, unique_keys, Properties};

verus! {

/// Identifies an entity of a document: its position in creation order.
#[derive(Clone, Copy, Debug, PartialEq, Eq, Structural)]
pub struct EntityId {
    pub index: usize,
}

/// Why a document refuses an operation.
#[derive(Clone, Copy, Debug, PartialEq, Eq, Structural)]
pub enum DocumentError {
    /// The document holds no entity with the given id.
    NoSuchEntity,
    /// The entity does not carry the property.
    NoSuchProperty,
    /// The empty string names no property.
    InvalidPropertyName,
}

/// The reason that a `DocumentError` gives, in words.
pub open spec fn description(e: DocumentError) -> Seq<char> {
    match e {
        DocumentError::NoSuchEntity => "no such entity"@,
        DocumentError::NoSuchProperty => "no such property"@,
        DocumentError::InvalidPropertyName => "the empty string names no property"@,
    }
}

impl DocumentError {
    /// The reason for the error, in words.
    pub fn describe(&self) -> (r: String)
        ensures
            r@ == description(*self),
    {
        match self {
            DocumentError::NoSuchEntity => "no such entity".to_owned(),
            DocumentError::NoSuchProperty => "no such property".to_owned(),
            DocumentError::InvalidPropertyName => "the empty string names no property".to_owned(),
        }
    }
}

/// The mathematical form of an entity.
pub struct EntityView {
    pub entity_type: Seq<char>,
    pub parent: Option<int>,
    pub properties: Seq<(Seq<char>, Seq<char>)>,
}

/// A document is well formed when its first entity, the root, is the one
/// entity without a parent; every other entity was created after its parent;
/// and no entity carries a property name twice.
pub open spec fn document_wf(d: Seq<EntityView>) -> bool {
    &&& d.len() >= 1 ==> d[0].parent is None
    &&& forall|i: int|
        1 <= i < d.len() ==> (#[trigger] d[i]).parent is Some && 0 <= d[i].parent->0 < i
    &&& forall|i: int| 0 <= i < d.len() ==> unique_keys((#[trigger] d[i]).properties)
}

/// A name that a document accepts for a property: any but the empty string.
pub open spec fn valid_property_name(name: Seq<char>) -> bool {
    name.len() > 0
}

/// A fresh entity of the given type under `parent`.
pub open spec fn new_entity(entity_type: Seq<char>, parent: Option<int>) -> EntityView {
    EntityView { entity_type, parent, properties: Seq::empty() }
}

/// `d` with the properties of entity `i` replaced.
pub open spec fn with_properties(
    d: Seq<EntityView>,
    i: int,
    properties: Seq<(Seq<char>, Seq<char>)>,
) -> Seq<EntityView> {
    d.update(i, EntityView { properties, ..d[i] })
}

/// What writing a property does: the error, if the write is refused, and
/// otherwise the document with the property set.
pub open spec fn write(d: Seq<EntityView>, i: int, name: Seq<char>, value: Seq<char>) -> Result<
    Seq<EntityView>,
    DocumentError,
> {
    if !(0 <= i < d.len()) {
        Err(DocumentError::NoSuchEntity)
    } else if !valid_property_name(name) {
        Err(DocumentError::InvalidPropertyName)
    } else {
        Ok(with_properties(d, i, put(d[i].properties, name, value)))
    }
}

#[derive(Debug)]
struct Entity {
    entity_type: String,
    parent: Option<EntityId>,
    properties: Properties,
}

impl View for Entity {
    type V = EntityView;

    closed spec fn view(&self) -> EntityView {
        EntityView {
            entity_type: self.entity_type@,
            parent: match self.parent {
                Some(p) => Some(p.index as int),
                None => None,
            },
            properties: self.properties@,
        }
    }
}

/// A tree of entities. The root is created with the document; every other
/// entity is created under a parent and never removed.
#[derive(Debug)]
pub struct Document {
    entities: Vec<Entity>,
}

impl View for Document {
    type V = Seq<EntityView>;

    closed spec fn view(&self) -> Seq<EntityView> {
        self.entities@.map_values(|e: Entity| e@)
    }
}

impl Document {
    #[verifier::type_invariant]
    closed spec fn well_formed(self) -> bool {
        document_wf(self@)
    }

    /// A document that holds only its root entity, of the given type.
    pub fn new(root_type: &str) -> (d: Document)
        ensures
            d@ == seq![new_entity(root_type@, None)],
    {
        let mut entities: Vec<Entity> = Vec::new();
        entities.push(
            Entity {
                entity_type: root_type.to_owned(),
                parent: None,
                properties: Properties::new(),
            },
        );
        assert(entities@.map_values(|e: Entity| e@) =~= seq![new_entity(root_type@, None)]);
        Document { entities }
    }

    /// The number of entities; the document is well formed.
    pub fn len(&self) -> (n: usize)
        ensures
            n == self@.len(),
            document_wf(self@),
    {
        proof {
            use_type_invariant(self);
        }
        self.entities.len()
    }

    /// The root entity: the first that was created.
    pub fn get_root_entity(&self) -> (r: Option<EntityId>)
        ensures
            r is Some == (self@.len() > 0),
            r matches Some(id) ==> id.index == 0,
    {
        if self.entities.len() > 0 {
            Some(EntityId { index: 0 })
        } else {
            None
        }
    }

    /// Whether `entity` is an entity of this document.
    pub fn contains_entity(&self, entity: EntityId) -> (b: bool)
        ensures
            b == (entity.index < self@.len()),
    {
        entity.index < self.entities.len()
    }

    /// Every entity, in creation order.
    pub fn entities(&self) -> (ids: Vec<EntityId>)
        ensures
            ids@.len() == self@.len(),
            forall|i: int| 0 <= i < ids@.len() ==> (#[trigger] ids@[i]).index == i,
    {
        let mut ids: Vec<EntityId> = Vec::new();
        let mut i: usize = 0;
        while i < self.entities.len()
            invariant
                i <= self.entities.len(),
                ids@.len() == i,
                forall|j: int| 0 <= j < ids@.len() ==> (#[trigger] ids@[j]).index == j,
            decreases self.entities.len() - i,
        {
            ids.push(EntityId { index: i });
            i = i + 1;
        }
        ids
    }

    /// The declared type of `entity`.
    pub fn get_entity_type_name(&self, entity: EntityId) -> (r: Result<String, DocumentError>)
        ensures
            match r {
                Ok(name) => entity.index < self@.len()
                    && name@ == self@[entity.index as int].entity_type,
                Err(e) => entity.index >= self@.len() && e == DocumentError::NoSuchEntity,
            },
    {
        if entity.index < self.entities.len() {
            Ok(self.entities[entity.index].entity_type.clone())
        } else {
            Err(DocumentError::NoSuchEntity)
        }
    }

    /// The entity under which `entity` was created; `None` for the root and
    /// for an id that the document does not hold.
    pub fn get_parent(&self, entity: EntityId) -> (r: Option<EntityId>)
        ensures
            r is Some == (entity.index < self@.len() && self@[entity.index as int].parent is Some),
            r matches Some(p) ==> p.index == self@[entity.index as int].parent->0,
    {
        if entity.index < self.entities.len() {
            self.entities[entity.index].parent
        } else {
            None
        }
    }

    /// The properties of `entity`, in the order in which they were first set.
    pub fn get_properties(&self, entity: EntityId) -> (r: Option<&Properties>)
        ensures
            r is Some == (entity.index < self@.len()),
            r matches Some(p) ==> p@ == self@[entity.index as int].properties,
    {
        if entity.index < self.entities.len() {
            Some(&self.entities[entity.index].properties)
        } else {
            None
        }
    }

    /// Whether `entity` exists and carries the property `name`.
    pub fn has_property(&self, entity: EntityId, name: &str) -> (b: bool)
        ensures
            b == (entity.index < self@.len() && has_key(
                self@[entity.index as int].properties,
                name@,
            )),
    {
        if entity.index < self.entities.len() {
            self.entities[entity.index].properties.contains(name)
        } else {
            false
        }
    }

    /// The value of the property `name` of `entity`.
    pub fn get_property(&self, entity: EntityId, name: &str) -> (r: Result<String, DocumentError>)
        ensures
            match r {
                Ok(value) => entity.index < self@.len() && lookup(
                    self@[entity.index as int].properties,
                    name@,
                ) == Some(value@),
                Err(e) => if entity.index < self@.len() {
                    e == DocumentError::NoSuchProperty && !has_key(
                        self@[entity.index as int].properties,
                        name@,
                    )
                } else {
                    e == DocumentError::NoSuchEntity
                },
            },
    {
        if entity.index < self.entities.len() {
            match self.entities[entity.index].properties.get(name) {
                Some(value) => Ok(value.clone()),
                None => Err(DocumentError::NoSuchProperty),
            }
        } else {
            Err(DocumentError::NoSuchEntity)
        }
    }

    /// Sets the property `name` of `entity` to `value`. The write is refused,
    /// and the document left as it was, where the entity does not exist or
    /// the name is empty.
    pub fn set_property(&mut self, entity: EntityId, name: &str, value: &str) -> (r: Result<
        (),
        DocumentError,
    >)
        ensures
            match write(old(self)@, entity.index as int, name@, value@) {
                Ok(d) => r is Ok && final(self)@ == d,
                Err(e) => r == Err::<(), DocumentError>(e) && final(self)@ == old(self)@,
            },
    {
        proof {
            use_type_invariant(&*self);
        }
        if entity.index >= self.entities.len() {
            return Err(DocumentError::NoSuchEntity);
        }
        if name.is_empty() {
            return Err(DocumentError::InvalidPropertyName);
        }
        let mut entities: Vec<Entity> = Vec::new();
        assert(entities@.map_values(|e: Entity| e@) =~= Seq::<EntityView>::empty());
        core::mem::swap(&mut self.entities, &mut entities);
        let ghost before = entities@[entity.index as int];
        entities[entity.index].properties.set(name.to_owned(), value.to_owned());
        proof {
            let after = entities@.map_values(|e: Entity| e@);
            assert(after =~= with_properties(
                old(self)@,
                entity.index as int,
                put(before@.properties, name@, value@),
            ));
            lemma_write_wf(old(self)@, entity.index as int, name@, value@);
        }
        self.entities = entities;
        Ok(())
    }

    /// Creates an entity of type `entity_type` under `parent` and returns its
    /// id. The new entity is the last of the document and has no properties.
    /// Where `parent` does not exist, nothing is created.
    pub fn create_child_entity(&mut self, parent: EntityId, entity_type: &str) -> (r: Result<
        EntityId,
        DocumentError,
    >)
        ensures
            match r {
                Ok(id) => parent.index < old(self)@.len() && id.index == old(self)@.len()
                    && final(self)@ == old(self)@.push(
                    new_entity(entity_type@, Some(parent.index as int)),
                ),
                Err(e) => parent.index >= old(self)@.len() && e == DocumentError::NoSuchEntity
                    && final(self)@ == old(self)@,
            },
    {
        proof {
            use_type_invariant(&*self);
        }
        if parent.index >= self.entities.len() {
            return Err(DocumentError::NoSuchEntity);
        }
        let id = EntityId { index: self.entities.len() };
        let mut entities: Vec<Entity> = Vec::new();
        assert(entities@.map_values(|e: Entity| e@) =~= Seq::<EntityView>::empty());
        core::mem::swap(&mut self.entities, &mut entities);
        entities.push(
            Entity {
                entity_type: entity_type.to_owned(),
                parent: Some(parent),
                properties: Properties::new(),
            },
        );
        proof {
            let after = entities@.map_values(|e: Entity| e@);
            assert(after =~= old(self)@.push(new_entity(entity_type@, Some(parent.index as int))));
            lemma_push_wf(old(self)@, entity_type@, parent.index as int);
        }
        self.entities = entities;
        Ok(id)
    }
}

/// An accepted write keeps a document well formed.
pub proof fn lemma_write_wf(d: Seq<EntityView>, i: int, name: Seq<char>, value: Seq<char>)
    requires
        document_wf(d),
        write(d, i, name, value) is Ok,
    ensures
        document_wf(write(d, i, name, value)->Ok_0),
{
    crate::properties::lemma_put(d[i].properties, name, value);
    let after = write(d, i, name, value)->Ok_0;
    assert forall|j: int| 0 <= j < after.len() implies unique_keys(
        (#[trigger] after[j]).properties,
    ) by {
        if j != i {
            assert(after[j] == d[j]);
        }
    }
    assert forall|j: int| 1 <= j < after.len() implies (#[trigger] after[j]).parent is Some && 0
        <= after[j].parent->0 < j by {
        assert(after[j].parent == d[j].parent);
    }
}

/// A new entity under an existing parent keeps a document well formed.
pub proof fn lemma_push_wf(d: Seq<EntityView>, entity_type: Seq<char>, parent: int)
    requires
        document_wf(d),
        0 <= parent < d.len(),
    ensures
        document_wf(d.push(new_entity(entity_type, Some(parent)))),
{
    let after = d.push(new_entity(entity_type, Some(parent)));
    assert forall|j: int| 0 <= j < after.len() implies unique_keys(
        (#[trigger] after[j]).properties,
    ) by {
        if j < d.len() {
            assert(after[j] == d[j]);
        }
    }
    assert forall|j: int| 1 <= j < after.len() implies (#[trigger] after[j]).parent is Some && 0
        <= after[j].parent->0 < j by {
        if j < d.len() {
            assert(after[j] == d[j]);
        }
    }
}

} // verus!
