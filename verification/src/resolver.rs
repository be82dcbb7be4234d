//! Resolving a template's inheritance chain and applying the merged
//! properties to an entity.

use vstd::prelude::*;
use crate::document::{
    description, new_entity, valid_property_name, with_properties, Document, DocumentError,
    EntityId, EntityView,
};
use crate::properties::{has_key, put, put_all, Properties};
use crate::registry::{registry_wf, Registry};
use crate::template::{lemma_children_view, Template, TemplateView};

verus! {

/// Why a template could not be applied, or not in full.
#[derive(Debug, PartialEq, Eq)]
pub enum ApplyError {
    /// The inheritance chain comes back to the named template.
    InheritanceCycle(String),
    /// The chain names a parent that is not registered.
    MissingParent(String),
    /// The document refused to set the named property; the second field
    /// gives its reason, in words.
    PropertyRejected(String, String),
}

/// The mathematical form of an `ApplyError`.
pub enum ApplyErrorView {
    InheritanceCycle(Seq<char>),
    MissingParent(Seq<char>),
    PropertyRejected(Seq<char>, Seq<char>),
}

impl View for ApplyError {
    type V = ApplyErrorView;

    open spec fn view(&self) -> ApplyErrorView {
        match *self {
            ApplyError::InheritanceCycle(name) => ApplyErrorView::InheritanceCycle(name@),
            ApplyError::MissingParent(name) => ApplyErrorView::MissingParent(name@),
            ApplyError::PropertyRejected(name, cause) => ApplyErrorView::PropertyRejected(
                name@,
                cause@,
            ),
        }
    }
}

/// The error of a result, if it is one.
pub open spec fn failure(r: Result<(), ApplyError>) -> Option<ApplyErrorView> {
    match r {
        Ok(_) => None,
        Err(e) => Some(e@),
    }
}

/// The registered names that a walk has not visited yet.
pub open spec fn unvisited(
    templates: Map<Seq<char>, TemplateView>,
    visited: Set<Seq<char>>,
) -> Set<Seq<char>> {
    templates.dom().difference(visited)
}

/// The inheritance chain of `t`, oldest ancestor first and `t` last, where
/// `visited` holds the names that the walk has met so far. A parent whose
/// name was met before is a cycle; a parent that is not registered is
/// missing.
pub open spec fn ancestry(
    templates: Map<Seq<char>, TemplateView>,
    t: TemplateView,
    visited: Set<Seq<char>>,
) -> Result<Seq<TemplateView>, ApplyErrorView>
    decreases unvisited(templates, visited).len(),
    when templates.dom().finite()
{
    match t.parent {
        None => Ok(seq![t]),
        Some(parent) => {
            if visited.contains(parent) {
                Err(ApplyErrorView::InheritanceCycle(parent))
            } else if !templates.contains_key(parent) {
                Err(ApplyErrorView::MissingParent(parent))
            } else {
                proof {
                    lemma_visit(templates, visited, parent);
                }
                match ancestry(templates, templates[parent], visited.insert(parent)) {
                    Ok(chain) => Ok(chain.push(t)),
                    Err(e) => Err(e),
                }
            }
        },
    }
}

/// Visiting a registered name for the first time leaves fewer to visit.
pub proof fn lemma_visit(
    templates: Map<Seq<char>, TemplateView>,
    visited: Set<Seq<char>>,
    name: Seq<char>,
)
    requires
        templates.dom().finite(),
        templates.contains_key(name),
        !visited.contains(name),
    ensures
        unvisited(templates, visited.insert(name)).len() < unvisited(templates, visited).len(),
{
    let before = unvisited(templates, visited);
    assert(before.finite());
    assert(before.contains(name));
    assert(unvisited(templates, visited.insert(name)) =~= before.remove(name));
}

/// The properties that a chain defines: those of each template in turn, a
/// later template's value replacing an earlier one of the same name.
pub open spec fn merge(chain: Seq<TemplateView>) -> Seq<(Seq<char>, Seq<char>)>
    decreases chain.len(),
{
    if chain.len() == 0 {
        Seq::empty()
    } else {
        put_all(merge(chain.drop_last()), chain.last().properties)
    }
}

/// The properties that `t` stands for once its inheritance is resolved, or
/// the reason why its chain cannot be walked.
pub open spec fn resolved(templates: Map<Seq<char>, TemplateView>, t: TemplateView) -> Result<
    Seq<(Seq<char>, Seq<char>)>,
    ApplyErrorView,
> {
    match ancestry(templates, t, set![t.entity_type]) {
        Ok(chain) => Ok(merge(chain)),
        Err(e) => Err(e),
    }
}

/// The properties of an entity after the defaults `merged` were offered to
/// it, first to last: a default is taken where the entity does not carry the
/// name yet and the document accepts the name.
pub open spec fn fill(
    properties: Seq<(Seq<char>, Seq<char>)>,
    merged: Seq<(Seq<char>, Seq<char>)>,
) -> Seq<(Seq<char>, Seq<char>)>
    decreases merged.len(),
{
    if merged.len() == 0 {
        properties
    } else {
        let before = fill(properties, merged.drop_last());
        let (name, value) = merged.last();
        if !has_key(before, name) && valid_property_name(name) {
            put(before, name, value)
        } else {
            before
        }
    }
}

/// The first default of `merged` that the document refuses while `fill`
/// offers them.
pub open spec fn first_refused(
    properties: Seq<(Seq<char>, Seq<char>)>,
    merged: Seq<(Seq<char>, Seq<char>)>,
) -> Option<Seq<char>>
    decreases merged.len(),
{
    if merged.len() == 0 {
        None
    } else {
        match first_refused(properties, merged.drop_last()) {
            Some(name) => Some(name),
            None => {
                let name = merged.last().0;
                if !has_key(fill(properties, merged.drop_last()), name) && !valid_property_name(
                    name,
                ) {
                    Some(name)
                } else {
                    None
                }
            },
        }
    }
}

/// The error that stands for a refused default.
pub open spec fn refusal(name: Option<Seq<char>>) -> Option<ApplyErrorView> {
    match name {
        Some(name) => Some(
            ApplyErrorView::PropertyRejected(
                name,
                description(DocumentError::InvalidPropertyName),
            ),
        ),
        None => None,
    }
}

/// The earlier of two errors.
pub open spec fn first_of(a: Option<ApplyErrorView>, b: Option<ApplyErrorView>) -> Option<
    ApplyErrorView,
> {
    if a is Some {
        a
    } else {
        b
    }
}

/// What applying `t` to entity `at` of `d` leaves: the document and the first
/// error, if any. An entity that does not exist is left alone. A chain that
/// cannot be walked is an error and nothing is written. Otherwise the entity
/// takes the resolved defaults it lacks, and then each child template, in
/// order, gets a new entity under `at` and is applied to it.
pub open spec fn applied(
    templates: Map<Seq<char>, TemplateView>,
    d: Seq<EntityView>,
    at: int,
    t: TemplateView,
) -> (Seq<EntityView>, Option<ApplyErrorView>)
    decreases t, 1int,
{
    if !(0 <= at < d.len()) {
        (d, None)
    } else {
        match resolved(templates, t) {
            Err(e) => (d, Some(e)),
            Ok(merged) => spawned(
                templates,
                with_properties(d, at, fill(d[at].properties, merged)),
                at,
                t.children,
                refusal(first_refused(d[at].properties, merged)),
            ),
        }
    }
}

/// What spawning `children` under entity `at` leaves, where `error` is the
/// first error so far: each child template gets a new entity at the end of
/// the document and is applied to it.
pub open spec fn spawned(
    templates: Map<Seq<char>, TemplateView>,
    d: Seq<EntityView>,
    at: int,
    children: Seq<TemplateView>,
    error: Option<ApplyErrorView>,
) -> (Seq<EntityView>, Option<ApplyErrorView>)
    decreases children, 0int,
{
    if children.len() == 0 {
        (d, error)
    } else {
        let (before, earlier) = spawned(templates, d, at, children.drop_last(), error);
        let child = children.last();
        let (after, later) = applied(
            templates,
            before.push(new_entity(child.entity_type, Some(at))),
            before.len() as int,
            child,
        );
        (after, first_of(earlier, later))
    }
}

/// The chain that a result stands for once `tail` is walked back down.
pub open spec fn descend(
    r: Result<Seq<TemplateView>, ApplyErrorView>,
    tail: Seq<TemplateView>,
) -> Result<Seq<TemplateView>, ApplyErrorView> {
    match r {
        Ok(chain) => Ok(chain + tail),
        Err(e) => Err(e),
    }
}

impl Template {
    /// Walks the inheritance chain of this template through `registry` and
    /// merges the properties along it, the nearest definition of a name
    /// winning.
    pub fn resolve(&self, registry: &Registry) -> (r: Result<Properties, ApplyError>)
        ensures
            match resolved(registry@, self@) {
                Ok(merged) => r matches Ok(p) && p@ == merged,
                Err(e) => r matches Err(error) && error@ == e,
            },
    {
        // Asking for the length brings the registry's well-formedness into scope.
        let _ = registry.len();
        let ghost templates = registry@;
        let mut up: Vec<&Template> = Vec::new();
        up.push(self);
        let mut current: &Template = self;
        let ghost mut visited: Set<Seq<char>> = set![self@.entity_type];
        let ghost mut tail: Seq<TemplateView> = Seq::empty();
        loop
            invariant_except_break
                templates == registry@,
                registry_wf(templates),
                up@.len() >= 1,
                *current == *up@[up@.len() - 1],
                forall|name: Seq<char>|
                    visited.contains(name) <==> exists|j: int|
                        0 <= j < up@.len() && (#[trigger] up@[j])@.entity_type == name,
                tail.len() == up@.len() - 1,
                forall|k: int|
                    0 <= k < tail.len() ==> #[trigger] tail[k] == up@[up@.len() - 2 - k]@,
                ancestry(templates, self@, set![self@.entity_type]) == descend(
                    ancestry(templates, current@, visited),
                    tail,
                ),
            ensures
                up@.len() >= 1,
                ancestry(templates, self@, set![self@.entity_type]) is Ok,
                ancestry(templates, self@, set![self@.entity_type])->Ok_0.len() == up@.len(),
                forall|k: int|
                    0 <= k < up@.len() ==> #[trigger] ancestry(
                        templates,
                        self@,
                        set![self@.entity_type],
                    )->Ok_0[k] == up@[up@.len() - 1 - k]@,
            decreases unvisited(templates, visited).len(),
        {
            match &current.parent {
                None => {
                    proof {
                        let chain = seq![current@] + tail;
                        assert(ancestry(templates, self@, set![self@.entity_type]) == Ok::<
                            Seq<TemplateView>,
                            ApplyErrorView,
                        >(chain));
                        assert forall|k: int| 0 <= k < up@.len() implies #[trigger] chain[k]
                            == up@[up@.len() - 1 - k]@ by {
                            if k > 0 {
                                assert(chain[k] == tail[k - 1]);
                            }
                        }
                    }
                    break ;
                },
                Some(parent) => {
                    let mut met = false;
                    let mut j: usize = 0;
                    while j < up.len()
                        invariant
                            j <= up@.len(),
                            met == exists|i: int|
                                0 <= i < j && (#[trigger] up@[i])@.entity_type == parent@,
                        decreases up@.len() - j,
                    {
                        if up[j].entity_type.as_str().eq(parent.as_str()) {
                            met = true;
                        }
                        j = j + 1;
                    }
                    if met {
                        return Err(ApplyError::InheritanceCycle(parent.clone()));
                    }
                    match registry.get(parent.as_str()) {
                        None => {
                            return Err(ApplyError::MissingParent(parent.clone()));
                        },
                        Some(next) => {
                            proof {
                                lemma_visit(templates, visited, parent@);
                                let old_up = up@;
                                let new_tail = seq![current@] + tail;
                                assert forall|k: int|
                                    0 <= k < new_tail.len() implies #[trigger] new_tail[k]
                                    == old_up.push(next)[old_up.len() - 1 - k]@ by {
                                    if k > 0 {
                                        assert(new_tail[k] == tail[k - 1]);
                                    }
                                }
                                assert(descend(
                                    ancestry(templates, current@, visited),
                                    tail,
                                ) == descend(
                                    ancestry(templates, next@, visited.insert(parent@)),
                                    new_tail,
                                )) by {
                                    let r = ancestry(templates, next@, visited.insert(parent@));
                                    if r is Ok {
                                        assert(r->Ok_0.push(current@) + tail =~= r->Ok_0
                                            + new_tail);
                                    }
                                }
                                assert forall|name: Seq<char>|
                                    visited.insert(parent@).contains(name) <==> exists|j: int|
                                        0 <= j < old_up.push(next).len() && (#[trigger] old_up.push(
                                            next,
                                        )[j])@.entity_type == name by {
                                    if visited.contains(name) {
                                        let j = choose|j: int|
                                            0 <= j < old_up.len() && (
                                            #[trigger] old_up[j])@.entity_type == name;
                                        assert(old_up.push(next)[j]@.entity_type == name);
                                    }
                                    if name == parent@ {
                                        assert(old_up.push(next)[old_up.len() as int]@.entity_type
                                            == name);
                                    }
                                    if exists|j: int|
                                        0 <= j < old_up.push(next).len() && (#[trigger] old_up.push(
                                            next,
                                        )[j])@.entity_type == name {
                                        let j = choose|j: int|
                                            0 <= j < old_up.push(next).len() && (
                                            #[trigger] old_up.push(next)[j])@.entity_type == name;
                                        if j < old_up.len() {
                                            assert(old_up[j]@.entity_type == name);
                                        }
                                    }
                                }
                                visited = visited.insert(parent@);
                                tail = new_tail;
                            }
                            up.push(next);
                            current = next;
                        },
                    }
                },
            }
        }
        let ghost chain = ancestry(templates, self@, set![self@.entity_type])->Ok_0;
        let mut merged = Properties::new();
        let mut m: usize = 0;
        while m < up.len()
            invariant
                m <= up@.len(),
                chain.len() == up@.len(),
                forall|k: int|
                    0 <= k < up@.len() ==> #[trigger] chain[k] == up@[up@.len() - 1 - k]@,
                merged@ == merge(chain.take(m as int)),
            decreases up@.len() - m,
        {
            proof {
                assert(chain.take(m + 1).drop_last() =~= chain.take(m as int));
                assert(chain.take(m + 1).last() == chain[m as int]);
            }
            merged.extend(&up[up.len() - 1 - m].properties);
            m = m + 1;
        }
        assert(chain.take(m as int) =~= chain);
        Ok(merged)
    }
}

impl Template {
    /// Applies this template to `entity`: resolves the inheritance chain,
    /// gives the entity every resolved default that it does not carry yet,
    /// then creates one child entity for each child template, in order, and
    /// applies the child template to it. A property that the entity already
    /// carries is never written. Where the chain cannot be walked nothing is
    /// written. A refused write and a child that fails do not stop the rest;
    /// the first such error is returned at the end.
    pub fn apply(&self, registry: &Registry, document: &mut Document, entity: EntityId) -> (r:
        Result<(), ApplyError>)
        ensures
            (final(document)@, failure(r)) == applied(
                registry@,
                old(document)@,
                entity.index as int,
                self@,
            ),
        decreases self@,
    {
        let ghost templates = registry@;
        let ghost start = document@;
        let ghost at = entity.index as int;
        if !document.contains_entity(entity) {
            return Ok(());
        }
        let merged = match self.resolve(registry) {
            Ok(merged) => merged,
            Err(e) => {
                return Err(e);
            },
        };
        let mut error: Option<ApplyError> = None;
        let mut i: usize = 0;
        while i < merged.len()
            invariant
                i <= merged@.len(),
                0 <= at < start.len(),
                at == entity.index,
                document@ == with_properties(
                    start,
                    at,
                    fill(start[at].properties, merged@.take(i as int)),
                ),
                error_view(error) == refusal(
                    first_refused(start[at].properties, merged@.take(i as int)),
                ),
            decreases merged@.len() - i,
        {
            proof {
                assert(merged@.take(i + 1).drop_last() =~= merged@.take(i as int));
                assert(merged@.take(i + 1).last() == merged@[i as int]);
            }
            let ghost before = document@;
            let property = merged.entry(i);
            if !document.has_property(entity, property.name.as_str()) {
                match document.set_property(
                    entity,
                    property.name.as_str(),
                    property.value.as_str(),
                ) {
                    Ok(()) => {
                        assert(document@ =~= with_properties(
                            start,
                            at,
                            fill(start[at].properties, merged@.take(i + 1)),
                        ));
                    },
                    Err(cause) => {
                        if error.is_none() {
                            let name = property.name.clone();
                            error = Some(ApplyError::PropertyRejected(name, cause.describe()));
                        }
                    },
                }
            }
            i = i + 1;
        }
        proof {
            assert(merged@.take(i as int) =~= merged@);
            lemma_children_view(*self);
        }
        let ghost filled = document@;
        let ghost refused = error_view(error);
        let mut c: usize = 0;
        while c < self.children.len()
            invariant
                c <= self.children@.len(),
                templates == registry@,
                at == entity.index,
                0 <= at < filled.len(),
                self@.children.len() == self.children@.len(),
                forall|k: int|
                    0 <= k < self.children@.len() ==> #[trigger] self@.children[k]
                        == self.children@[k]@,
                (document@, error_view(error)) == spawned(
                    templates,
                    filled,
                    at,
                    self@.children.take(c as int),
                    refused,
                ),
                document@.len() >= filled.len(),
            decreases self.children@.len() - c,
        {
            proof {
                assert(self@.children.take(c + 1).drop_last() =~= self@.children.take(c as int));
                assert(self@.children.take(c + 1).last() == self@.children[c as int]);
            }
            let child = &self.children[c];
            match document.create_child_entity(entity, child.entity_type.as_str()) {
                Ok(id) => {
                    let ghost grown = document@;
                    let outcome = child.apply(registry, document, id);
                    proof {
                        lemma_applied_frame(templates, grown, id.index as int, child@);
                    }
                    match outcome {
                        Ok(()) => {},
                        Err(e) => {
                            if error.is_none() {
                                error = Some(e);
                            }
                        },
                    }
                },
                Err(_) => {},
            }
            c = c + 1;
        }
        proof {
            assert(self@.children.take(c as int) =~= self@.children);
        }
        match error {
            Some(e) => Err(e),
            None => Ok(()),
        }
    }
}

/// The view of an optional error.
pub open spec fn error_view(e: Option<ApplyError>) -> Option<ApplyErrorView> {
    match e {
        Some(e) => Some(e@),
        None => None,
    }
}

/// Applying a template touches only the entity it is applied to and the
/// entities it creates: every other entity stays as it was, and the entity
/// itself changes only in its properties, which become its own filled up with
/// the resolved defaults.
pub proof fn lemma_applied_frame(
    templates: Map<Seq<char>, TemplateView>,
    d: Seq<EntityView>,
    at: int,
    t: TemplateView,
)
    ensures
        applied(templates, d, at, t).0.len() >= d.len(),
        forall|j: int|
            0 <= j < d.len() && j != at ==> #[trigger] applied(templates, d, at, t).0[j] == d[j],
        0 <= at < d.len() ==> applied(templates, d, at, t).0[at] == (match resolved(templates, t) {
            Ok(merged) => EntityView { properties: fill(d[at].properties, merged), ..d[at] },
            Err(_) => d[at],
        }),
    decreases t, 1int,
{
    if 0 <= at < d.len() {
        match resolved(templates, t) {
            Err(_) => {},
            Ok(merged) => {
                lemma_spawned_frame(
                    templates,
                    with_properties(d, at, fill(d[at].properties, merged)),
                    at,
                    t.children,
                    refusal(first_refused(d[at].properties, merged)),
                );
            },
        }
    }
}

/// Spawning children leaves every entity that was there as it was.
pub proof fn lemma_spawned_frame(
    templates: Map<Seq<char>, TemplateView>,
    d: Seq<EntityView>,
    at: int,
    children: Seq<TemplateView>,
    error: Option<ApplyErrorView>,
)
    ensures
        spawned(templates, d, at, children, error).0.len() >= d.len(),
        forall|j: int|
            0 <= j < d.len() ==> #[trigger] spawned(templates, d, at, children, error).0[j] == d[j],
    decreases children, 0int,
{
    if children.len() > 0 {
        lemma_spawned_frame(templates, d, at, children.drop_last(), error);
        let before = spawned(templates, d, at, children.drop_last(), error).0;
        let child = children.last();
        let grown = before.push(new_entity(child.entity_type, Some(at)));
        lemma_applied_frame(templates, grown, before.len() as int, child);
        let after = applied(templates, grown, before.len() as int, child).0;
        assert forall|j: int| 0 <= j < d.len() implies #[trigger] after[j] == d[j] by {
            assert(grown[j] == before[j]);
        }
    }
}

} // verus!
