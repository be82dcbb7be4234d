//! What holds of resolution and application whatever the registry, the
//! document and the template.

use vstd::prelude::*;
use crate::document::{
    document_wf, lemma_push_wf, new_entity, valid_property_name, with_properties, EntityView,
};
use crate::properties::{
    has_key, index_of, lemma_index_of, lemma_put, lemma_put_all_unique, lookup, put, put_all,
    unique_keys,
};
use crate::registry::registry_wf;
use crate::resolver::{
    ancestry, applied, fill, first_refused, lemma_applied_frame, lemma_spawned_frame, merge,
    refusal, resolved, spawned, ApplyErrorView,
};
use crate::subsystem::{entity_added, register_all};
use crate::events::TagEventView;
use crate::template::{
    advance, attributes_of, events_of, events_of_all, inherits_attribute, lemma_advance_append,
    parse_all, parse_one, run, seed, with_child, writable, ParseError, ParseState,
    TemplateView,
};

verus! {

/// Offering defaults only adds properties: what the entity carried stays
/// where it was, the names stay unique, and every default with a name that
/// the document accepts is carried afterwards.
pub proof fn lemma_fill(
    properties: Seq<(Seq<char>, Seq<char>)>,
    merged: Seq<(Seq<char>, Seq<char>)>,
)
    ensures
        fill(properties, merged).len() >= properties.len(),
        forall|i: int|
            0 <= i < properties.len() ==> #[trigger] fill(properties, merged)[i] == properties[i],
        forall|name: Seq<char>|
            has_key(properties, name) ==> has_key(fill(properties, merged), name),
        forall|i: int|
            0 <= i < merged.len() && valid_property_name(#[trigger] merged[i].0) ==> has_key(
                fill(properties, merged),
                merged[i].0,
            ),
        unique_keys(properties) ==> unique_keys(fill(properties, merged)),
    decreases merged.len(),
{
    let after = fill(properties, merged);
    if merged.len() == 0 {
    } else {
        let rest = merged.drop_last();
        let before = fill(properties, rest);
        lemma_fill(properties, rest);
        let (name, value) = merged.last();
        if !has_key(before, name) && valid_property_name(name) {
            assert(after == before.push((name, value)));
            assert(after[before.len() as int].0 == name);
            assert forall|other: Seq<char>| has_key(before, other) implies has_key(
                after,
                other,
            ) by {
                let i = index_of(before, other);
                assert(after[i].0 == other);
            }
            if unique_keys(properties) {
                lemma_put(before, name, value);
            }
        }
        assert forall|i: int|
            0 <= i < merged.len() && valid_property_name(#[trigger] merged[i].0) implies has_key(
            after,
            merged[i].0,
        ) by {
            if i < rest.len() {
                assert(rest[i] == merged[i]);
            }
        }
    }
}

/// Defaults that the entity carries already, or that the document refuses,
/// change nothing.
pub proof fn lemma_fill_unchanged(
    properties: Seq<(Seq<char>, Seq<char>)>,
    merged: Seq<(Seq<char>, Seq<char>)>,
)
    requires
        forall|i: int|
            0 <= i < merged.len() ==> has_key(properties, #[trigger] merged[i].0)
                || !valid_property_name(merged[i].0),
    ensures
        fill(properties, merged) == properties,
    decreases merged.len(),
{
    if merged.len() > 0 {
        let rest = merged.drop_last();
        assert forall|i: int| 0 <= i < rest.len() implies has_key(
            properties,
            #[trigger] rest[i].0,
        ) || !valid_property_name(rest[i].0) by {
            assert(rest[i] == merged[i]);
        }
        lemma_fill_unchanged(properties, rest);
        assert(merged.last() == merged[merged.len() - 1]);
    }
}

/// What an entity carried before defaults were offered keeps its value.
pub proof fn lemma_fill_keeps(
    properties: Seq<(Seq<char>, Seq<char>)>,
    merged: Seq<(Seq<char>, Seq<char>)>,
    name: Seq<char>,
)
    requires
        unique_keys(properties),
        has_key(properties, name),
    ensures
        lookup(fill(properties, merged), name) == lookup(properties, name),
{
    lemma_fill(properties, merged);
    let i = index_of(properties, name);
    lemma_index_of(properties, name, i);
    lemma_index_of(fill(properties, merged), name, i);
}

/// Applying a template to an entity a second time leaves the entity's
/// properties as the first application left them.
pub proof fn law_apply_is_idempotent(
    templates: Map<Seq<char>, TemplateView>,
    d: Seq<EntityView>,
    at: int,
    t: TemplateView,
)
    requires
        0 <= at < d.len(),
    ensures
        ({
            let once = applied(templates, d, at, t).0;
            let twice = applied(templates, once, at, t).0;
            twice[at].properties == once[at].properties
        }),
{
    let once = applied(templates, d, at, t).0;
    lemma_applied_frame(templates, d, at, t);
    lemma_applied_frame(templates, once, at, t);
    match resolved(templates, t) {
        Err(_) => {},
        Ok(merged) => {
            let filled = fill(d[at].properties, merged);
            lemma_fill(d[at].properties, merged);
            lemma_fill_unchanged(filled, merged);
        },
    }
}

/// Offering defaults never gives an entity a name that the document refuses.
pub proof fn lemma_fill_adds_accepted_names(
    properties: Seq<(Seq<char>, Seq<char>)>,
    merged: Seq<(Seq<char>, Seq<char>)>,
    name: Seq<char>,
)
    requires
        !valid_property_name(name),
    ensures
        has_key(fill(properties, merged), name) == has_key(properties, name),
    decreases merged.len(),
{
    if merged.len() > 0 {
        let before = fill(properties, merged.drop_last());
        lemma_fill_adds_accepted_names(properties, merged.drop_last(), name);
        let (added, value) = merged.last();
        if !has_key(before, added) && valid_property_name(added) {
            let after = before.push((added, value));
            assert(fill(properties, merged) == after);
            if has_key(before, name) {
                let i = index_of(before, name);
                assert(after[i].0 == name);
            }
            if has_key(after, name) {
                let i = index_of(after, name);
                assert(i < before.len());
                assert(before[i].0 == name);
            }
        }
    }
}

/// Defaults that were offered once are refused the second time exactly where
/// they were refused the first time.
pub proof fn lemma_refused_again(
    properties: Seq<(Seq<char>, Seq<char>)>,
    merged: Seq<(Seq<char>, Seq<char>)>,
    again: Seq<(Seq<char>, Seq<char>)>,
)
    requires
        forall|i: int|
            0 <= i < again.len() ==> has_key(fill(properties, merged), #[trigger] again[i].0)
                || !valid_property_name(again[i].0),
    ensures
        first_refused(fill(properties, merged), again) == first_refused(properties, again),
    decreases again.len(),
{
    if again.len() > 0 {
        let filled = fill(properties, merged);
        let rest = again.drop_last();
        let name = again.last().0;
        assert forall|i: int| 0 <= i < rest.len() implies has_key(filled, #[trigger] rest[i].0)
            || !valid_property_name(rest[i].0) by {
            assert(rest[i] == again[i]);
        }
        lemma_refused_again(properties, merged, rest);
        lemma_fill_unchanged(filled, rest);
        if !valid_property_name(name) {
            lemma_fill_adds_accepted_names(properties, merged, name);
            lemma_fill_adds_accepted_names(properties, rest, name);
        }
    }
}

/// Applying a template without children a second time changes nothing at
/// all: the document stays as the first application left it, and the result
/// is the same.
pub proof fn law_apply_twice_is_apply_once(
    templates: Map<Seq<char>, TemplateView>,
    d: Seq<EntityView>,
    at: int,
    t: TemplateView,
)
    requires
        0 <= at < d.len(),
        t.children.len() == 0,
    ensures
        applied(templates, applied(templates, d, at, t).0, at, t) == applied(templates, d, at, t),
{
    match resolved(templates, t) {
        Err(_) => {},
        Ok(merged) => {
            let filled = fill(d[at].properties, merged);
            let once = with_properties(d, at, filled);
            lemma_fill(d[at].properties, merged);
            lemma_fill_unchanged(filled, merged);
            lemma_refused_again(d[at].properties, merged, merged);
            assert(with_properties(once, at, filled) =~= once);
        },
    }
}

/// A property that an entity carries keeps its value when a template is
/// applied to the entity, whatever the template defines.
pub proof fn law_own_properties_win(
    templates: Map<Seq<char>, TemplateView>,
    d: Seq<EntityView>,
    at: int,
    t: TemplateView,
    name: Seq<char>,
)
    requires
        0 <= at < d.len(),
        unique_keys(d[at].properties),
        has_key(d[at].properties, name),
    ensures
        lookup(applied(templates, d, at, t).0[at].properties, name) == lookup(
            d[at].properties,
            name,
        ),
{
    lemma_applied_frame(templates, d, at, t);
    match resolved(templates, t) {
        Err(_) => {},
        Ok(merged) => {
            lemma_fill_keeps(d[at].properties, merged, name);
        },
    }
}

/// The same, for the template that the registry holds for the entity's type.
pub proof fn law_own_properties_win_on_arrival(
    templates: Map<Seq<char>, TemplateView>,
    d: Seq<EntityView>,
    at: int,
    name: Seq<char>,
)
    requires
        0 <= at < d.len(),
        unique_keys(d[at].properties),
        has_key(d[at].properties, name),
    ensures
        lookup(entity_added(templates, d, at).0[at].properties, name) == lookup(
            d[at].properties,
            name,
        ),
{
    if templates.contains_key(d[at].entity_type) {
        law_own_properties_win(templates, d, at, templates[d[at].entity_type], name);
    }
}

/// An entity whose type has no registered template is left as it is, and so
/// is the rest of the document.
pub proof fn law_no_template_no_change(
    templates: Map<Seq<char>, TemplateView>,
    d: Seq<EntityView>,
    at: int,
)
    requires
        0 <= at < d.len(),
        !templates.contains_key(d[at].entity_type),
    ensures
        entity_added(templates, d, at) == (d, None::<ApplyErrorView>),
{
}

/// Where the inheritance chain cannot be walked, nothing is written and the
/// chain's error is returned.
pub proof fn law_broken_chain_writes_nothing(
    templates: Map<Seq<char>, TemplateView>,
    d: Seq<EntityView>,
    at: int,
    t: TemplateView,
)
    requires
        0 <= at < d.len(),
        resolved(templates, t) is Err,
    ensures
        applied(templates, d, at, t) == (d, Some(resolved(templates, t)->Err_0)),
{
}

/// Two registered templates that inherit from each other cannot be resolved:
/// the walk from the first comes back to a name it has met, and applying
/// the template fails with that cycle and writes nothing.
pub proof fn law_cycle_is_rejected(
    templates: Map<Seq<char>, TemplateView>,
    a: Seq<char>,
    b: Seq<char>,
    d: Seq<EntityView>,
    at: int,
)
    requires
        registry_wf(templates),
        templates.contains_key(a),
        templates.contains_key(b),
        templates[a].parent == Some(b),
        templates[b].parent == Some(a),
        0 <= at < d.len(),
    ensures
        resolved(templates, templates[a]) == Err::<Seq<(Seq<char>, Seq<char>)>, ApplyErrorView>(
            ApplyErrorView::InheritanceCycle(if a == b { b } else { a }),
        ),
        applied(templates, d, at, templates[a]) == (
            d,
            Some(ApplyErrorView::InheritanceCycle(if a == b { b } else { a })),
        ),
{
    let start = set![a];
    assert(templates[a].entity_type == a);
    assert(start.contains(a));
    if a != b {
        assert(!start.contains(b));
        assert(start.insert(b).contains(a));
        assert(ancestry(templates, templates[b], start.insert(b)) == Err::<
            Seq<TemplateView>,
            ApplyErrorView,
        >(ApplyErrorView::InheritanceCycle(a)));
    }
}

/// Applying a template keeps a document well formed.
pub proof fn law_applied_keeps_well_formed(
    templates: Map<Seq<char>, TemplateView>,
    d: Seq<EntityView>,
    at: int,
    t: TemplateView,
)
    requires
        document_wf(d),
    ensures
        document_wf(applied(templates, d, at, t).0),
    decreases t, 1int,
{
    if 0 <= at < d.len() {
        match resolved(templates, t) {
            Err(_) => {},
            Ok(merged) => {
                let filled = with_properties(d, at, fill(d[at].properties, merged));
                lemma_fill(d[at].properties, merged);
                assert forall|i: int| 0 <= i < filled.len() implies unique_keys(
                    (#[trigger] filled[i]).properties,
                ) by {
                    if i != at {
                        assert(filled[i] == d[i]);
                    }
                }
                assert forall|i: int| 1 <= i < filled.len() implies (
                #[trigger] filled[i]).parent is Some && 0 <= filled[i].parent->0 < i by {
                    assert(filled[i].parent == d[i].parent);
                }
                law_spawned_keeps_well_formed(
                    templates,
                    filled,
                    at,
                    t.children,
                    refusal(first_refused(d[at].properties, merged)),
                );
            },
        }
    }
}

/// Spawning children under an entity of a well-formed document keeps the
/// document well formed.
pub proof fn law_spawned_keeps_well_formed(
    templates: Map<Seq<char>, TemplateView>,
    d: Seq<EntityView>,
    at: int,
    children: Seq<TemplateView>,
    error: Option<ApplyErrorView>,
)
    requires
        document_wf(d),
        0 <= at < d.len(),
    ensures
        document_wf(spawned(templates, d, at, children, error).0),
    decreases children, 0int,
{
    if children.len() > 0 {
        law_spawned_keeps_well_formed(templates, d, at, children.drop_last(), error);
        lemma_spawned_frame(templates, d, at, children.drop_last(), error);
        let before = spawned(templates, d, at, children.drop_last(), error).0;
        let child = children.last();
        lemma_push_wf(before, child.entity_type, at);
        law_applied_keeps_well_formed(
            templates,
            before.push(new_entity(child.entity_type, Some(at))),
            before.len() as int,
            child,
        );
    }
}

/// Setting the pairs of `more` gives every name of `more` the value that
/// `more` gives it, and leaves every other name as it was.
pub proof fn lemma_put_all(
    s: Seq<(Seq<char>, Seq<char>)>,
    more: Seq<(Seq<char>, Seq<char>)>,
    name: Seq<char>,
)
    requires
        unique_keys(s),
        unique_keys(more),
    ensures
        lookup(put_all(s, more), name) == if has_key(more, name) {
            lookup(more, name)
        } else {
            lookup(s, name)
        },
    decreases more.len(),
{
    if more.len() == 0 {
    } else {
        let rest = more.drop_last();
        let last = more.last();
        assert forall|i: int, j: int| 0 <= i < j < rest.len() implies (#[trigger] rest[i]).0 != (
        #[trigger] rest[j]).0 by {
            assert(more[i].0 != more[j].0);
        }
        lemma_put_all(s, rest, name);
        lemma_put_all_unique(s, rest);
        lemma_put(put_all(s, rest), last.0, last.1);
        if last.0 == name {
            lemma_index_of(more, name, more.len() - 1);
        } else {
            if has_key(more, name) {
                let i = index_of(more, name);
                assert(i < rest.len());
                assert(rest[i] == more[i]);
                lemma_index_of(rest, name, i);
                lemma_index_of(more, name, i);
            } else {
                if has_key(rest, name) {
                    let i = index_of(rest, name);
                    assert(more[i].0 == name);
                }
            }
        }
    }
}

/// What a chain defines has unique names.
pub proof fn lemma_merge_unique(chain: Seq<TemplateView>)
    ensures
        unique_keys(merge(chain)),
    decreases chain.len(),
{
    if chain.len() > 0 {
        lemma_merge_unique(chain.drop_last());
        lemma_put_all_unique(merge(chain.drop_last()), chain.last().properties);
    }
}

/// Along an inheritance chain the nearest definition wins: a name that the
/// last template defines has that template's value, and every other name has
/// what the ancestors before it gave it.
pub proof fn law_nearest_definition_wins(
    ancestors: Seq<TemplateView>,
    t: TemplateView,
    name: Seq<char>,
)
    requires
        unique_keys(t.properties),
    ensures
        lookup(merge(ancestors.push(t)), name) == if has_key(t.properties, name) {
            lookup(t.properties, name)
        } else {
            lookup(merge(ancestors), name)
        },
{
    assert(ancestors.push(t).drop_last() =~= ancestors);
    lemma_merge_unique(ancestors);
    lemma_put_all(merge(ancestors), t.properties, name);
}

/// Of the templates registered in one go, the last of each entity type is the
/// one that the registry holds, and types that none of them names keep what
/// they had.
pub proof fn law_last_registered_wins(
    registry: Map<Seq<char>, TemplateView>,
    templates: Seq<TemplateView>,
    name: Seq<char>,
)
    ensures
        (forall|i: int| 0 <= i < templates.len() ==> (#[trigger] templates[i]).entity_type != name)
            ==> register_all(registry, templates).contains_key(name) == registry.contains_key(name)
            && (registry.contains_key(name) ==> register_all(registry, templates)[name]
            == registry[name]),
        forall|i: int|
            0 <= i < templates.len() && (#[trigger] templates[i]).entity_type == name && (forall|
                j: int,
            |
                i < j < templates.len() ==> (#[trigger] templates[j]).entity_type != name)
                ==> register_all(registry, templates).contains_key(name) && register_all(
                registry,
                templates,
            )[name] == templates[i],
    decreases templates.len(),
{
    if templates.len() > 0 {
        let rest = templates.drop_last();
        law_last_registered_wins(registry, rest, name);
        assert forall|i: int|
            0 <= i < templates.len() && (#[trigger] templates[i]).entity_type == name && (forall|
                j: int,
            |
                i < j < templates.len() ==> (#[trigger] templates[j]).entity_type
                    != name) implies register_all(registry, templates).contains_key(name)
            && register_all(registry, templates)[name] == templates[i] by {
            if i < rest.len() {
                assert(rest[i] == templates[i]);
                assert(templates[templates.len() - 1].entity_type != name);
                assert forall|j: int| i < j < rest.len() implies (#[trigger] rest[j]).entity_type
                    != name by {
                    assert(rest[j] == templates[j]);
                }
            }
        }
        if forall|i: int| 0 <= i < templates.len() ==> (#[trigger] templates[i]).entity_type != name {
            assert(templates[templates.len() - 1].entity_type != name);
            assert forall|i: int| 0 <= i < rest.len() implies (#[trigger] rest[i]).entity_type
                != name by {
                assert(rest[i] == templates[i]);
            }
        }
    }
}

/// A start tag written from unique properties opens the template that has
/// exactly those, and no parent.
pub proof fn lemma_seed_reads_properties(name: Seq<char>, properties: Seq<(Seq<char>, Seq<char>)>)
    requires
        unique_keys(properties),
        !has_key(properties, inherits_attribute()),
    ensures
        seed(name, properties) == (TemplateView {
            entity_type: name,
            properties,
            parent: None,
            children: Seq::empty(),
        }),
    decreases properties.len(),
{
    if properties.len() > 0 {
        let rest = properties.drop_last();
        let last = properties.last();
        assert forall|i: int, j: int| 0 <= i < j < rest.len() implies (#[trigger] rest[i]).0 != (
        #[trigger] rest[j]).0 by {
            assert(properties[i].0 != properties[j].0);
        }
        if has_key(rest, inherits_attribute()) {
            let i = index_of(rest, inherits_attribute());
            assert(properties[i].0 == inherits_attribute());
        }
        lemma_seed_reads_properties(name, rest);
        assert(properties[properties.len() - 1].0 != inherits_attribute());
        if has_key(rest, last.0) {
            let i = index_of(rest, last.0);
            assert(properties[i].0 != properties[properties.len() - 1].0);
        }
        assert(!has_key(rest, last.0));
        assert(put(rest, last.0, last.1) =~= properties);
    } else {
        assert(properties =~= Seq::empty());
    }
}

/// A start tag written from unique properties and an optional parent opens
/// the template that has exactly those.
pub proof fn lemma_seed_reads_attributes(
    name: Seq<char>,
    properties: Seq<(Seq<char>, Seq<char>)>,
    parent: Option<Seq<char>>,
)
    requires
        unique_keys(properties),
        !has_key(properties, inherits_attribute()),
    ensures
        seed(
            name,
            attributes_of(
                TemplateView { entity_type: name, properties, parent, children: Seq::empty() },
            ),
        ) == (TemplateView { entity_type: name, properties, parent, children: Seq::empty() }),
{
    lemma_seed_reads_properties(name, properties);
    match parent {
        Some(p) => {
            let attributes = properties.push((inherits_attribute(), p));
            assert(attributes.drop_last() =~= properties);
            assert(attributes.last() == (inherits_attribute(), p));
        },
        None => {},
    }
}

/// What a completed template does to a parse: with nothing open it joins the
/// completed templates, otherwise it becomes the last child of the template
/// on top of the stack.
pub open spec fn absorbed(
    stack: Seq<TemplateView>,
    done: Seq<TemplateView>,
    t: TemplateView,
) -> ParseState {
    if stack.len() == 0 {
        Ok((Seq::empty(), done.push(t)))
    } else {
        Ok((stack.drop_last().push(with_child(stack.last(), t)), done))
    }
}

/// Reading the tag stream of a template, from any state, completes exactly
/// that template.
pub proof fn lemma_reads_written(
    stack: Seq<TemplateView>,
    done: Seq<TemplateView>,
    t: TemplateView,
)
    requires
        writable(t),
    ensures
        advance(Ok((stack, done)), events_of(t)) == absorbed(stack, done, t),
    decreases t, 1int,
{
    let state = ParseState::Ok((stack, done));
    let open = seq![TagEventView::Start { name: t.entity_type, attributes: attributes_of(t) }];
    let inner = events_of_all(t.children);
    let close = seq![TagEventView::End { name: t.entity_type }];
    let bare = TemplateView {
        entity_type: t.entity_type,
        properties: t.properties,
        parent: t.parent,
        children: Seq::empty(),
    };
    assert(attributes_of(bare) == attributes_of(t));
    lemma_seed_reads_attributes(t.entity_type, t.properties, t.parent);
    assert(open.drop_last() =~= Seq::empty());
    assert(advance(state, open.drop_last()) == state);
    assert(advance(state, open) == ParseState::Ok((stack.push(bare), done)));
    lemma_reads_written_all(stack, done, bare, t.children);
    assert(bare.children + t.children =~= t.children);
    lemma_advance_append(state, open, inner);
    assert(advance(state, open + inner) == ParseState::Ok((stack.push(t), done)));
    lemma_advance_append(state, open + inner, close);
    assert(close.drop_last() =~= Seq::empty());
    let full = stack.push(t);
    assert(full.last() == t);
    if stack.len() > 0 {
        assert(full[full.len() - 2] == stack.last());
        assert(full.take(full.len() - 2) =~= stack.drop_last());
    }
    assert(advance(ParseState::Ok((full, done)), close.drop_last()) == ParseState::Ok(
        (full, done),
    ));
    assert(advance(ParseState::Ok((full, done)), close) == absorbed(stack, done, t));
}

/// Reading the tag streams of several templates under an open template
/// makes them its next children, in order.
pub proof fn lemma_reads_written_all(
    stack: Seq<TemplateView>,
    done: Seq<TemplateView>,
    top: TemplateView,
    children: Seq<TemplateView>,
)
    requires
        forall|i: int| 0 <= i < children.len() ==> writable(#[trigger] children[i]),
    ensures
        advance(Ok((stack.push(top), done)), events_of_all(children)) == ParseState::Ok(
            (stack.push(TemplateView { children: top.children + children, ..top }), done),
        ),
    decreases children, 0int,
{
    let state = ParseState::Ok((stack.push(top), done));
    if children.len() == 0 {
        assert(top.children + children =~= top.children);
    } else {
        let rest = children.drop_last();
        let last = children.last();
        assert forall|i: int| 0 <= i < rest.len() implies writable(#[trigger] rest[i]) by {
            assert(rest[i] == children[i]);
        }
        lemma_reads_written_all(stack, done, top, rest);
        let grown = TemplateView { children: top.children + rest, ..top };
        lemma_advance_append(state, events_of_all(rest), events_of(last));
        assert(writable(children[children.len() - 1]));
        lemma_reads_written(stack.push(grown), done, last);
        assert(stack.push(grown).drop_last() =~= stack);
        assert((top.children + rest).push(last) =~= top.children + children);
    }
}

/// Parsing reads back what was written: the tag stream of a template parses
/// to that template.
pub proof fn law_parse_reads_what_was_written(t: TemplateView)
    requires
        writable(t),
    ensures
        parse_one(events_of(t)) == Ok::<TemplateView, ParseError>(t),
{
    lemma_reads_written(Seq::empty(), Seq::empty(), t);
    assert(Seq::<TemplateView>::empty().push(t)[0] == t);
}

/// The tag streams of several templates, one after the other, parse to
/// those templates in order.
pub proof fn law_parse_reads_every_template(templates: Seq<TemplateView>)
    requires
        forall|i: int| 0 <= i < templates.len() ==> writable(#[trigger] templates[i]),
    ensures
        parse_all(events_of_all(templates)) == Ok::<Seq<TemplateView>, ParseError>(templates),
        run(events_of_all(templates)) == ParseState::Ok((Seq::empty(), templates)),
    decreases templates.len(),
{
    let start = ParseState::Ok((Seq::empty(), Seq::empty()));
    if templates.len() == 0 {
        assert(templates =~= Seq::empty());
    } else {
        let rest = templates.drop_last();
        assert forall|i: int| 0 <= i < rest.len() implies writable(#[trigger] rest[i]) by {
            assert(rest[i] == templates[i]);
        }
        law_parse_reads_every_template(rest);
        lemma_advance_append(start, events_of_all(rest), events_of(templates.last()));
        assert(writable(templates[templates.len() - 1]));
        lemma_reads_written(Seq::empty(), rest, templates.last());
        assert(rest.push(templates.last()) =~= templates);
    }
}

/// A template that inherits from a registered template without parent
/// resolves to the parent's properties with its own set over them.
pub proof fn law_single_inheritance(templates: Map<Seq<char>, TemplateView>, t: TemplateView)
    requires
        templates.dom().finite(),
        t.parent is Some,
        t.parent->0 != t.entity_type,
        templates.contains_key(t.parent->0),
        templates[t.parent->0].parent is None,
    ensures
        resolved(templates, t) == Ok::<Seq<(Seq<char>, Seq<char>)>, ApplyErrorView>(
            merge(seq![templates[t.parent->0], t]),
        ),
{
    let parent = t.parent->0;
    let start = set![t.entity_type];
    assert(!start.contains(parent));
    assert(ancestry(templates, templates[parent], start.insert(parent)) == Ok::<
        Seq<TemplateView>,
        ApplyErrorView,
    >(seq![templates[parent]]));
    assert(seq![templates[parent]].push(t) =~= seq![templates[parent], t]);
}

} // verus!
