//! The registry: the templates that are known, by the entity type they apply to.

use vstd::prelude::*;
use vstd::hash_map::StringHashMap;
use crate::template::{Template, TemplateView};

verus! {

/// What holds of every registry: it is finite, and each template stands under
/// the entity type it names.
pub open spec fn registry_wf(templates: Map<Seq<char>, TemplateView>) -> bool {
    &&& templates.dom().finite()
    &&& forall|name: Seq<char>| #[trigger]
        templates.contains_key(name) ==> templates[name].entity_type == name
}

/// A mapping from entity type to template, at most one per type.
pub struct Registry {
    templates: StringHashMap<Template>,
}

impl View for Registry {
    type V = Map<Seq<char>, TemplateView>;

    closed spec fn view(&self) -> Map<Seq<char>, TemplateView> {
        self.templates@.map_values(|t: Template| t@)
    }
}

impl Registry {
    #[verifier::type_invariant]
    closed spec fn well_formed(self) -> bool {
        registry_wf(self@)
    }

    /// The registry that knows no template.
    pub fn new() -> (r: Registry)
        ensures
            r@ == Map::<Seq<char>, TemplateView>::empty(),
    {
        let templates: StringHashMap<Template> = StringHashMap::new();
        assert(templates@.map_values(|t: Template| t@) =~= Map::<Seq<char>, TemplateView>::empty());
        Registry { templates }
    }

    /// The number of templates.
    pub fn len(&self) -> (n: usize)
        ensures
            n == self@.len(),
            registry_wf(self@),
    {
        proof {
            use_type_invariant(self);
            assert(self@.dom() =~= self.templates@.dom());
        }
        self.templates.len()
    }

    /// Registers `template` under its entity type. A template that stood
    /// there before is replaced.
    pub fn register(&mut self, template: Template)
        ensures
            final(self)@ == old(self)@.insert(template@.entity_type, template@),
    {
        proof {
            use_type_invariant(&*self);
        }
        let name = template.entity_type.clone();
        let mut templates: StringHashMap<Template> = StringHashMap::new();
        assert(templates@.map_values(|t: Template| t@) =~= Map::<Seq<char>, TemplateView>::empty());
        core::mem::swap(&mut self.templates, &mut templates);
        templates.insert(name, template);
        proof {
            let after = templates@.map_values(|t: Template| t@);
            assert(after =~= old(self)@.insert(template@.entity_type, template@));
            assert(after.dom() =~= old(self)@.dom().insert(template@.entity_type));
        }
        self.templates = templates;
    }

    /// Forgets every template.
    pub fn clear(&mut self)
        ensures
            final(self)@ == Map::<Seq<char>, TemplateView>::empty(),
    {
        let templates: StringHashMap<Template> = StringHashMap::new();
        assert(templates@.map_values(|t: Template| t@) =~= Map::<Seq<char>, TemplateView>::empty());
        self.templates = templates;
    }

    /// The template registered for `name`, if there is one.
    pub fn get(&self, name: &str) -> (r: Option<&Template>)
        ensures
            r is Some == self@.contains_key(name@),
            r matches Some(t) ==> t@ == self@[name@] && t@.entity_type == name@,
    {
        proof {
            use_type_invariant(self);
        }
        let r = self.templates.get(name);
        proof {
            assert(self@.contains_key(name@) == self.templates@.contains_key(name@));
        }
        r
    }

    /// Whether a template is registered for `name`.
    pub fn contains(&self, name: &str) -> (b: bool)
        ensures
            b == self@.contains_key(name@),
    {
        self.get(name).is_some()
    }
}

} // verus!
