//! The template subsystem: it loads the templates that a document declares
//! and applies them to the document's entities.

use vstd::prelude::*;
use std::path::PathBuf;
use crate::document::{Document, EntityId, EntityView};
use crate::events::{event_views, read_xml_events, xml_events, TagEvent, TagEventView};
use crate::registry::Registry;
use crate::resolver::{applied, failure, ApplyError, ApplyErrorView};
use crate::template::{
    outside_envelope, parse_all, parse_text, template_views, ParseError, Template, TemplateView,
};

verus! {

/// `std::path::PathBuf`, which the subsystem keeps and hands back without
/// looking inside.
#[verifier::external_type_specification]
#[verifier::external_body]
pub struct ExPathBuf(std::path::PathBuf);

/// One entry of a document's list of template declarations: a kind and the
/// text that goes with it.
#[derive(Debug)]
pub struct Declaration {
    /// `template` or `templates_from_file`.
    pub kind: String,
    /// The template's text, or the path of a file of templates.
    pub data: String,
}

impl View for Declaration {
    type V = (Seq<char>, Seq<char>);

    open spec fn view(&self) -> (Seq<char>, Seq<char>) {
        (self.kind@, self.data@)
    }
}

/// The two kinds of declaration.
#[derive(Clone, Copy, Debug, PartialEq, Eq, Structural)]
pub enum DeclarationKind {
    /// The declaration carries the text of one template.
    Inline,
    /// The declaration carries the path of a file of templates, relative to
    /// the subsystem's root path.
    FromFile,
}

/// A template file that was read: the path as a declaration gives it, and
/// what the file holds.
#[derive(Debug)]
pub struct TemplateFile {
    pub path: String,
    pub contents: String,
}

impl View for TemplateFile {
    type V = (Seq<char>, Seq<char>);

    open spec fn view(&self) -> (Seq<char>, Seq<char>) {
        (self.path@, self.contents@)
    }
}

/// Why loading templates stopped.
#[derive(Debug, PartialEq, Eq)]
pub enum LoadError {
    /// A declaration is of neither kind; this is the kind it gave.
    UnknownDeclarationKind(String),
    /// The file at this path was not read.
    Io(String),
    /// A template's text is malformed.
    Parse(ParseError),
}

/// The mathematical form of a `LoadError`.
pub enum LoadErrorView {
    UnknownDeclarationKind(Seq<char>),
    Io(Seq<char>),
    Parse(ParseError),
}

impl View for LoadError {
    type V = LoadErrorView;

    open spec fn view(&self) -> LoadErrorView {
        match *self {
            LoadError::UnknownDeclarationKind(kind) => LoadErrorView::UnknownDeclarationKind(kind@),
            LoadError::Io(path) => LoadErrorView::Io(path@),
            LoadError::Parse(e) => LoadErrorView::Parse(e),
        }
    }
}

/// The error of a load result, if it is one.
pub open spec fn load_failure(r: Result<(), LoadError>) -> Option<LoadErrorView> {
    match r {
        Ok(_) => None,
        Err(e) => Some(e@),
    }
}

/// The kind that a declaration's tag stands for.
pub open spec fn declared_kind(kind: Seq<char>) -> Option<DeclarationKind> {
    if kind == "template"@ {
        Some(DeclarationKind::Inline)
    } else if kind == "templates_from_file"@ {
        Some(DeclarationKind::FromFile)
    } else {
        None
    }
}

/// The name of the element that may wrap the templates of a file.
pub open spec fn envelope() -> Seq<char> {
    "Tpml"@
}

/// The registry after registering `templates`, first to last.
pub open spec fn register_all(
    registry: Map<Seq<char>, TemplateView>,
    templates: Seq<TemplateView>,
) -> Map<Seq<char>, TemplateView>
    decreases templates.len(),
{
    if templates.len() == 0 {
        registry
    } else {
        register_all(registry, templates.drop_last()).insert(
            templates.last().entity_type,
            templates.last(),
        )
    }
}

/// The templates that a tag stream of a file holds: those directly inside
/// the envelope, or the single one that stands alone.
pub open spec fn stream_templates(events: Seq<TagEventView>) -> Result<
    Seq<TemplateView>,
    ParseError,
> {
    parse_all(outside_envelope(events, envelope()))
}

/// The templates that the text of a file holds, as the `xml` crate reads it.
pub open spec fn file_templates(text: Seq<char>) -> Result<Seq<TemplateView>, ParseError> {
    match xml_events(text) {
        Some(events) => stream_templates(events),
        None => Err(ParseError::Malformed),
    }
}

/// What the first file with the given path holds.
pub open spec fn file_contents(files: Seq<(Seq<char>, Seq<char>)>, path: Seq<char>) -> Option<
    Seq<char>,
>
    decreases files.len(),
{
    if files.len() == 0 {
        None
    } else if files[0].0 == path {
        Some(files[0].1)
    } else {
        file_contents(files.drop_first(), path)
    }
}

/// The registry after one declaration, or the reason why the declaration
/// registers nothing.
pub open spec fn load_one(
    registry: Map<Seq<char>, TemplateView>,
    declaration: (Seq<char>, Seq<char>),
    files: Seq<(Seq<char>, Seq<char>)>,
) -> Result<Map<Seq<char>, TemplateView>, LoadErrorView> {
    match declared_kind(declaration.0) {
        None => Err(LoadErrorView::UnknownDeclarationKind(declaration.0)),
        Some(DeclarationKind::Inline) => match parse_text(declaration.1) {
            Ok(t) => Ok(registry.insert(t.entity_type, t)),
            Err(e) => Err(LoadErrorView::Parse(e)),
        },
        Some(DeclarationKind::FromFile) => match file_contents(files, declaration.1) {
            None => Err(LoadErrorView::Io(declaration.1)),
            Some(text) => match file_templates(text) {
                Ok(templates) => Ok(register_all(registry, templates)),
                Err(e) => Err(LoadErrorView::Parse(e)),
            },
        },
    }
}

/// The registry after the declarations, first to last, up to the first that
/// fails, and that failure.
pub open spec fn loaded(
    registry: Map<Seq<char>, TemplateView>,
    declarations: Seq<(Seq<char>, Seq<char>)>,
    files: Seq<(Seq<char>, Seq<char>)>,
) -> (Map<Seq<char>, TemplateView>, Option<LoadErrorView>)
    decreases declarations.len(),
{
    if declarations.len() == 0 {
        (registry, None)
    } else {
        match loaded(registry, declarations.drop_last(), files) {
            (before, Some(e)) => (before, Some(e)),
            (before, None) => match load_one(before, declarations.last(), files) {
                Ok(after) => (after, None),
                Err(e) => (before, Some(e)),
            },
        }
    }
}

/// What the arrival of entity `at` does to a document: the template
/// registered for the entity's type is applied to it. An entity that does not
/// exist, or whose type has no template, leaves the document as it is.
pub open spec fn entity_added(
    templates: Map<Seq<char>, TemplateView>,
    d: Seq<EntityView>,
    at: int,
) -> (Seq<EntityView>, Option<ApplyErrorView>) {
    if 0 <= at < d.len() && templates.contains_key(d[at].entity_type) {
        applied(templates, d, at, templates[d[at].entity_type])
    } else {
        (d, None)
    }
}

/// The document after the first `count` entities were visited in creation
/// order, with the entities whose template failed and their errors.
pub open spec fn swept(
    templates: Map<Seq<char>, TemplateView>,
    d: Seq<EntityView>,
    count: nat,
) -> (Seq<EntityView>, Seq<(int, ApplyErrorView)>)
    decreases count,
{
    if count == 0 {
        (d, Seq::empty())
    } else {
        let (before, failures) = swept(templates, d, (count - 1) as nat);
        match entity_added(templates, before, count - 1) {
            (after, Some(e)) => (after, failures.push((count - 1, e))),
            (after, None) => (after, failures),
        }
    }
}

/// The views of the declarations, in order.
pub open spec fn declaration_views(declarations: Seq<Declaration>) -> Seq<(Seq<char>, Seq<char>)> {
    declarations.map_values(|d: Declaration| d@)
}

/// The views of the files, in order.
pub open spec fn file_views(files: Seq<TemplateFile>) -> Seq<(Seq<char>, Seq<char>)> {
    files.map_values(|f: TemplateFile| f@)
}

/// The views of the failures of a sweep, in order.
pub open spec fn failure_views(failures: Seq<(EntityId, ApplyError)>) -> Seq<
    (int, ApplyErrorView),
> {
    failures.map_values(|f: (EntityId, ApplyError)| (f.0.index as int, f.1@))
}

/// What loading a document did.
#[derive(Debug)]
pub struct LoadReport {
    /// Whether every declaration was loaded, or the error that stopped it.
    pub load: Result<(), LoadError>,
    /// The entities whose template could not be applied in full, in creation
    /// order, each with its first error.
    pub failures: Vec<(EntityId, ApplyError)>,
}

/// The templates of one document and the path under which its template
/// files are found.
pub struct TemplateSubSystem {
    root_path: PathBuf,
    templates: Registry,
}

impl View for TemplateSubSystem {
    type V = Map<Seq<char>, TemplateView>;

    closed spec fn view(&self) -> Map<Seq<char>, TemplateView> {
        self.templates@
    }
}

impl DeclarationKind {
    /// The kind that the tag `kind` stands for, if it is one of the two.
    pub fn of(kind: &str) -> (r: Option<DeclarationKind>)
        ensures
            r == declared_kind(kind@),
    {
        if kind.eq("template") {
            Some(DeclarationKind::Inline)
        } else if kind.eq("templates_from_file") {
            Some(DeclarationKind::FromFile)
        } else {
            None
        }
    }
}

impl TemplateSubSystem {
    /// The path under which the template files are, as the subsystem keeps it.
    pub closed spec fn root(&self) -> PathBuf {
        self.root_path
    }

    /// A subsystem without templates, for template files under `root_path`.
    pub fn new(root_path: PathBuf) -> (r: TemplateSubSystem)
        ensures
            r@ == Map::<Seq<char>, TemplateView>::empty(),
            r.root() == root_path,
    {
        TemplateSubSystem { root_path, templates: Registry::new() }
    }

    /// The path under which the template files are.
    pub fn root_path(&self) -> (r: &PathBuf)
        ensures
            *r == self.root(),
    {
        &self.root_path
    }

    /// The templates that are registered.
    pub fn templates(&self) -> (r: &Registry)
        ensures
            r@ == self@,
    {
        &self.templates
    }

    /// Registers `template` under its entity type, in place of any template
    /// registered for that type before.
    pub fn register(&mut self, template: Template)
        ensures
            final(self)@ == old(self)@.insert(template@.entity_type, template@),
            final(self).root() == old(self).root(),
    {
        self.templates.register(template);
    }

    /// Forgets every template, as when the document they came with is gone.
    pub fn clear(&mut self)
        ensures
            final(self)@ == Map::<Seq<char>, TemplateView>::empty(),
            final(self).root() == old(self).root(),
    {
        self.templates.clear();
    }

    /// The template registered for `name`, if there is one.
    pub fn get(&self, name: &str) -> (r: Option<&Template>)
        ensures
            r is Some == self@.contains_key(name@),
            r matches Some(t) ==> t@ == self@[name@] && t@.entity_type == name@,
    {
        self.templates.get(name)
    }

    /// Registers every template of `templates`, first to last.
    pub fn register_each(&mut self, templates: Vec<Template>)
        ensures
            final(self)@ == register_all(old(self)@, template_views(templates@)),
            final(self).root() == old(self).root(),
    {
        let ghost all = template_views(templates@);
        let mut rest = templates;
        let mut reversed: Vec<Template> = Vec::new();
        while rest.len() > 0
            invariant
                rest@.len() + reversed@.len() == all.len(),
                forall|k: int| 0 <= k < rest@.len() ==> #[trigger] rest@[k]@ == all[k],
                forall|k: int|
                    0 <= k < reversed@.len() ==> #[trigger] reversed@[k]@ == all[all.len() - 1
                        - k],
            decreases rest@.len(),
        {
            let t = rest.pop().unwrap();
            reversed.push(t);
        }
        let ghost mut done: int = 0;
        while reversed.len() > 0
            invariant
                0 <= done <= all.len(),
                reversed@.len() == all.len() - done,
                forall|k: int|
                    0 <= k < reversed@.len() ==> #[trigger] reversed@[k]@ == all[all.len() - 1
                        - k],
                self@ == register_all(old(self)@, all.take(done)),
                self.root() == old(self).root(),
            decreases reversed@.len(),
        {
            proof {
                assert(all.take(done + 1).drop_last() =~= all.take(done));
                assert(all.take(done + 1).last() == all[done]);
            }
            let t = reversed.pop().unwrap();
            self.templates.register(t);
            proof {
                done = done + 1;
            }
        }
        assert(all.take(done) =~= all);
    }

    /// Registers every template that the tag stream of a template file
    /// holds. A stream that is malformed anywhere registers nothing.
    pub fn load_templates_from_events(&mut self, events: &Vec<TagEvent>) -> (r: Result<
        (),
        LoadError,
    >)
        ensures
            final(self).root() == old(self).root(),
            match stream_templates(event_views(events@)) {
                Ok(templates) => r is Ok && final(self)@ == register_all(old(self)@, templates),
                Err(e) => r matches Err(error) && error@ == LoadErrorView::Parse(e) && final(self)@
                    == old(self)@,
            },
    {
        match Template::parse_enveloped(events, "Tpml") {
            Ok(templates) => {
                self.register_each(templates);
                Ok(())
            },
            Err(e) => Err(LoadError::Parse(e)),
        }
    }

    /// Registers every template that the text of a template file holds: a
    /// single template, or any number of them inside a `Tpml` element. A
    /// file that is malformed anywhere registers nothing.
    pub fn load_templates_from_file(&mut self, contents: &str) -> (r: Result<(), LoadError>)
        ensures
            final(self).root() == old(self).root(),
            match file_templates(contents@) {
                Ok(templates) => r is Ok && final(self)@ == register_all(old(self)@, templates),
                Err(e) => r matches Err(error) && error@ == LoadErrorView::Parse(e) && final(self)@
                    == old(self)@,
            },
    {
        match read_xml_events(contents) {
            Ok(events) => self.load_templates_from_events(&events),
            Err(_) => Err(LoadError::Parse(ParseError::Malformed)),
        }
    }

    /// Loads one declaration: an inline template is parsed and registered; a
    /// file's templates are taken from what `files` holds under the declared
    /// path.
    pub fn load_declaration(&mut self, declaration: &Declaration, files: &Vec<TemplateFile>) -> (r:
        Result<(), LoadError>)
        ensures
            final(self).root() == old(self).root(),
            match load_one(old(self)@, declaration@, file_views(files@)) {
                Ok(after) => r is Ok && final(self)@ == after,
                Err(e) => r matches Err(error) && error@ == e && final(self)@ == old(self)@,
            },
    {
        match DeclarationKind::of(declaration.kind.as_str()) {
            None => Err(LoadError::UnknownDeclarationKind(declaration.kind.clone())),
            Some(DeclarationKind::Inline) => match Template::from_string(
                declaration.data.as_str(),
            ) {
                Ok(template) => {
                    self.register(template);
                    Ok(())
                },
                Err(e) => Err(LoadError::Parse(e)),
            },
            Some(DeclarationKind::FromFile) => {
                let ghost all = file_views(files@);
                let mut i: usize = 0;
                assert(all.skip(0) =~= all);
                while i < files.len()
                    invariant
                        i <= files.len(),
                        *self == *old(self),
                        all == file_views(files@),
                        declared_kind(declaration@.0) == Some(DeclarationKind::FromFile),
                        file_contents(all, declaration@.1) == file_contents(
                            all.skip(i as int),
                            declaration@.1,
                        ),
                    decreases files.len() - i,
                {
                    proof {
                        assert(all.skip(i as int)[0] == files@[i as int]@);
                        assert(all.skip(i as int).drop_first() =~= all.skip(i + 1));
                    }
                    if files[i].path.as_str().eq(declaration.data.as_str()) {
                        return self.load_templates_from_file(files[i].contents.as_str());
                    }
                    i = i + 1;
                }
                Err(LoadError::Io(declaration.data.clone()))
            },
        }
    }

    /// Loads the declarations, first to last, and stops at the first that
    /// fails: what was registered until then stays registered.
    pub fn load_templates(
        &mut self,
        declarations: &Vec<Declaration>,
        files: &Vec<TemplateFile>,
    ) -> (r: Result<(), LoadError>)
        ensures
            final(self).root() == old(self).root(),
            (final(self)@, load_failure(r)) == loaded(
                old(self)@,
                declaration_views(declarations@),
                file_views(files@),
            ),
    {
        let ghost all = declaration_views(declarations@);
        let mut i: usize = 0;
        while i < declarations.len()
            invariant
                i <= declarations.len(),
                all == declaration_views(declarations@),
                self.root() == old(self).root(),
                loaded(old(self)@, all.take(i as int), file_views(files@)) == (
                    self@,
                    None::<LoadErrorView>,
                ),
            decreases declarations.len() - i,
        {
            proof {
                assert(all.take(i + 1).drop_last() =~= all.take(i as int));
                assert(all.take(i + 1).last() == declarations@[i as int]@);
            }
            match self.load_declaration(&declarations[i], files) {
                Ok(()) => {},
                Err(e) => {
                    proof {
                        lemma_loaded_stops(old(self)@, all, file_views(files@), i + 1);
                    }
                    return Err(e);
                },
            }
            i = i + 1;
        }
        assert(all.take(i as int) =~= all);
        Ok(())
    }

    /// Applies the template registered for the type of `entity` to it. An
    /// entity that the document does not hold, or whose type has no
    /// template, leaves the document untouched.
    pub fn on_entity_added(&self, document: &mut Document, entity: EntityId) -> (r: Result<
        (),
        ApplyError,
    >)
        ensures
            (final(document)@, failure(r)) == entity_added(
                self@,
                old(document)@,
                entity.index as int,
            ),
    {
        match document.get_entity_type_name(entity) {
            Err(_) => Ok(()),
            Ok(name) => match self.templates.get(name.as_str()) {
                None => Ok(()),
                Some(template) => template.apply(&self.templates, document, entity),
            },
        }
    }

    /// Takes up a new document: forgets the templates of the document before,
    /// loads the templates that the new document declares, then applies the
    /// registered templates to every entity that the document held on entry,
    /// in creation order. A declaration that fails ends the loading, not the
    /// sweep; an entity whose template fails does not stop the others.
    pub fn on_document_loaded(
        &mut self,
        document: &mut Document,
        declarations: &Vec<Declaration>,
        files: &Vec<TemplateFile>,
    ) -> (r: LoadReport)
        ensures
            final(self).root() == old(self).root(),
            (final(self)@, load_failure(r.load)) == loaded(
                Map::empty(),
                declaration_views(declarations@),
                file_views(files@),
            ),
            (final(document)@, failure_views(r.failures@)) == swept(
                final(self)@,
                old(document)@,
                old(document)@.len(),
            ),
    {
        self.clear();
        let load = self.load_templates(declarations, files);
        let count = document.len();
        let mut failures: Vec<(EntityId, ApplyError)> = Vec::new();
        let mut i: usize = 0;
        assert(failure_views(failures@) =~= Seq::empty());
        while i < count
            invariant
                i <= count,
                count == old(document)@.len(),
                (document@, failure_views(failures@)) == swept(self@, old(document)@, i as nat),
            decreases count - i,
        {
            let ghost before = failure_views(failures@);
            match self.on_entity_added(document, EntityId { index: i }) {
                Ok(()) => {},
                Err(e) => {
                    failures.push((EntityId { index: i }, e));
                    assert(failure_views(failures@) =~= before.push((i as int, e@)));
                },
            }
            i = i + 1;
        }
        LoadReport { load, failures }
    }
}

/// Once a prefix of the declarations fails, the rest is not loaded.
pub proof fn lemma_loaded_stops(
    registry: Map<Seq<char>, TemplateView>,
    declarations: Seq<(Seq<char>, Seq<char>)>,
    files: Seq<(Seq<char>, Seq<char>)>,
    n: int,
)
    requires
        0 <= n <= declarations.len(),
        loaded(registry, declarations.take(n), files).1 is Some,
    ensures
        loaded(registry, declarations, files) == loaded(registry, declarations.take(n), files),
    decreases declarations.len(),
{
    if n == declarations.len() {
        assert(declarations.take(n) =~= declarations);
    } else {
        assert(declarations.drop_last().take(n) =~= declarations.take(n));
        lemma_loaded_stops(registry, declarations.drop_last(), files, n);
    }
}

} // verus!
