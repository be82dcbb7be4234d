//! Templates and the parser that builds them from tag events.

use vstd::prelude::*;
use crate::events::{event_views, read_xml_events, xml_events, TagEvent, TagEventView};
use crate::properties::{has_key, put, unique_keys, Properties, Property};

verus! {

/// A named bundle of default property values, with an optional parent to
/// inherit from and the templates of the child entities it spawns.
#[derive(Debug)]
pub struct Template {
    /// The entity type that this template applies to.
    pub entity_type: String,
    /// The defaults that this template itself defines.
    pub properties: Properties,
    /// The name of the template that this one inherits from.
    pub parent: Option<String>,
    /// The templates of the child entities, in spawn order.
    pub children: Vec<Template>,
}

/// The mathematical form of a `Template`.
pub struct TemplateView {
    pub entity_type: Seq<char>,
    pub properties: Seq<(Seq<char>, Seq<char>)>,
    pub parent: Option<Seq<char>>,
    pub children: Seq<TemplateView>,
}

/// The view of an optional string.
pub open spec fn name_view(name: Option<String>) -> Option<Seq<char>> {
    match name {
        Some(n) => Some(n@),
        None => None,
    }
}

/// The view of a template: the views of its parts, children included.
pub open spec fn template_view(t: Template) -> TemplateView
    decreases t,
{
    TemplateView {
        entity_type: t.entity_type@,
        properties: t.properties@,
        parent: name_view(t.parent),
        children: Seq::new(
            t.children.len() as nat,
            |i: int|
                if 0 <= i < t.children.len() {
                    template_view(t.children[i])
                } else {
                    arbitrary()
                },
        ),
    }
}

impl View for Template {
    type V = TemplateView;

    open spec fn view(&self) -> TemplateView {
        template_view(*self)
    }
}

/// The views of a sequence of templates, in order.
pub open spec fn template_views(templates: Seq<Template>) -> Seq<TemplateView> {
    templates.map_values(|t: Template| t@)
}

/// The children of a template's view are the views of its children.
pub proof fn lemma_children_view(t: Template)
    ensures
        t@.children == template_views(t.children@),
{
    assert(t@.children =~= template_views(t.children@));
}

/// Why a tag stream is no template.
#[derive(Debug, PartialEq, Eq)]
pub enum ParseError {
    /// The tags are unbalanced, the text cannot be tokenized, or the stream
    /// does not hold the templates that were asked for.
    Malformed,
}

/// The attribute that names a template's parent.
pub open spec fn inherits_attribute() -> Seq<char> {
    "inherits"@
}

/// The template that a start tag opens: the tag's name; one property for each
/// attribute, a later value replacing an earlier one of the same name; the
/// parent taken from the last `inherits` attribute, which is no property; no
/// children yet.
pub open spec fn seed(name: Seq<char>, attributes: Seq<(Seq<char>, Seq<char>)>) -> TemplateView
    decreases attributes.len(),
{
    if attributes.len() == 0 {
        TemplateView {
            entity_type: name,
            properties: Seq::empty(),
            parent: None,
            children: Seq::empty(),
        }
    } else {
        let before = seed(name, attributes.drop_last());
        let attribute = attributes.last();
        if attribute.0 == inherits_attribute() {
            TemplateView { parent: Some(attribute.1), ..before }
        } else {
            TemplateView {
                properties: put(before.properties, attribute.0, attribute.1),
                ..before
            }
        }
    }
}

/// `t` with `child` as its last child.
pub open spec fn with_child(t: TemplateView, child: TemplateView) -> TemplateView {
    TemplateView { children: t.children.push(child), ..t }
}

/// What one event does to the stack of open templates. A start tag opens a
/// template on top of the stack. An end tag must carry the name of the top
/// template and closes it: the closed template becomes the last child of the
/// template below it, or, where the stack is left empty, the template that the
/// event completes. Any other event changes nothing. The result is the new
/// stack and the completed template, if there is one.
pub open spec fn step(stack: Seq<TemplateView>, event: TagEventView) -> Result<
    (Seq<TemplateView>, Option<TemplateView>),
    ParseError,
> {
    match event {
        TagEventView::Start { name, attributes } => Ok((stack.push(seed(name, attributes)), None)),
        TagEventView::End { name } => {
            if stack.len() == 0 || stack.last().entity_type != name {
                Err(ParseError::Malformed)
            } else if stack.len() == 1 {
                Ok((Seq::empty(), Some(stack.last())))
            } else {
                let below = stack[stack.len() - 2];
                Ok((stack.take(stack.len() - 2).push(with_child(below, stack.last())), None))
            }
        },
        TagEventView::Other => Ok((stack, None)),
    }
}

/// Where a parse stands, if it has not failed: the stack of open templates
/// and the templates completed so far.
pub type ParseState = Result<(Seq<TemplateView>, Seq<TemplateView>), ParseError>;

/// The state after all of `events`, taken up from `state`: each event does
/// its step, a completed template joins those completed before, and the
/// first error stays.
pub open spec fn advance(state: ParseState, events: Seq<TagEventView>) -> ParseState
    decreases events.len(),
{
    if events.len() == 0 {
        state
    } else {
        match advance(state, events.drop_last()) {
            Err(e) => Err(e),
            Ok((stack, done)) => match step(stack, events.last()) {
                Err(e) => Err(e),
                Ok((next, Some(t))) => Ok((next, done.push(t))),
                Ok((next, None)) => Ok((next, done)),
            },
        }
    }
}

/// The state after all of `events`, starting with nothing open and nothing
/// completed.
pub open spec fn run(events: Seq<TagEventView>) -> ParseState {
    advance(Ok((Seq::empty(), Seq::empty())), events)
}

/// The templates that `events` holds at top level, in order. Every tag must be
/// closed by the end.
pub open spec fn parse_all(events: Seq<TagEventView>) -> Result<Seq<TemplateView>, ParseError> {
    match run(events) {
        Err(e) => Err(e),
        Ok((stack, done)) => if stack.len() == 0 {
            Ok(done)
        } else {
            Err(ParseError::Malformed)
        },
    }
}

/// Whether `event` is a tag, opening or closing, with the given name.
pub open spec fn is_tag_named(event: TagEventView, name: Seq<char>) -> bool {
    match event {
        TagEventView::Start { name: n, .. } => n == name,
        TagEventView::End { name: n } => n == name,
        TagEventView::Other => false,
    }
}

/// `events` without the tags of the wrapping element `envelope`.
pub open spec fn outside_envelope(events: Seq<TagEventView>, envelope: Seq<char>) -> Seq<
    TagEventView,
> {
    events.filter(|e: TagEventView| !is_tag_named(e, envelope))
}

/// The one template that `events` holds at top level.
pub open spec fn parse_one(events: Seq<TagEventView>) -> Result<TemplateView, ParseError> {
    match parse_all(events) {
        Err(e) => Err(e),
        Ok(done) => if done.len() == 1 {
            Ok(done[0])
        } else {
            Err(ParseError::Malformed)
        },
    }
}

/// The template that `text` holds, as the `xml` crate reads it.
pub open spec fn parse_text(text: Seq<char>) -> Result<TemplateView, ParseError> {
    match xml_events(text) {
        Some(events) => parse_one(events),
        None => Err(ParseError::Malformed),
    }
}

/// The view of an optional template.
pub open spec fn option_view(t: Option<Template>) -> Option<TemplateView> {
    match t {
        Some(t) => Some(t@),
        None => None,
    }
}

impl Template {
    /// A template for `entity_type` with no properties, parent or children.
    pub fn new(entity_type: String) -> (t: Template)
        ensures
            t@ == seed(entity_type@, Seq::empty()),
    {
        let t = Template {
            entity_type,
            properties: Properties::new(),
            parent: None,
            children: Vec::new(),
        };
        assert(t@.children =~= Seq::empty());
        t
    }

    /// The template that a start tag with these attributes opens.
    pub fn from_tag(name: &str, attributes: &Vec<Property>) -> (t: Template)
        ensures
            t@ == seed(name@, attributes@.map_values(|p: Property| p@)),
    {
        let ghost all = attributes@.map_values(|p: Property| p@);
        let mut properties = Properties::new();
        let mut parent: Option<String> = None;
        let mut i: usize = 0;
        while i < attributes.len()
            invariant
                i <= attributes.len(),
                all == attributes@.map_values(|p: Property| p@),
                properties@ == seed(name@, all.take(i as int)).properties,
                name_view(parent) == seed(name@, all.take(i as int)).parent,
            decreases attributes.len() - i,
        {
            proof {
                assert(all.take(i + 1).drop_last() =~= all.take(i as int));
                assert(all.take(i + 1).last() == attributes@[i as int]@);
            }
            let attribute = &attributes[i];
            if attribute.name.as_str().eq("inherits") {
                parent = Some(attribute.value.clone());
            } else {
                properties.set(attribute.name.clone(), attribute.value.clone());
            }
            i = i + 1;
        }
        proof {
            assert(all.take(i as int) =~= all);
            lemma_seed_shape(name@, all);
        }
        let t = Template { entity_type: name.to_owned(), properties, parent, children: Vec::new() };
        assert(t@.children =~= Seq::empty());
        t
    }

    /// Feeds one event to the stack of open templates and returns the
    /// template that the event completes, if any. On an error the stack is
    /// left as it was.
    pub fn parse_event(stack: &mut Vec<Template>, event: &TagEvent) -> (r: Result<
        Option<Template>,
        ParseError,
    >)
        ensures
            match step(template_views(old(stack)@), event@) {
                Ok((next, completed)) => r matches Ok(t) && option_view(t) == completed
                    && template_views(final(stack)@) == next,
                Err(e) => r == Err::<Option<Template>, ParseError>(e) && final(stack)@ == old(
                    stack,
                )@,
            },
    {
        let ghost before = template_views(stack@);
        match event {
            TagEvent::Start { name, attributes } => {
                let t = Template::from_tag(name.as_str(), attributes);
                stack.push(t);
                assert(template_views(stack@) =~= before.push(t@));
                Ok(None)
            },
            TagEvent::End { name } => {
                let n = stack.len();
                if n == 0 {
                    return Err(ParseError::Malformed);
                }
                assert(before.last() == stack@[n - 1]@);
                if !stack[n - 1].entity_type.as_str().eq(name.as_str()) {
                    return Err(ParseError::Malformed);
                }
                let top = stack.pop().unwrap();
                match stack.pop() {
                    None => {
                        assert(template_views(stack@) =~= Seq::empty());
                        Ok(Some(top))
                    },
                    Some(below) => {
                        let ghost below_view = below@;
                        let ghost top_view = top@;
                        proof {
                            lemma_children_view(below);
                        }
                        let Template { entity_type, properties, parent, children } = below;
                        let mut children = children;
                        children.push(top);
                        let joined = Template { entity_type, properties, parent, children };
                        proof {
                            lemma_children_view(joined);
                            assert(template_views(joined.children@) =~= below_view.children.push(
                                top_view,
                            ));
                            assert(joined@ == with_child(below_view, top_view));
                        }
                        stack.push(joined);
                        assert(template_views(stack@) =~= before.take(n - 2).push(
                            with_child(before[n - 2], before.last()),
                        ));
                        Ok(None)
                    },
                }
            },
            TagEvent::Other => Ok(None),
        }
    }

    /// Parses every template that `events` holds directly inside the wrapping
    /// element `envelope`, in order. The envelope's own tags are passed over
    /// wherever they stand.
    pub fn parse_enveloped(events: &Vec<TagEvent>, envelope: &str) -> (r: Result<
        Vec<Template>,
        ParseError,
    >)
        ensures
            match parse_all(outside_envelope(event_views(events@), envelope@)) {
                Ok(done) => r matches Ok(templates) && template_views(templates@) == done,
                Err(e) => r == Err::<Vec<Template>, ParseError>(e),
            },
    {
        let ghost keep = |e: TagEventView| !is_tag_named(e, envelope@);
        let ghost all = event_views(events@);
        let mut inside: Vec<TagEvent> = Vec::new();
        let mut i: usize = 0;
        assert(event_views(inside@) =~= all.take(0).filter(keep)) by {
            reveal(Seq::filter);
        }
        while i < events.len()
            invariant
                i <= events.len(),
                all == event_views(events@),
                keep == |e: TagEventView| !is_tag_named(e, envelope@),
                event_views(inside@) == all.take(i as int).filter(keep),
            decreases events.len() - i,
        {
            proof {
                reveal(Seq::filter);
                assert(all.take(i + 1).drop_last() =~= all.take(i as int));
                assert(all.take(i + 1).last() == events@[i as int]@);
            }
            let ghost before = event_views(inside@);
            let passed = match &events[i] {
                TagEvent::Start { name, .. } => name.as_str().eq(envelope),
                TagEvent::End { name } => name.as_str().eq(envelope),
                TagEvent::Other => false,
            };
            if !passed {
                let copy = events[i].clone();
                inside.push(copy);
                assert(event_views(inside@) =~= before.push(events@[i as int]@));
            }
            i = i + 1;
        }
        assert(all.take(i as int) =~= all);
        Template::parse_events(&inside)
    }

    /// Parses every top-level template out of `events`, in order.
    pub fn parse_events(events: &Vec<TagEvent>) -> (r: Result<Vec<Template>, ParseError>)
        ensures
            match parse_all(event_views(events@)) {
                Ok(done) => r matches Ok(templates) && template_views(templates@) == done,
                Err(e) => r == Err::<Vec<Template>, ParseError>(e),
            },
    {
        let ghost all = event_views(events@);
        let mut stack: Vec<Template> = Vec::new();
        let mut done: Vec<Template> = Vec::new();
        let mut i: usize = 0;
        assert(template_views(stack@) =~= Seq::empty());
        assert(template_views(done@) =~= Seq::empty());
        while i < events.len()
            invariant
                i <= events.len(),
                all == event_views(events@),
                run(all.take(i as int)) == ParseState::Ok(
                    (template_views(stack@), template_views(done@)),
                ),
            decreases events.len() - i,
        {
            proof {
                assert(all.take(i + 1).drop_last() =~= all.take(i as int));
                assert(all.take(i + 1).last() == events@[i as int]@);
            }
            let ghost done_before = template_views(done@);
            match Template::parse_event(&mut stack, &events[i]) {
                Err(e) => {
                    proof {
                        lemma_run_fails(all, i + 1);
                    }
                    return Err(e);
                },
                Ok(Some(t)) => {
                    done.push(t);
                    assert(template_views(done@) =~= done_before.push(t@));
                },
                Ok(None) => {},
            }
            i = i + 1;
        }
        assert(all.take(i as int) =~= all);
        if stack.len() == 0 {
            Ok(done)
        } else {
            Err(ParseError::Malformed)
        }
    }

    /// Parses the single template that `events` holds.
    pub fn from_events(events: &Vec<TagEvent>) -> (r: Result<Template, ParseError>)
        ensures
            match parse_one(event_views(events@)) {
                Ok(t) => r matches Ok(template) && template@ == t,
                Err(e) => r == Err::<Template, ParseError>(e),
            },
    {
        match Template::parse_events(events) {
            Err(e) => Err(e),
            Ok(templates) => {
                let mut templates = templates;
                if templates.len() == 1 {
                    let t = templates.pop().unwrap();
                    Ok(t)
                } else {
                    Err(ParseError::Malformed)
                }
            },
        }
    }

    /// Parses the single template that `text` holds: one root tag with its
    /// attributes and, nested in it, the tags of its children.
    pub fn from_string(text: &str) -> (r: Result<Template, ParseError>)
        ensures
            match parse_text(text@) {
                Ok(t) => r matches Ok(template) && template@ == t,
                Err(e) => r == Err::<Template, ParseError>(e),
            },
    {
        match read_xml_events(text) {
            Ok(events) => Template::from_events(&events),
            Err(_) => Err(ParseError::Malformed),
        }
    }
}

/// A seed carries the tag's name and has no children.
pub proof fn lemma_seed_shape(name: Seq<char>, attributes: Seq<(Seq<char>, Seq<char>)>)
    ensures
        seed(name, attributes).entity_type == name,
        seed(name, attributes).children == Seq::<TemplateView>::empty(),
    decreases attributes.len(),
{
    if attributes.len() > 0 {
        lemma_seed_shape(name, attributes.drop_last());
    }
}

/// Once a prefix of the events fails, every longer prefix fails the same way.
pub proof fn lemma_run_fails(events: Seq<TagEventView>, n: int)
    requires
        0 <= n <= events.len(),
        run(events.take(n)) is Err,
    ensures
        run(events) == run(events.take(n)),
    decreases events.len(),
{
    if n == events.len() {
        assert(events.take(n) =~= events);
    } else {
        assert(events.drop_last().take(n) =~= events.take(n));
        lemma_run_fails(events.drop_last(), n);
    }
}

/// Events can be taken in two parts: the second part goes on from the state
/// that the first part leaves.
pub proof fn lemma_advance_append(state: ParseState, a: Seq<TagEventView>, b: Seq<TagEventView>)
    ensures
        advance(state, a + b) == advance(advance(state, a), b),
    decreases b.len(),
{
    if b.len() == 0 {
        assert(a + b =~= a);
    } else {
        assert((a + b).drop_last() =~= a + b.drop_last());
        assert((a + b).last() == b.last());
        lemma_advance_append(state, a, b.drop_last());
    }
}

/// The attributes that write `t`'s own part: its properties, and after them
/// its parent, if it has one, under `inherits`.
pub open spec fn attributes_of(t: TemplateView) -> Seq<(Seq<char>, Seq<char>)> {
    match t.parent {
        Some(parent) => t.properties.push((inherits_attribute(), parent)),
        None => t.properties,
    }
}

/// The tag stream that writes `t`: its start tag, the streams of its
/// children in order, its end tag.
pub open spec fn events_of(t: TemplateView) -> Seq<TagEventView>
    decreases t, 1int,
{
    seq![TagEventView::Start { name: t.entity_type, attributes: attributes_of(t) }]
        + events_of_all(t.children) + seq![TagEventView::End { name: t.entity_type }]
}

/// The tag streams of `templates`, one after the other.
pub open spec fn events_of_all(templates: Seq<TemplateView>) -> Seq<TagEventView>
    decreases templates, 0int,
{
    if templates.len() == 0 {
        Seq::empty()
    } else {
        events_of_all(templates.drop_last()) + events_of(templates.last())
    }
}

/// A template that a tag stream can carry: no property name occurs twice,
/// none is `inherits`, and the same holds of its children.
pub open spec fn writable(t: TemplateView) -> bool
    decreases t,
{
    &&& unique_keys(t.properties)
    &&& !has_key(t.properties, inherits_attribute())
    &&& forall|i: int| 0 <= i < t.children.len() ==> writable(#[trigger] t.children[i])
}

} // verus!
