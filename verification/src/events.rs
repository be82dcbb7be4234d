//! Tag events: the flat form in which template text reaches the parser.

use vstd::prelude::*;
use crate::properties::Property;
use xml::attribute::OwnedAttribute;
use xml::reader::{EventReader, XmlEvent};

verus! {

/// One event of a tag stream.
#[derive(Debug)]
pub enum TagEvent {
    /// An opening tag, with its attributes in document order.
    Start { name: String, attributes: Vec<Property> },
    /// A closing tag.
    End { name: String },
    /// Anything that is not a tag: text, comments, the document's bounds.
    Other,
}

/// The mathematical form of a `TagEvent`.
pub enum TagEventView {
    Start { name: Seq<char>, attributes: Seq<(Seq<char>, Seq<char>)> },
    End { name: Seq<char> },
    Other,
}

impl View for TagEvent {
    type V = TagEventView;

    open spec fn view(&self) -> TagEventView {
        match *self {
            TagEvent::Start { name, attributes } => TagEventView::Start {
                name: name@,
                attributes: attributes@.map_values(|p: Property| p@),
            },
            TagEvent::End { name } => TagEventView::End { name: name@ },
            TagEvent::Other => TagEventView::Other,
        }
    }
}

impl Clone for TagEvent {
    fn clone(&self) -> (r: TagEvent)
        ensures
            r@ == self@,
    {
        match self {
            TagEvent::Start { name, attributes } => {
                let mut copies: Vec<Property> = Vec::new();
                let mut i: usize = 0;
                while i < attributes.len()
                    invariant
                        i <= attributes.len(),
                        copies@.map_values(|p: Property| p@) == attributes@.map_values(
                            |p: Property| p@,
                        ).take(i as int),
                    decreases attributes.len() - i,
                {
                    let ghost before = copies@.map_values(|p: Property| p@);
                    let copy = Property {
                        name: attributes[i].name.clone(),
                        value: attributes[i].value.clone(),
                    };
                    assert(copy@ == attributes@[i as int]@);
                    copies.push(copy);
                    assert(copies@.map_values(|p: Property| p@) =~= before.push(copy@));
                    assert(copies@.map_values(|p: Property| p@) =~= attributes@.map_values(
                        |p: Property| p@,
                    ).take(i + 1));
                    i = i + 1;
                }
                assert(attributes@.map_values(|p: Property| p@).take(i as int)
                    =~= attributes@.map_values(|p: Property| p@));
                TagEvent::Start { name: name.clone(), attributes: copies }
            },
            TagEvent::End { name } => TagEvent::End { name: name.clone() },
            TagEvent::Other => TagEvent::Other,
        }
    }
}

/// The views of a vector of events, in order.
pub open spec fn event_views(events: Seq<TagEvent>) -> Seq<TagEventView> {
    events.map_values(|e: TagEvent| e@)
}

/// `xml::reader::Error`, the error of the `xml` crate's parser. Nothing is
/// read from it: any such error makes the text malformed.
#[verifier::external_type_specification]
#[verifier::external_body]
pub struct ExXmlError(xml::reader::Error);

/// The events that the `xml` crate's pull parser reads from `text`, each tag
/// under its local name, or `None` where the parser reports an error.
pub uninterp spec fn xml_events(text: Seq<char>) -> Option<Seq<TagEventView>>;

/// Runs `xml::reader::EventReader` over `text` to the end of the document.
/// Trusted: the parser is a function of the text alone, so its events are
/// `xml_events(text@)`; start and end tags come out under their local names
/// with the attributes' local names and values, every other event as `Other`;
/// the first error the parser reports is returned in place of the events.
#[verifier::external_body]
pub(crate) fn read_xml_events(text: &str) -> (r: Result<Vec<TagEvent>, xml::reader::Error>)
    ensures
        r matches Ok(events) ==> xml_events(text@) == Some(event_views(events@)),
        r is Err ==> xml_events(text@) is None,
{
    let mut events = Vec::new();
    for event in EventReader::new(text.as_bytes()) {
        events.push(match event? {
            XmlEvent::StartElement { name, attributes, .. } => {
                let pair = |a: OwnedAttribute| Property { name: a.name.local_name, value: a.value };
                TagEvent::Start {
                    name: name.local_name,
                    attributes: attributes.into_iter().map(pair).collect(),
                }
            },
            XmlEvent::EndElement { name } => TagEvent::End { name: name.local_name },
            _ => TagEvent::Other,
        });
    }
    Ok(events)
}

} // verus!
