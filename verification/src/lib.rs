//! Templates for a document of typed entities: named bundles of default
//! property values that inherit from one another and are stamped onto the
//! entities whose type carries their name.

pub mod document;
pub mod events;
pub mod laws;
pub mod properties;
pub mod registry;
pub mod resolver;
pub mod subsystem;
pub mod template;
pub mod text;

pub use crate::document::{Document, DocumentError, EntityId};
pub use crate::properties::{Properties, Property};
pub use crate::registry::Registry;
pub use crate::resolver::ApplyError;
pub use crate::subsystem::{Declaration, LoadError, LoadReport, TemplateFile, TemplateSubSystem};
pub use crate::template::{ParseError, Template};
