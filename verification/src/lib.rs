//! Turns a vault of interlinked notes into portable markdown: embeds are
//! expanded in place, wikilinks become relative links, frontmatter is kept or
//! dropped by strategy, and postprocessors may reshape each note on the way.

pub mod context;
pub mod events;
pub mod expander;
pub mod exporter;
pub mod frontmatter;
pub mod mapper;
pub mod nesting;
pub mod paths;
pub mod postprocessors;
pub mod reference;
pub mod scanner;
pub mod text;
pub mod vault;

pub use crate::context::{Context, FileTree};
pub use crate::events::{Alignment, CodeBlockKind, Event, LinkType, MarkdownEvents, Tag};
pub use crate::exporter::{ExportError, ExportedNote, Exporter, NoteOutcome};
pub use crate::frontmatter::{FrontmatterStrategy, ParseError};
pub use crate::mapper::{Layout, PathMapper};
pub use crate::postprocessors::{ExportOptions, Postprocessor, PostprocessorResult};
pub use crate::vault::{Note, Vault};
