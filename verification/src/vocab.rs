//! The word library as one module: weeks, notes and the word graph.
pub use crate::graph::{Graph, Node};
pub use crate::note::{is_note_extension, parse_links, parse_one, parse_tags, split_frontmatter, Parsed};
pub use crate::week::{parse_weeks, Week};
