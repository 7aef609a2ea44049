//! A verified core for a plain-text Zettelkasten: note identifiers derived
//! from timestamp-prefixed filenames, a structured frontmatter block that
//! round-trips to and from its on-disk form, link and tag mutation with
//! explicit error signaling, and the cross-note consistency rules
//! (bidirectional links, cascade removal of dangling links).

pub mod config;
pub mod directory;
pub mod error;
pub mod handler;
pub mod matter;
pub mod new;
pub mod note;
pub mod note_id;
pub mod path_ext;
pub mod prompt;
pub mod search;
pub mod search_item;
pub mod text;
