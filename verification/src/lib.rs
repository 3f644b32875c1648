//! A markup conversion and terminal-rendering engine for journal entries.
//!
//! Entry bodies are stored as markup text.  A tokenizer (an outside
//! collaborator) turns that text into a stream of structural events; the
//! engine renders the stream onto three surfaces: an ANSI-styled terminal
//! view with OSC-8 hyperlinks, a line-oriented outline dialect for durable
//! export, and, in the inverse direction, canonical markup recovered from
//! outline text on import.  A width wrapper post-processes terminal output.

pub mod config;
pub mod events;
pub mod export;
pub mod formatting;
pub mod frontmatter;
pub mod import;
pub mod style;
pub mod text;
pub mod wrap;
