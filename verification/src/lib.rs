//! Editor support for the source of SAP Variant Configuration dependencies:
//! diagnostics, completion, hover and where-used, as plain functions from a
//! document, a syntax tree and what is known of the material to what an editor
//! shows.
//!
//! - [`text`], [`lines`], [`position`]: characters, lines, and positions as
//!   against byte offsets.
//! - [`names`], [`render`]: ordered sets and maps of names; texts for people.
//! - [`material`]: what one material knows.
//! - [`grammar`], [`syntax`]: syntax trees, and where they come from.
//! - [`diagnostic`], [`aliases`], [`semantic`], [`analyze`]: findings on a
//!   document.
//! - [`completion`], [`hover`]: what is offered and shown at a position.
//! - [`refs`], [`references`]: the index of uses, and the answer to "where is
//!   this used?".
//! - [`documents`]: the texts of open documents.
//! - [`analyze_laws`], [`hover_laws`], [`semantic_laws`]: what holds of the
//!   findings and of what is shown, in terms of the document alone.
//!
//! Contracts speak of sequences of characters. A byte offset is one of the
//! UTF-8 encoding.

pub mod aliases;
pub mod analyze;
pub mod analyze_laws;
pub mod completion;
pub mod diagnostic;
pub mod documents;
pub mod grammar;
pub mod hover;
pub mod hover_laws;
pub mod lines;
pub mod material;
pub mod names;
pub mod position;
pub mod references;
pub mod refs;
pub mod render;
pub mod semantic;
pub mod semantic_laws;
pub mod syntax;
pub mod text;
