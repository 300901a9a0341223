//! A compiler and styling engine for declarative UI-markup documents.
//!
//! A document is compiled into an element tree plus a stylesheet; styling is
//! recomputed on demand by matching CSS selectors against the live tree and
//! cascading matched declarations into per-node computed styles, and a
//! compiled document round-trips through a versioned binary form.

mod text;
pub mod tree;
pub mod element;
pub mod selector;
pub mod style;
pub mod css;
pub mod document;
pub mod diag;
pub mod markup;
pub mod sourcemap;
pub mod compiler;
pub mod style_src;
pub mod codec;
