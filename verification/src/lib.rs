//! A static-site page loader: parses content files into typed page records,
//! resolves internal hyperlinks into a bidirectional backlink graph, and
//! returns the pages in a deterministic, name-sorted order.
pub mod extract;
pub mod graph;
pub mod outside;
pub mod page;
pub mod text;

pub use extract::is_link_target;
pub use page::LoadError;
pub use page::Page;
pub use page::SourceFile;
pub use text::is_internal_link;
pub use text::lex_lt;
