//! A verified core for an OpenSCAD language server.

pub mod addresses;
pub mod analysis;
pub mod analysis_laws;
pub mod arguments;
pub mod checks;
pub mod completion;
pub mod completion_laws;
pub mod context_laws;
pub mod cursor;
pub mod diagnostic;
pub mod document_laws;
pub mod edit_laws;
pub mod environment;
pub mod gather;
pub mod gather_laws;
pub mod index_laws;
pub mod indexing;
pub mod kinds;
pub mod lists;
pub mod locations;
pub mod navigation;
pub mod navigation_laws;
pub mod parse_code;
pub mod position;
pub mod references;
pub mod rename;
pub mod rename_laws;
pub mod resolve;
pub mod response_item;
pub mod roots;
pub mod scan;
pub mod scope_laws;
pub mod search_laws;
pub mod server;
pub mod sorting;
pub mod store;
pub mod store_laws;
pub mod symbols;
pub mod syntax;
pub mod table;
pub mod text;
pub mod unused;
pub mod unused_laws;
pub mod upkeep_laws;
pub mod walk_laws;
pub mod workspace_index;

pub use position::{Position, Range};
pub use kinds::{Field, NodeKind};
pub use syntax::{RawNode, SyntaxNode, SyntaxTree};
