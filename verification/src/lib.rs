//! Conflict resolution for Tailwind CSS class lists.
pub mod text;
pub mod variants;
pub mod ast;
pub mod collision;
pub mod merge;
pub mod laws;

pub use ast::AstStyle;
pub use collision::Collision;
pub use merge::{merge_resolved, tw_merge_override, ResolvedStyle};
pub use variants::sort_variants_for_collision;
