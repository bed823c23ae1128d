//! An embeddable authorization decision engine.
//!
//! Rules pair an action pattern (segments separated by `:`) with a resource
//! pattern (segments separated by `/`). Each segment pattern is a literal or a
//! glob that matches exactly one segment. An access control model holds allow
//! rules and deny rules in two segment tries and grants a request when some
//! allow rule matches it and no deny rule does. Roles of policies compile into
//! such models, and a decision cache keeps one compiled model per principal.

pub mod acm;
pub mod compiler;
pub mod decision;
pub mod error;
pub mod glob;
pub mod interface;
pub mod laws;
pub mod loader;
pub mod order;
pub mod pattern;
pub mod resource_name;
pub mod role;
mod text;
pub mod trie;
