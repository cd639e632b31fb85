//! Structural substring search over a parsed syntax tree.
//!
//! The library works on an arena representation of a syntax tree: nodes
//! carry a kind tag, a byte span into the source buffer, and parent/child
//! links stored as indices.  Given a query, it finds every leaf whose span
//! text contains the query as a contiguous byte substring, walks the chain
//! of enclosing named scopes, extracts the narrowest enclosing source block
//! for the match, and assembles one report line per match.

pub mod tree;
pub mod text;
pub mod search;
pub mod report;
