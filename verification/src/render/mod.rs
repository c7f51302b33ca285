//! Output renderers for routing graphs.

mod dot;
mod mermaid;

pub use dot::{dot_edge_line, dot_escape, dot_node_line, dot_text, DotRenderer};
pub use mermaid::{mermaid_edge_line, mermaid_escape, mermaid_node_line, mermaid_text, MermaidRenderer};
