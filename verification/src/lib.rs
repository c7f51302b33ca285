//! RouteGraph — visualize reverse proxy routing configurations as directed graphs.
//!
//! Configurations are parsed into a [`RouteGraph`] (nodes for the client,
//! listeners, hosts, path matchers, middleware and backends; edges for the
//! routing steps), which renderers turn into Graphviz DOT or Mermaid text.

pub mod builder;
pub mod cli;
pub mod error;
pub mod model;
pub mod parse;
pub mod prelude;
pub mod render;
pub mod text;
pub mod traits;

pub use builder::RouteGraphBuilder;
pub use error::{ParseError, SourceLocation};
pub use model::{
    Edge, EdgeCondition, Metadata, Node, NodeId, NodeKind, Protocol, RouteGraph, TlsConfig,
    ValidationError,
};
pub use traits::{DetectionConfidence, FormatDetector, Parser, Renderer};
