//! Common imports for working with the routing graph.
pub use crate::builder::RouteGraphBuilder;
pub use crate::error::ParseError;
pub use crate::model::{
    Edge, EdgeCondition, Metadata, Node, NodeId, NodeKind, Protocol, RouteGraph, TlsConfig,
    ValidationError,
};
pub use crate::parse::CaddyParser;
pub use crate::render::{DotRenderer, MermaidRenderer};
pub use crate::traits::{DetectionConfidence, FormatDetector, Parser, Renderer};
