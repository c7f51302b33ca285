//! Traits for extending RouteGraph with parsers and renderers.
use vstd::prelude::*;

use crate::error::ParseError;
use crate::model::RouteGraph;
use crate::text::newline_count;

verus! {

/// Confidence level for auto-detection of config format, from lowest to highest.
#[derive(Debug, Clone, Copy, PartialEq, Eq, Structural, PartialOrd, Ord)]
#[non_exhaustive]
pub enum DetectionConfidence {
    /// Definitely not this format.
    NotThisFormat,
    /// Might be this format but not sure.
    Maybe,
    /// Likely this format.
    Likely,
    /// Certain this is the format.
    Certain,
}

/// A parser that reads a proxy configuration format and produces a [`RouteGraph`].
pub trait Parser {
    /// Returns the name of the format this parser handles (e.g. `"caddy"`).
    fn format_name(&self) -> &str;

    /// Parses a configuration string into a routing graph.
    ///
    /// Inputs are limited to fewer than `u32::MAX` newlines, so that line
    /// numbers fit in a `u32`.
    fn parse(&self, input: &str) -> (r: Result<RouteGraph, ParseError>)
        requires
            newline_count(input@) < u32::MAX,
        ensures
            r matches Ok(g) ==> g.wf(),
    ;
}

/// Auto-detection of configuration format.
///
/// Implementors provide a heuristic for recognizing whether a given
/// input looks like their format.
pub trait FormatDetector {
    /// Returns a confidence level for whether `input` is this format.
    fn detect(&self, input: &str) -> DetectionConfidence;
}

/// A renderer that produces a visual representation of a [`RouteGraph`].
///
/// Renderers always succeed (no error type). If the graph may be invalid,
/// call [`RouteGraph::validate`] before rendering.
pub trait Renderer {
    /// Returns the name of the output format (e.g. `"dot"`, `"mermaid"`).
    fn format_name(&self) -> &str;

    /// Renders the graph to a string.
    fn render(&self, graph: &RouteGraph) -> String;
}

} // verus!
