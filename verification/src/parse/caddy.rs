//! Caddyfile parser for RouteGraph.
//!
//! Parses Caddy's native configuration format into a [`RouteGraph`].
//!
//! # Supported directives
//!
//! - Site blocks with addresses (listeners/hosts)
//! - `reverse_proxy` — backend upstreams
//! - `handle` / `handle_path` — path-based routing
//! - `rewrite` — URL rewriting (middleware)
//! - `redir` — redirects (middleware)
use vstd::prelude::*;

use crate::error::{ParseError, ParseErrorView};
use crate::model::{lemma_forward_edges_tree_is_finite, tree_is_finite, GraphView, RouteGraph};
use crate::parse::lexer::{lemma_tokenize_lines, tokenize, tokenize_spec};
use crate::parse::routes::{
    build_graph, follows_request_flow, graph_nodes, graph_nodes_capped, graph_of,
    lemma_graph_of_is_rooted_tree, listeners_ok, one_parent,
};
use crate::parse::syntax::{parse_sites, parse_tokens, skip_global, skip_nl};
use crate::text::{chars_of, contains, exec_contains, newline_count, occurs_at, trim, trim_bounds};
use crate::traits::{DetectionConfidence, FormatDetector, Parser};

verus! {

/// What parsing a Caddyfile gives: its routing graph, or the error.
///
/// An unterminated quoted string is a syntax error at the line where the
/// input ends; an unterminated global options block is a syntax error at
/// the line of its opening brace; a configuration whose graph would have
/// `u32::MAX` nodes or more (more than 32-bit node identifiers can number)
/// is refused as unsupported.
pub open spec fn caddy_parse(input: Seq<char>) -> Result<GraphView, ParseErrorView> {
    match tokenize_spec(input) {
        Err(line) => Err(
            ParseErrorView::Syntax { message: "unterminated quoted string"@, line: line as u32 },
        ),
        Ok(t) => match parse_sites(t) {
            Err(line) => Err(
                ParseErrorView::Syntax {
                    message: "unterminated global options block"@,
                    line: line as u32,
                },
            ),
            Ok(sites) => if graph_nodes(sites) < u32::MAX {
                Ok(graph_of(sites))
            } else {
                Err(ParseErrorView::Unsupported("configuration too large"@))
            },
        },
    }
}

/// How confident the Caddyfile detector is about an input.
///
/// After trimming whitespace: nothing left is no match; a known Caddy
/// directive name together with a ` {` line ending is certain; a directive
/// name alone is likely; a ` {` line ending or a leading `{` alone is maybe.
pub open spec fn caddy_detect(input: Seq<char>) -> DetectionConfidence {
    let t = trim(input);
    if t.len() == 0 {
        DetectionConfidence::NotThisFormat
    } else {
        let directives = contains(t, "reverse_proxy"@) || contains(t, "file_server"@) || contains(
            t,
            "handle_path"@,
        ) || contains(t, "encode"@);
        let block = contains(t, " {\n"@) || contains(t, " {\r\n"@);
        let global = t[0] == '{';
        if directives && block {
            DetectionConfidence::Certain
        } else if directives {
            DetectionConfidence::Likely
        } else if block || global {
            DetectionConfidence::Maybe
        } else {
            DetectionConfidence::NotThisFormat
        }
    }
}

/// How detection grades an input, by what its trimmed text contains: one of
/// the Caddy directive names `reverse_proxy`, `file_server`, `handle_path`,
/// `encode` together with a line ending in ` {` is certain; such a name
/// alone is likely; a line ending in ` {` or a leading `{` alone is maybe;
/// anything else, blank input included, is no match.
pub proof fn lemma_detect_levels(input: Seq<char>)
    ensures
        ({
            let t = trim(input);
            let named = contains(t, "reverse_proxy"@) || contains(t, "file_server"@) || contains(
                t,
                "handle_path"@,
            ) || contains(t, "encode"@);
            let block = contains(t, " {\n"@) || contains(t, " {\r\n"@);
            let global = t.len() > 0 && t[0] == '{';
            &&& named && block ==> caddy_detect(input) == DetectionConfidence::Certain
            &&& named && !block ==> caddy_detect(input) == DetectionConfidence::Likely
            &&& !named && (block || global) ==> caddy_detect(input) == DetectionConfidence::Maybe
            &&& !named && !block && !global ==> caddy_detect(input)
                == DetectionConfidence::NotThisFormat
        }),
{
    let t = trim(input);
    if t.len() == 0 {
        assert forall|p: Seq<char>, i: int| p.len() > 0 implies !occurs_at(t, p, i) by {}
        assert(!contains(t, "reverse_proxy"@)) by {
            reveal_strlit("reverse_proxy");
        }
        assert(!contains(t, "file_server"@)) by {
            reveal_strlit("file_server");
        }
        assert(!contains(t, "handle_path"@)) by {
            reveal_strlit("handle_path");
        }
        assert(!contains(t, "encode"@)) by {
            reveal_strlit("encode");
        }
        assert(!contains(t, " {\n"@)) by {
            reveal_strlit(" {\n");
        }
        assert(!contains(t, " {\r\n"@)) by {
            reveal_strlit(" {\r\n");
        }
    }
}

/// Every graph that the Caddyfile parser produces passes validation, has one
/// edge fewer than nodes, has as its root node 0, the `Client` labelled
/// `Client` and the only `Client`, is a tree below it (every other node has
/// exactly one edge entering it, and every edge goes from an earlier node to a
/// later one, so no cycle is reachable from the root). Each of
/// its listeners carries a protocol, and a listener on port 443 is HTTPS with
/// automatic TLS. Every edge follows the request flow `Client → Listener →
/// Host → PathMatch → [Middleware]* → Backend`: the client leads to the
/// listeners and only it does, hosts sit below listeners, and nothing follows
/// a backend.
pub proof fn lemma_parsed_graph_is_valid(input: Seq<char>)
    ensures
        caddy_parse(input) matches Ok(g) ==> {
            &&& g.problems() == Seq::<Seq<char>>::empty()
            &&& g.edges.len() + 1 == g.nodes.len()
            &&& g.root() == Some(0u32)
            &&& g.nodes[0].kind == crate::model::NodeKind::Client
            &&& g.nodes[0].label == "Client"@
            &&& tree_is_finite(g)
            &&& listeners_ok(g)
            &&& follows_request_flow(g)
            &&& one_parent(g)
            &&& forall|e: int| 0 <= e < g.edges.len() ==> (#[trigger] g.edges[e]).source < g.edges[e].target
            &&& forall|i: int| 0 < i < g.nodes.len() ==> (#[trigger] g.nodes[i]).kind != crate::model::NodeKind::Client
        },
{
    match tokenize_spec(input) {
        Ok(t) => match parse_sites(t) {
            Ok(sites) => if graph_nodes(sites) < u32::MAX {
                lemma_graph_of_is_rooted_tree(sites);
                lemma_forward_edges_tree_is_finite(graph_of(sites));
            },
            Err(_) => {},
        },
        Err(_) => {},
    }
}

/// Parsing fails only on syntax, or on a graph too large for 32-bit node
/// identifiers: a quoted string left open fails on the input's last line; a
/// global options block (a `{` before anything but newlines) left open fails
/// on the line of its brace; any other input (unclosed site or handle blocks,
/// stray `}`, unknown directives included) gives its graph, unless that graph
/// would have `u32::MAX` nodes or more.
pub proof fn lemma_parse_outcomes(input: Seq<char>)
    ensures
        match tokenize_spec(input) {
            Err(_) => caddy_parse(input) == Err::<GraphView, ParseErrorView>(
                ParseErrorView::Syntax {
                    message: "unterminated quoted string"@,
                    line: (1 + newline_count(input)) as u32,
                },
            ),
            Ok(t) => {
                let p0 = skip_nl(t, 0);
                if 0 <= p0 < t.len() && t[p0].kind is Open && skip_global(t, p0 + 1, 1) is None {
                    caddy_parse(input) == Err::<GraphView, ParseErrorView>(
                        ParseErrorView::Syntax {
                            message: "unterminated global options block"@,
                            line: t[p0].line as u32,
                        },
                    )
                } else {
                    parse_sites(t) matches Ok(sites) && if graph_nodes(sites) < u32::MAX {
                        caddy_parse(input) == Ok::<GraphView, ParseErrorView>(graph_of(sites))
                    } else {
                        caddy_parse(input) == Err::<GraphView, ParseErrorView>(
                            ParseErrorView::Unsupported("configuration too large"@),
                        )
                    }
                }
            },
        },
{
    lemma_tokenize_lines(input);
}

/// Parser for Caddyfile configuration format.
pub struct CaddyParser;

impl CaddyParser {
    /// Creates a new Caddyfile parser.
    pub fn new() -> (r: Self) {
        CaddyParser
    }
}

impl Default for CaddyParser {
    fn default() -> (r: Self) {
        Self::new()
    }
}

impl Parser for CaddyParser {
    fn format_name(&self) -> (r: &str)
        ensures
            r@ == "caddy"@,
    {
        "caddy"
    }

    fn parse(&self, input: &str) -> (r: Result<RouteGraph, ParseError>)
        ensures
            match caddy_parse(input@) {
                Ok(g) => r matches Ok(rg) && rg@ == g,
                Err(e) => r matches Err(re) && re@ == e,
            },
    {
        let chars = chars_of(input);
        let tokens = match tokenize(&chars) {
            Ok(t) => t,
            Err(e) => {
                return Err(e);
            },
        };
        let ast = match parse_tokens(&tokens) {
            Ok(a) => a,
            Err(e) => {
                return Err(e);
            },
        };
        if graph_nodes_capped(&ast) >= 0xFFFF_FFFFu64 {
            return Err(ParseError::unsupported("configuration too large"));
        }
        Ok(build_graph(&ast))
    }
}

impl FormatDetector for CaddyParser {
    fn detect(&self, input: &str) -> (r: DetectionConfidence)
        ensures
            r == caddy_detect(input@),
    {
        let chars = chars_of(input);
        let (a, b) = trim_bounds(&chars, 0, chars.len());
        assert(chars@.subrange(0, chars@.len() as int) =~= chars@);
        if a == b {
            return DetectionConfidence::NotThisFormat;
        }
        let has_caddy_directives = exec_contains(&chars, a, b, &chars_of("reverse_proxy"))
            || exec_contains(&chars, a, b, &chars_of("file_server")) || exec_contains(
            &chars,
            a,
            b,
            &chars_of("handle_path"),
        ) || exec_contains(&chars, a, b, &chars_of("encode"));
        let has_block_pattern = exec_contains(&chars, a, b, &chars_of(" {\n")) || exec_contains(
            &chars,
            a,
            b,
            &chars_of(" {\r\n"),
        );
        let starts_with_global = chars[a] == '{';
        assert(chars@.subrange(a as int, b as int)[0] == chars@[a as int]);
        if has_caddy_directives && has_block_pattern {
            return DetectionConfidence::Certain;
        }
        if has_caddy_directives {
            return DetectionConfidence::Likely;
        }
        if has_block_pattern || starts_with_global {
            return DetectionConfidence::Maybe;
        }
        DetectionConfidence::NotThisFormat
    }
}

} // verus!
