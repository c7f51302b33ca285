//! Parsers for proxy configuration formats.

pub mod caddy;
pub mod lexer;
pub mod routes;
pub mod syntax;

pub use caddy::CaddyParser;
