//! A small text-span engine for locating and rewriting one pinned value
//! inside a larger configuration document, together with the deployment
//! helpers built on top of it.

pub mod deployments;
pub mod github;
pub mod nix;
pub mod route;
pub mod text;

pub use text::Span;
pub use text::SpanError;
