//! A verified request-interception and index-synthesis layer for a static
//! file server: mount resolution by longest public prefix, percent-encoding
//! of generated links, tolerant directory listings, deterministic HTML index
//! rendering, and redirect repair across a URL-prefix boundary.
//!
//! All path and text handling works on byte sequences (`Vec<u8>`), so the
//! contracts speak of `Seq<u8>` throughout.

pub mod codec;
pub mod listing;
pub mod middleware;
pub mod mount;
pub mod render;
pub mod text;
