//! A compression cache for static assets.
//!
//! A client that accepts a compression coding is served a stored compressed
//! copy of the asset once one exists. Until then it is served the asset as it
//! is, while one background job per asset and coding produces the copy.

pub mod algorithm;
pub mod text;
pub mod encoder;
pub mod record;
pub mod cache;
pub mod digits;
pub mod weight;
pub mod negotiation;
pub mod paths;
pub mod response;
pub mod compression;

pub use crate::algorithm::Algorithm;
pub use crate::compression::CachedCompression;
