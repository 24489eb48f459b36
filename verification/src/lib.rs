//! A chunked asset-upload and serving layer.
//!
//! Clients create an upload batch, send ordered content chunks, and commit the
//! batch: the chunks are assembled, hashed and published as an asset under a
//! unique path. Readers resolve a URL (with alias expansion for extensionless
//! paths), pass an optional access token, and receive an HTTP-style response;
//! content with more than one chunk is served through a stateless streaming
//! continuation token.

pub mod hash;
pub mod http;
pub mod laws;
pub mod model;
pub mod runtime;
pub mod state;
pub mod store;
pub mod text;
pub mod types;
pub mod url;
