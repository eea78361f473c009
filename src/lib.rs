//! Flattening of a glTF 2.0 scene into renderer-ready byte arenas.
//!
//! The document is described by the plain types of [`document`]; the loader
//! reads accessors and buffer views out of resolved buffers, widens indices,
//! walks the default scene and builds the material and image tables.
pub mod document;
pub mod error;
pub mod accessor;
pub mod gltf;
pub mod uri;
pub mod material;
pub mod scene;
pub mod load;
pub mod tbn;
pub mod state;
pub mod laws;
pub mod attributes;

