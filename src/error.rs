use vstd::prelude::*;

verus! {

/// Every way a load can fail. The first failure ends the load.
#[derive(Debug, Clone, PartialEq, Eq)]
pub enum Error {
    /// The document text or container could not be parsed.
    JsonDeSerFailed { message: String },
    /// The document lists no scene.
    DefaultSceneNotFound,
    /// A `data:` URI has no comma between its header and its payload.
    Base64MIMENotFound,
    /// The payload of a `data:` URI is not valid base64.
    Base64DecodeFailed,
    /// An external file named by a URI could not be read.
    FileReadFailed { path: String },
    /// An index accessor whose component type is neither 16- nor 32-bit unsigned.
    UnsupportedIndexType,
    /// An accessor, buffer view or buffer that a read needs is absent.
    FailedGetBuffer,
    /// A primitive of this mesh has no position attribute.
    NoPositionFound { mesh_id: usize },
    /// A primitive of this mesh has no index accessor.
    NoIndexFound { mesh_id: usize },
    /// A percent-encoded URI does not decode to UTF-8.
    UTF8Err,
    /// A byte range lies outside its buffer, or a strided element does not fit its chunk.
    FailedToGetU8Data,
    /// A node, mesh, texture, image or sampler index points past the end of its table.
    MissingReference,
    /// The node hierarchy is deeper than it has nodes: it holds a cycle.
    NodeCycle,
    /// A node is reached from two parents, or is also a root: the hierarchy
    /// is not a forest.
    NodeShared,
}

} // verus!
