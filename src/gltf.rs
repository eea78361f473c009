//! What a load produces: byte arenas, the flattened scene graph, and the
//! material, image and sampler tables.
use vstd::prelude::*;
use std::ops::Range;
use crate::document::{ComponentType, PrimitiveMode, Sampler};
use crate::error::Error;

verus! {

/// Byte arenas. Each only grows by appending; ranges handed out index into them.
/// `texcoord` holds one arena per texture-coordinate set; set 0 is always there.
#[derive(Debug, Clone)]
pub struct GLTFBuffer {
    pub positions: Vec<u8>,
    pub tangent: Vec<u8>,
    pub normal: Vec<u8>,
    pub texcoord: Vec<Vec<u8>>,
    pub index: Vec<u8>,
    pub shared_data: Vec<u8>,
    pub bi_tangent: Vec<u8>,
}

impl GLTFBuffer {
    /// Arenas that are all empty.
    pub fn new() -> (r: GLTFBuffer)
        ensures
            r.positions@.len() == 0,
            r.tangent@.len() == 0,
            r.normal@.len() == 0,
            r.texcoord@.len() == 1,
            r.texcoord@[0]@.len() == 0,
            r.index@.len() == 0,
            r.shared_data@.len() == 0,
            r.bi_tangent@.len() == 0,
    {
        GLTFBuffer {
            positions: Vec::new(),
            tangent: Vec::new(),
            normal: Vec::new(),
            texcoord: vec![Vec::new()],
            index: Vec::new(),
            shared_data: Vec::new(),
            bi_tangent: Vec::new(),
        }
    }
}

/// The index data of a mesh: a range of the index arena, the number of
/// indices in it, and the byte width of each.
#[derive(Debug)]
pub struct Index {
    pub indices: Range<usize>,
    pub count: usize,
    pub type_size: usize,
}

/// The index widths a document may use.
#[derive(Debug, Clone, Copy, PartialEq, Eq)]
pub enum IndexType {
    U16,
    U32,
}

impl IndexType {
    /// The index width of a component type; only 16- and 32-bit unsigned
    /// integers are index types.
    pub fn try_from(value: ComponentType) -> (r: Result<IndexType, Error>)
        ensures
            r == match value {
                ComponentType::UnsignedShort => Ok(IndexType::U16),
                ComponentType::UnsignedInt => Ok(IndexType::U32),
                _ => Err::<IndexType, Error>(Error::UnsupportedIndexType),
            },
    {
        match value {
            ComponentType::UnsignedShort => Ok(IndexType::U16),
            ComponentType::UnsignedInt => Ok(IndexType::U32),
            _ => Err(Error::UnsupportedIndexType),
        }
    }
}

/// One primitive of a document mesh, flattened into arena ranges.
#[derive(Debug)]
pub struct Mesh {
    pub id: usize,
    pub index: Index,
    pub vertex_count: usize,
    pub vertex_type_size: usize,
    pub positions: Range<usize>,
    pub normals: Option<Range<usize>>,
    pub tangents: Option<Range<usize>>,
    pub bi_tangents: Option<Range<usize>>,
    pub uv0: Option<Range<usize>>,
    pub mode: PrimitiveMode,
    pub mat: Option<usize>,
}

/// A node of the default scene. Its world transform is the product, in
/// order, of the local transforms of the nodes in `transform_chain`: the
/// root of its tree first, the node itself last.
#[derive(Debug)]
pub struct Node {
    pub id: usize,
    pub name: Option<String>,
    pub meshes: Vec<Mesh>,
    pub transform_chain: Vec<usize>,
    pub children: Vec<usize>,
}

/// The slot of a material that a texture fills.
#[derive(Debug, Clone, PartialEq, Eq, Hash, PartialOrd, Ord)]
pub enum MaterialKey {
    BaseColor,
    MetallicRoughness,
    Normal,
    Emissive,
    Occlusion,
    Other(String),
}

/// A material slot: the image it samples, if any, a factor of four 32-bit
/// floats (as bit patterns), the texture-coordinate set and the sampler.
#[derive(Debug, Clone, Copy, PartialEq, Eq)]
pub struct TextureData {
    pub image_id: Option<usize>,
    pub factor: [u32; 4],
    pub tex_coord: usize,
    pub sampler: usize,
}

/// Slots of a material, in the order BaseColor, MetallicRoughness, Normal,
/// Occlusion, each key once (see `material::material_slots`).
pub type Material = Vec<(MaterialKey, TextureData)>;

/// How an image's pixels are to be interpreted once decoded.
#[derive(Debug, Clone, Copy, PartialEq, Eq)]
pub enum TargetFormat {
    /// Color data, gamma-encoded.
    Rgba8UnormSrgb,
    /// Linear, non-color data.
    Rgba8Unorm,
}

/// An image's encoded bytes, as a range of the shared arena.
#[derive(Debug)]
pub struct ImageData {
    pub range: Range<usize>,
    pub mime: String,
    pub target_format: TargetFormat,
}

#[derive(Debug)]
pub struct SceneView {
    pub nodes: Vec<Node>,
    pub materials: Vec<Material>,
    pub images: Vec<ImageData>,
    pub samplers: Vec<Sampler>,
}

/// What a load does beyond flattening.
#[derive(Debug, Clone, Copy, PartialEq, Eq)]
pub struct LoadOption {
    /// Synthesize tangents and bitangents for meshes with texture coordinates.
    pub gen_tbn: bool,
}

} // verus!
