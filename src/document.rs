//! The parts of a glTF document that the loader reads, as plain values.
//!
//! Floating-point data of the document (node transforms, material factors)
//! is carried as IEEE-754 bit patterns: the loader places these values but
//! never computes with them.
use vstd::prelude::*;
use vstd::math::min;

verus! {

/// The numeric type of one component of an accessor element.
#[derive(Debug, Clone, Copy, PartialEq, Eq)]
pub enum ComponentType {
    UnsignedByte,
    Byte,
    UnsignedShort,
    Short,
    UnsignedInt,
    Float,
}

impl ComponentType {
    pub open spec fn spec_byte_size(self) -> nat {
        match self {
            ComponentType::UnsignedByte | ComponentType::Byte => 1,
            ComponentType::UnsignedShort | ComponentType::Short => 2,
            ComponentType::UnsignedInt | ComponentType::Float => 4,
        }
    }

    /// Size in bytes of one component.
    pub fn byte_size(&self) -> (r: usize)
        ensures
            r == self.spec_byte_size(),
    {
        match self {
            ComponentType::UnsignedByte | ComponentType::Byte => 1,
            ComponentType::UnsignedShort | ComponentType::Short => 2,
            ComponentType::UnsignedInt | ComponentType::Float => 4,
        }
    }
}

/// The shape of one accessor element.
#[derive(Debug, Clone, Copy, PartialEq, Eq)]
pub enum AccessorType {
    Scalar,
    Vec2,
    Vec3,
    Vec4,
    Mat2,
    Mat3,
    Mat4,
}

impl AccessorType {
    pub open spec fn spec_num_components(self) -> nat {
        match self {
            AccessorType::Scalar => 1,
            AccessorType::Vec2 => 2,
            AccessorType::Vec3 => 3,
            AccessorType::Vec4 | AccessorType::Mat2 => 4,
            AccessorType::Mat3 => 9,
            AccessorType::Mat4 => 16,
        }
    }

    /// Number of components in one element.
    pub fn num_components(&self) -> (r: usize)
        ensures
            r == self.spec_num_components(),
    {
        match self {
            AccessorType::Scalar => 1,
            AccessorType::Vec2 => 2,
            AccessorType::Vec3 => 3,
            AccessorType::Vec4 | AccessorType::Mat2 => 4,
            AccessorType::Mat3 => 9,
            AccessorType::Mat4 => 16,
        }
    }
}

/// How to read typed elements out of a buffer view.
#[derive(Debug, Clone)]
pub struct Accessor {
    pub buffer_view: Option<usize>,
    pub component_type: ComponentType,
    pub count: usize,
    pub accessor_type: AccessorType,
    pub byte_offset: usize,
    pub normalized: bool,
}

impl Accessor {
    /// Bytes taken by one element, stride excluded.
    pub open spec fn spec_element_size(self) -> nat {
        self.component_type.spec_byte_size() * self.accessor_type.spec_num_components()
    }

    /// The byte length the accessor declares over a view: one stride (or,
    /// without one or with a zero stride, one element) per element.
    pub open spec fn spec_byte_length(self, view: BufferView) -> int {
        match view.byte_stride {
            Some(s) if s > 0 => self.count * s,
            _ => self.count * self.spec_element_size(),
        }
    }

    pub fn element_size(&self) -> (r: usize)
        ensures
            r == self.spec_element_size(),
    {
        let c = self.component_type.byte_size();
        let n = self.accessor_type.num_components();
        assert(c * n <= 64) by (nonlinear_arith)
            requires
                c <= 4,
                n <= 16,
        ;
        c * n
    }

    /// The smaller of the accessor's declared byte length over `view` and the
    /// view's own length.
    pub fn effective_length(&self, view: &BufferView) -> (r: usize)
        ensures
            r as int == min(self.spec_byte_length(*view), view.byte_length as int),
    {
        let unit = match view.byte_stride {
            Some(s) if s > 0 => s,
            _ => self.element_size(),
        };
        match self.count.checked_mul(unit) {
            Some(declared) => {
                if declared < view.byte_length {
                    declared
                } else {
                    view.byte_length
                }
            },
            None => view.byte_length,
        }
    }
}

/// A window into one buffer.
#[derive(Debug, Clone)]
pub struct BufferView {
    pub buffer: usize,
    pub byte_length: usize,
    pub byte_offset: usize,
    pub byte_stride: Option<usize>,
}

/// A binary buffer of the document.
#[derive(Debug, Clone)]
pub struct Buffer {
    pub uri: Option<String>,
    /// The buffer is only the uncompressed fallback of a meshopt-compressed one.
    pub meshopt_fallback: bool,
}

/// How the vertices of a primitive are assembled.
#[derive(Debug, Clone, Copy, PartialEq, Eq)]
pub enum PrimitiveMode {
    Points,
    Lines,
    LineLoop,
    LineStrip,
    Triangles,
    TriangleStrip,
    TriangleFan,
}

/// The attribute accessors of a primitive that the loader reads.
#[derive(Debug, Clone)]
pub struct Attributes {
    pub position: Option<usize>,
    pub normal: Option<usize>,
    pub tangent: Option<usize>,
    pub texcoord_0: Option<usize>,
}

#[derive(Debug, Clone)]
pub struct Primitive {
    pub attributes: Attributes,
    pub indices: Option<usize>,
    pub material: Option<usize>,
    pub mode: PrimitiveMode,
}

#[derive(Debug, Clone)]
pub struct Mesh {
    pub primitives: Vec<Primitive>,
}

/// A node of the hierarchy. Its local transform stays with the caller, which
/// holds it by node id.
#[derive(Debug, Clone)]
pub struct Node {
    pub name: Option<String>,
    pub mesh: Option<usize>,
    pub children: Vec<usize>,
}

#[derive(Debug, Clone)]
pub struct Scene {
    pub nodes: Vec<usize>,
}

/// A material's reference to a texture.
#[derive(Debug, Clone, Copy)]
pub struct TextureInfo {
    pub index: usize,
    pub tex_coord: usize,
}

/// Factors are IEEE-754 bit patterns of 32-bit floats.
#[derive(Debug, Clone)]
pub struct Material {
    pub base_color_texture: Option<TextureInfo>,
    pub base_color_factor: [u32; 4],
    pub metallic_roughness_texture: Option<TextureInfo>,
    pub metallic_factor: u32,
    pub roughness_factor: u32,
    pub normal_texture: Option<TextureInfo>,
    pub occlusion_texture: Option<TextureInfo>,
}

#[derive(Debug, Clone, Copy)]
pub struct Texture {
    pub sampler: Option<usize>,
    pub source: Option<usize>,
}

#[derive(Debug, Clone)]
pub struct Image {
    pub uri: Option<String>,
    pub buffer_view: Option<usize>,
    pub mime_type: Option<String>,
}

/// Filtering and wrapping, by their glTF enumeration codes.
#[derive(Debug, Clone, Copy, PartialEq, Eq)]
pub struct Sampler {
    pub mag_filter: Option<u32>,
    pub min_filter: Option<u32>,
    pub wrap_s: u32,
    pub wrap_t: u32,
}

/// The document, as far as the loader reads it.
#[derive(Debug, Clone)]
pub struct Document {
    pub scenes: Vec<Scene>,
    pub nodes: Vec<Node>,
    pub meshes: Vec<Mesh>,
    pub accessors: Vec<Accessor>,
    pub buffer_views: Vec<BufferView>,
    pub buffers: Vec<Buffer>,
    pub materials: Vec<Material>,
    pub textures: Vec<Texture>,
    pub images: Vec<Image>,
    pub samplers: Vec<Sampler>,
}

} // verus!
