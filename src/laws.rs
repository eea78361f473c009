//! Properties of the loader that hold for all inputs.
use vstd::prelude::*;
use vstd::arithmetic::div_mod::lemma_fundamental_div_mod;
use vstd::math::min;
use crate::accessor::{
    accessor_read, chunk_count, index_read, strided_copy, strided_fits, view_read, widen_u16,
};
use crate::document::{AccessorType, BufferView, ComponentType, Document};
use crate::document;
use crate::gltf::{MaterialKey, TextureData};
use crate::material::{material_slots, metallic_roughness_factor, slot_data};
use crate::tbn::{TriangleFrame, bitangent_words, tangent_words, words_le};

verus! {

/// The view of an accessor holds all of its elements: its last element ends
/// inside the view (one stride apart, or packed without a stride or with a
/// zero stride).
pub open spec fn view_holds_elements(doc: Document, id: int) -> bool {
    let a = doc.accessors@[id];
    let view = doc.buffer_views@[a.buffer_view->Some_0 as int];
    let unit = match view.byte_stride {
        Some(s) if s > 0 => s as int,
        _ => a.spec_element_size() as int,
    };
    a.count == 0 || view.byte_length >= (a.count - 1) * unit + a.spec_element_size()
}

proof fn lemma_chunk_count_exact(len: int, s: int, c: int)
    requires
        0 < s,
        1 <= c,
        (c - 1) * s < len <= c * s,
    ensures
        chunk_count(len, s) == c,
{
    lemma_fundamental_div_mod(len, s);
    let q = len / s;
    let r = len % s;
    if r == 0 {
        assert(q == c) by (nonlinear_arith)
            requires
                len == s * q,
                (c - 1) * s < len,
                len <= c * s,
                0 < s,
        ;
    } else {
        assert(q == c - 1) by (nonlinear_arith)
            requires
                len == s * q + r,
                0 < r < s,
                (c - 1) * s < len,
                len <= c * s,
                0 < s,
        ;
    }
}

/// An accessor read that succeeds over a view holding all of its elements
/// yields `count * element size` bytes: one element per declared count.
pub proof fn law_accessor_read_length(doc: Document, buffers: Map<usize, Seq<u8>>, id: int)
    requires
        0 <= id < doc.accessors@.len(),
        accessor_read(doc, buffers, id) is Ok,
        view_holds_elements(doc, id),
    ensures
        accessor_read(doc, buffers, id)->Ok_0.len() == doc.accessors@[id].count
            * doc.accessors@[id].spec_element_size(),
{
    let a = doc.accessors@[id];
    let view = doc.buffer_views@[a.buffer_view->Some_0 as int];
    let size = a.spec_element_size() as int;
    let count = a.count as int;
    let length = min(a.spec_byte_length(view), view.byte_length as int);
    assert(1 <= a.component_type.spec_byte_size() && 1 <= a.accessor_type.spec_num_components());
    assert(size >= 1) by (nonlinear_arith)
        requires
            size == a.component_type.spec_byte_size() * a.accessor_type.spec_num_components(),
            1 <= a.component_type.spec_byte_size(),
            1 <= a.accessor_type.spec_num_components(),
    ;
    match view.byte_stride {
        Some(s) if s > 0 => {
            let t = size;
            if count == 0 {
                assert(count * s == 0) by (nonlinear_arith)
                    requires
                        count == 0,
                ;
                assert(chunk_count(0, s as int) == 0);
            } else {
                assert((count - 1) * s < length <= count * s) by (nonlinear_arith)
                    requires
                        length == min(count * s, view.byte_length as int),
                        view.byte_length >= (count - 1) * s + t,
                        t >= 1,
                        count >= 1,
                        s > 0,
                ;
                lemma_chunk_count_exact(length, s as int, count);
            }
        },
        _ => {
            assert(length == count * size) by (nonlinear_arith)
                requires
                    length == min(count * size, view.byte_length as int),
                    count == 0 || view.byte_length >= (count - 1) * size + size,
            ;
        },
    }
}

/// De-interleaving keeps the first `size` bytes of each `stride`-sized
/// chunk, in order, and nothing else.
pub proof fn law_stride_deinterleave(src: Seq<u8>, stride: int, size: int, k: int, j: int)
    requires
        0 < size <= stride,
        strided_fits(src.len() as int, stride, size),
        0 <= k < chunk_count(src.len() as int, stride),
        0 <= j < size,
    ensures
        strided_copy(src, stride, size).len() == chunk_count(src.len() as int, stride) * size,
        strided_copy(src, stride, size)[k * size + j] == src[k * stride + j],
{
    assert(0 <= k * size + j < chunk_count(src.len() as int, stride) * size) by (nonlinear_arith)
        requires
            0 <= k < chunk_count(src.len() as int, stride),
            0 <= j < size,
    ;
    vstd::arithmetic::div_mod::lemma_fundamental_div_mod_converse(k * size + j, size, k, j);
}

/// A read of a view without a stride (or with a zero stride) is the
/// contiguous bytes of its window, unchanged.
pub proof fn law_unstrided_read_verbatim(
    offset: int,
    view: BufferView,
    buffers: Map<usize, Seq<u8>>,
    possible_length: Option<usize>,
    type_size: Option<usize>,
)
    requires
        view.byte_stride is None || view.byte_stride == Some(0usize),
        view_read(offset, view, buffers, possible_length, type_size) is Ok,
    ensures
        ({
            let start = offset + view.byte_offset;
            let length = match possible_length {
                Some(l) => min(l as int, view.byte_length as int),
                None => view.byte_length as int,
            };
            view_read(offset, view, buffers, possible_length, type_size) == Ok::<Seq<u8>, crate::error::Error>(
                buffers[view.buffer].subrange(start, start + length),
            )
        }),
{
}

/// Normalized indices are all 4 bytes wide: the index bytes are four per
/// index, whether the source held 16- or 32-bit indices (the latter as
/// scalars over a view that holds them all).
pub proof fn law_index_width(doc: Document, buffers: Map<usize, Seq<u8>>, id: int)
    requires
        0 <= id < doc.accessors@.len(),
        index_read(doc, buffers, id) is Ok,
        doc.accessors@[id].component_type == ComponentType::UnsignedInt ==> {
            &&& doc.accessors@[id].accessor_type == AccessorType::Scalar
            &&& view_holds_elements(doc, id)
        },
    ensures
        index_read(doc, buffers, id)->Ok_0.0.len() == 4 * index_read(doc, buffers, id)->Ok_0.1,
{
    if doc.accessors@[id].component_type == ComponentType::UnsignedInt {
        law_accessor_read_length(doc, buffers, id);
        assert(doc.accessors@[id].spec_element_size() == 4);
        let bytes = accessor_read(doc, buffers, id)->Ok_0;
        assert(index_read(doc, buffers, id)->Ok_0.0 == bytes);
        assert(index_read(doc, buffers, id)->Ok_0.1 == doc.accessors@[id].count);
        assert(bytes.len() == doc.accessors@[id].count * 4);
    } else {
        let bytes = accessor_read(doc, buffers, id)->Ok_0;
        assert(widen_u16(bytes).len() == bytes.len() / 2 * 4);
        assert(index_read(doc, buffers, id)->Ok_0.1 == bytes.len() / 2);
    }
}

/// A slot without a texture reference samples no image and keeps the
/// factor it was given.
pub proof fn law_absent_texture_slot(doc: Document, n_images: int, factor: [u32; 4])
    ensures
        slot_data(doc, n_images, None, factor) == Some(
            TextureData { image_id: None, factor, tex_coord: 0, sampler: 0 },
        ),
{
}

/// In a resolved material every slot without a texture carries no image and
/// its factor: the material's declared base color, its packed metallic and
/// roughness, and zero for the normal and occlusion slots.
pub proof fn law_absent_material_textures(doc: Document, n_images: int, m: document::Material)
    requires
        material_slots(doc, n_images, m) is Some,
    ensures
        material_slots(doc, n_images, m)->Some_0.len() == 4,
        m.base_color_texture is None ==> material_slots(doc, n_images, m)->Some_0[0] == (
            MaterialKey::BaseColor,
            TextureData { image_id: None, factor: m.base_color_factor, tex_coord: 0, sampler: 0 },
        ),
        m.metallic_roughness_texture is None ==> material_slots(doc, n_images, m)->Some_0[1] == (
            MaterialKey::MetallicRoughness,
            TextureData {
                image_id: None,
                factor: metallic_roughness_factor(m),
                tex_coord: 0,
                sampler: 0,
            },
        ),
        m.normal_texture is None ==> material_slots(doc, n_images, m)->Some_0[2] == (
            MaterialKey::Normal,
            TextureData { image_id: None, factor: [0u32, 0u32, 0u32, 0u32], tex_coord: 0, sampler: 0 },
        ),
        m.occlusion_texture is None ==> material_slots(doc, n_images, m)->Some_0[3] == (
            MaterialKey::Occlusion,
            TextureData { image_id: None, factor: [0u32, 0u32, 0u32, 0u32], tex_coord: 0, sampler: 0 },
        ),
{
}

proof fn lemma_words_le_len(ws: Seq<u32>)
    ensures
        words_le(ws).len() == 4 * ws.len(),
    decreases ws.len(),
{
    if ws.len() > 0 {
        lemma_words_le_len(ws.drop_last());
    }
}

/// Tangent synthesis emits one bitangent of three 32-bit floats per
/// triangle, and (where it emits tangents) one tangent of four: for the
/// frames of a mesh with `index_count` indices, one per triangle, that is
/// 12 and 16 bytes per triangle.
pub proof fn law_frame_sizes(frames: Seq<TriangleFrame>, index_count: int)
    requires
        frames.len() == index_count / 3,
    ensures
        words_le(bitangent_words(frames)).len() == 12 * (index_count / 3),
        words_le(tangent_words(frames)).len() == 16 * (index_count / 3),
        words_le(bitangent_words(frames)).len() == 12 * frames.len(),
        words_le(tangent_words(frames)).len() == 16 * frames.len(),
{
    lemma_words_le_len(bitangent_words(frames));
    lemma_words_le_len(tangent_words(frames));
}

} // verus!
