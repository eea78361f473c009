use base::accessor::{get_raw_data_via_buffer_view, new_buffer_map_with_embedded, insert_external_buffers, read_indices, read_u32, PrimitiveBufferReader};
use base::document::{
    Accessor, AccessorType, Attributes, Buffer, BufferView, ComponentType, Document, Image,
    Material, Mesh, Node, Primitive, PrimitiveMode, Sampler, Scene, Texture, TextureInfo,
};
use base::attributes::{read_f32x2, read_f32x3};
use base::error::Error;
use base::gltf::{GLTFBuffer, IndexType, LoadOption, MaterialKey, TargetFormat, TextureData};
use base::load::{load_document, load_scene, resolve_buffers};
use base::state::{downcast_mut, StateDynObj};
use base::tbn::{tbn_targets, TriangleFrame};
use base::uri::{external_file_names, read_uri_data};

fn empty_doc() -> Document {
    Document {
        scenes: vec![Scene { nodes: vec![] }],
        nodes: vec![],
        meshes: vec![],
        accessors: vec![],
        buffer_views: vec![],
        buffers: vec![],
        materials: vec![],
        textures: vec![],
        images: vec![],
        samplers: vec![],
    }
}

fn floats(values: &[f32]) -> Vec<u8> {
    values.iter().flat_map(|v| v.to_le_bytes()).collect()
}

fn view(buffer: usize, byte_offset: usize, byte_length: usize, byte_stride: Option<usize>) -> BufferView {
    BufferView { buffer, byte_length, byte_offset, byte_stride }
}

fn accessor(view: Option<usize>, ct: ComponentType, at: AccessorType, count: usize) -> Accessor {
    Accessor { buffer_view: view, component_type: ct, count, accessor_type: at, byte_offset: 0, normalized: false }
}

fn primitive(indices: Option<usize>, position: Option<usize>) -> Primitive {
    Primitive {
        attributes: Attributes { position, normal: None, tangent: None, texcoord_0: None },
        indices,
        material: None,
        mode: PrimitiveMode::Triangles,
    }
}

fn node(mesh: Option<usize>, children: Vec<usize>) -> Node {
    Node { name: None, mesh, children }
}

/// One triangle: three positions, then three 16-bit indices, in one buffer.
fn triangle_doc() -> (Document, Vec<u8>) {
    let mut bin = floats(&[0.0, 0.0, 0.0, 1.0, 0.0, 0.0, 0.0, 1.0, 0.0]);
    bin.extend_from_slice(&[0, 0, 1, 0, 2, 0]);
    let mut doc = empty_doc();
    doc.scenes = vec![Scene { nodes: vec![0] }];
    doc.nodes = vec![node(Some(0), vec![])];
    doc.meshes = vec![Mesh { primitives: vec![primitive(Some(1), Some(0))] }];
    doc.buffer_views = vec![view(0, 0, 36, None), view(0, 36, 6, None)];
    doc.accessors = vec![
        accessor(Some(0), ComponentType::Float, AccessorType::Vec3, 3),
        accessor(Some(1), ComponentType::UnsignedShort, AccessorType::Scalar, 3),
    ];
    (doc, bin)
}

fn material(base: Option<TextureInfo>, normal: Option<TextureInfo>) -> Material {
    Material {
        base_color_texture: base,
        base_color_factor: [1.0f32.to_bits(), 0.5f32.to_bits(), 0.25f32.to_bits(), 1.0f32.to_bits()],
        metallic_roughness_texture: None,
        metallic_factor: 0.75f32.to_bits(),
        roughness_factor: 0.5f32.to_bits(),
        normal_texture: normal,
        occlusion_texture: None,
    }
}

#[test]
fn single_triangle_positions_and_widened_indices() {
    let (doc, bin) = triangle_doc();
    let (view, out) = load_document(&doc, Some(bin.clone()), &vec![]).unwrap();
    assert_eq!(out.positions, bin[0..36].to_vec());
    assert_eq!(out.index, vec![0, 0, 0, 0, 1, 0, 0, 0, 2, 0, 0, 0]);
    assert_eq!(view.nodes.len(), 1);
    let mesh = &view.nodes[0].meshes[0];
    assert_eq!(mesh.positions, 0..36);
    assert_eq!(mesh.vertex_count, 3);
    assert_eq!(mesh.vertex_type_size, 12);
    assert_eq!(mesh.index.indices, 0..12);
    assert_eq!(mesh.index.count, 3);
    assert_eq!(mesh.index.type_size, 4);
    assert_eq!(mesh.index.indices.len(), mesh.index.count * 4);
    assert_eq!(mesh.mode, PrimitiveMode::Triangles);
    assert_eq!(mesh.normals, None);
    assert_eq!(mesh.bi_tangents, None);
}

#[test]
fn invalid_base64_image_fails_whole_load() {
    let (mut doc, bin) = triangle_doc();
    doc.images = vec![Image { uri: Some("data:image/png;base64,!!not base64!!".to_string()), buffer_view: None, mime_type: None }];
    let r = load_document(&doc, Some(bin), &vec![]);
    assert_eq!(r.err(), Some(Error::Base64DecodeFailed));
}

#[test]
fn node_chain_composes_translations() {
    let mut doc = empty_doc();
    doc.scenes = vec![Scene { nodes: vec![0] }];
    doc.nodes = vec![node(None, vec![1]), node(None, vec![2]), node(None, vec![])];
    let (view, _) = load_document(&doc, None, &vec![]).unwrap();
    let b = view.nodes.iter().find(|n| n.id == 2).unwrap();
    assert_eq!(b.transform_chain, vec![0, 1, 2]);
    let locals = [
        glam::Mat4::IDENTITY,
        glam::Mat4::from_translation(glam::Vec3::new(0.0, 1.0, 0.0)),
        glam::Mat4::from_translation(glam::Vec3::new(1.0, 0.0, 0.0)),
    ];
    let world = b.transform_chain.iter().fold(glam::Mat4::IDENTITY, |acc, id| acc * locals[*id]);
    let moved = world.transform_point3(glam::Vec3::ZERO);
    assert_eq!(moved, glam::Vec3::new(1.0, 1.0, 0.0));
    assert_eq!(view.nodes.len(), 3);
    assert_eq!(view.nodes[2].id, 0);
    assert_eq!(view.nodes[2].children, vec![1]);
}

#[test]
fn accessor_read_count_and_length() {
    let (doc, bin) = triangle_doc();
    let map = new_buffer_map_with_embedded(Some(bin));
    let reader = PrimitiveBufferReader::new(&doc, &map);
    let mut out = vec![9u8];
    let (range, count, size) = reader.get_raw_buffer(0, &mut out).unwrap();
    assert_eq!(count, 3);
    assert_eq!(size, 12);
    assert_eq!(range, 1..37);
    assert_eq!(range.len(), count * size);
}

#[test]
fn strided_read_keeps_element_bytes_only() {
    let data: Vec<u8> = (0u8..40).collect();
    let map = new_buffer_map_with_embedded(Some(data.clone()));
    let mut out = Vec::new();
    let v = view(0, 0, 32, Some(20));
    let r = get_raw_data_via_buffer_view(0, &v, &map, Some(40), Some(12), &mut out).unwrap();
    assert_eq!(r, 0..24);
    let mut expect: Vec<u8> = (0u8..12).collect();
    expect.extend(20u8..32);
    assert_eq!(out, expect);
}

#[test]
fn unstrided_read_is_verbatim() {
    let data: Vec<u8> = (0u8..40).collect();
    let map = new_buffer_map_with_embedded(Some(data));
    let mut out = Vec::new();
    let r = get_raw_data_via_buffer_view(2, &view(0, 3, 10, None), &map, None, None, &mut out).unwrap();
    assert_eq!(r, 0..10);
    assert_eq!(out, (5u8..15).collect::<Vec<u8>>());
    let mut zero = Vec::new();
    get_raw_data_via_buffer_view(0, &view(0, 0, 6, Some(0)), &map, None, Some(4), &mut zero).unwrap();
    assert_eq!(zero, (0u8..6).collect::<Vec<u8>>());
}

#[test]
fn strided_read_without_element_size_fails() {
    let map = new_buffer_map_with_embedded(Some(vec![0u8; 16]));
    let mut out = Vec::new();
    let r = get_raw_data_via_buffer_view(0, &view(0, 0, 16, Some(8)), &map, None, None, &mut out);
    assert_eq!(r, Err(Error::FailedGetBuffer));
    assert!(out.is_empty());
}

#[test]
fn read_past_buffer_fails() {
    let map = new_buffer_map_with_embedded(Some(vec![0u8; 8]));
    let mut out = Vec::new();
    let r = get_raw_data_via_buffer_view(0, &view(0, 4, 8, None), &map, None, None, &mut out);
    assert_eq!(r, Err(Error::FailedToGetU8Data));
}

#[test]
fn u32_indices_copied_unchanged() {
    let mut doc = empty_doc();
    doc.buffer_views = vec![view(0, 0, 8, None)];
    doc.accessors = vec![accessor(Some(0), ComponentType::UnsignedInt, AccessorType::Scalar, 2)];
    let map = new_buffer_map_with_embedded(Some(vec![7, 0, 0, 0, 0, 1, 0, 0]));
    let reader = PrimitiveBufferReader::new(&doc, &map);
    let mut out = Vec::new();
    let index = read_indices(&reader, 0, &mut out).unwrap();
    assert_eq!(out, vec![7, 0, 0, 0, 0, 1, 0, 0]);
    assert_eq!(index.count, 2);
    assert_eq!(index.type_size, 4);
    assert_eq!(index.indices.len(), index.count * 4);
}

#[test]
fn float_indices_are_unsupported() {
    let mut doc = empty_doc();
    doc.buffer_views = vec![view(0, 0, 4, None)];
    doc.accessors = vec![accessor(Some(0), ComponentType::Float, AccessorType::Scalar, 1)];
    let map = new_buffer_map_with_embedded(Some(vec![0; 4]));
    let reader = PrimitiveBufferReader::new(&doc, &map);
    let mut out = Vec::new();
    assert!(matches!(read_indices(&reader, 0, &mut out), Err(Error::UnsupportedIndexType)));
    assert_eq!(IndexType::try_from(ComponentType::UnsignedShort), Ok(IndexType::U16));
    assert_eq!(IndexType::try_from(ComponentType::Byte), Err(Error::UnsupportedIndexType));
}

#[test]
fn missing_scene_fails() {
    let mut doc = empty_doc();
    doc.scenes = vec![];
    assert_eq!(load_document(&doc, None, &vec![]).err(), Some(Error::DefaultSceneNotFound));
}

#[test]
fn primitive_without_indices_or_positions_fails() {
    let (mut doc, bin) = triangle_doc();
    doc.meshes[0].primitives[0].indices = None;
    assert_eq!(load_document(&doc, Some(bin.clone()), &vec![]).err(), Some(Error::NoIndexFound { mesh_id: 0 }));
    let (mut doc, bin) = triangle_doc();
    doc.meshes[0].primitives[0].attributes.position = None;
    assert_eq!(load_document(&doc, Some(bin), &vec![]).err(), Some(Error::NoPositionFound { mesh_id: 0 }));
}

#[test]
fn accessor_without_view_fails() {
    let (mut doc, bin) = triangle_doc();
    doc.accessors[0].buffer_view = None;
    assert_eq!(load_document(&doc, Some(bin), &vec![]).err(), Some(Error::FailedGetBuffer));
}

#[test]
fn dangling_node_and_cycle_fail() {
    let mut doc = empty_doc();
    doc.scenes = vec![Scene { nodes: vec![5] }];
    assert_eq!(load_document(&doc, None, &vec![]).err(), Some(Error::MissingReference));
    let mut doc = empty_doc();
    doc.scenes = vec![Scene { nodes: vec![0] }];
    doc.nodes = vec![node(None, vec![0])];
    assert_eq!(load_document(&doc, None, &vec![]).err(), Some(Error::NodeCycle));
}

#[test]
fn optional_attribute_failure_is_omitted() {
    let (mut doc, bin) = triangle_doc();
    doc.accessors.push(accessor(None, ComponentType::Float, AccessorType::Vec3, 3));
    doc.meshes[0].primitives[0].attributes.normal = Some(2);
    doc.meshes[0].primitives[0].attributes.texcoord_0 = Some(7);
    let (view, out) = load_document(&doc, Some(bin), &vec![]).unwrap();
    assert_eq!(view.nodes[0].meshes[0].normals, None);
    assert_eq!(view.nodes[0].meshes[0].uv0, None);
    assert!(out.normal.is_empty());
}

#[test]
fn data_uri_and_file_uris_resolve() {
    assert_eq!(read_uri_data("data:application/octet-stream;base64,AQID", &vec![]), Ok(vec![1, 2, 3]));
    assert_eq!(read_uri_data("data:application/octet-stream;base64", &vec![]), Err(Error::Base64MIMENotFound));
    let files = vec![("my file.bin".to_string(), vec![4, 5])];
    assert_eq!(read_uri_data("my%20file.bin", &files), Ok(vec![4, 5]));
    assert_eq!(
        read_uri_data("other.bin", &files),
        Err(Error::FileReadFailed { path: "other.bin".to_string() })
    );
    assert_eq!(read_uri_data("bad%FF.bin", &files), Err(Error::UTF8Err));
}

#[test]
fn buffers_resolve_by_index() {
    let mut doc = empty_doc();
    doc.buffers = vec![
        Buffer { uri: None, meshopt_fallback: false },
        Buffer { uri: Some("b.bin".to_string()), meshopt_fallback: false },
        Buffer { uri: Some("missing.bin".to_string()), meshopt_fallback: true },
    ];
    let files = vec![("b.bin".to_string(), vec![1, 2])];
    let map = resolve_buffers(&doc, Some(vec![9]), &files).unwrap();
    assert_eq!(map.get(&0), Some(&vec![9]));
    assert_eq!(map.get(&1), Some(&vec![1, 2]));
    assert_eq!(map.get(&2), None);
    let mut m = new_buffer_map_with_embedded(None);
    insert_external_buffers(vec![None, Some(vec![3])], &mut m);
    assert_eq!(m.len(), 1);
    assert_eq!(m.get(&1), Some(&vec![3]));
}

#[test]
fn materials_and_images() {
    let (mut doc, bin) = triangle_doc();
    let mut shared = bin.clone();
    shared.extend_from_slice(&[0xAA, 0xBB]);
    doc.buffer_views.push(view(0, 42, 2, None));
    doc.images = vec![
        Image { uri: None, buffer_view: Some(2), mime_type: Some("image/jpeg".to_string()) },
        Image { uri: Some("data:image/png;base64,AQID".to_string()), buffer_view: None, mime_type: None },
    ];
    doc.textures = vec![Texture { sampler: Some(0), source: Some(0) }, Texture { sampler: None, source: Some(1) }];
    doc.samplers = vec![Sampler { mag_filter: Some(9729), min_filter: None, wrap_s: 10497, wrap_t: 33071 }];
    doc.materials = vec![
        material(None, Some(TextureInfo { index: 1, tex_coord: 0 })),
        material(Some(TextureInfo { index: 0, tex_coord: 1 }), None),
    ];
    let (view, out) = load_document(&doc, Some(shared), &vec![]).unwrap();
    assert_eq!(out.shared_data, vec![0xAA, 0xBB, 1, 2, 3]);
    assert_eq!(view.images[0].range, 0..2);
    assert_eq!(view.images[0].mime, "image/jpeg");
    assert_eq!(view.images[0].target_format, TargetFormat::Rgba8UnormSrgb);
    assert_eq!(view.images[1].range, 2..5);
    assert_eq!(view.images[1].mime, "image/png");
    assert_eq!(view.images[1].target_format, TargetFormat::Rgba8Unorm);
    let m0 = &view.materials[0];
    assert_eq!(m0.len(), 4);
    assert_eq!(m0[0].0, MaterialKey::BaseColor);
    assert_eq!(m0[0].1, TextureData { image_id: None, factor: doc.materials[0].base_color_factor, tex_coord: 0, sampler: 0 });
    assert_eq!(m0[1].0, MaterialKey::MetallicRoughness);
    assert_eq!(m0[1].1.factor, [0, 0.5f32.to_bits(), 0.75f32.to_bits(), 0]);
    assert_eq!(m0[2].0, MaterialKey::Normal);
    assert_eq!(m0[2].1, TextureData { image_id: Some(1), factor: [0; 4], tex_coord: 0, sampler: 0 });
    assert_eq!(m0[3].0, MaterialKey::Occlusion);
    assert_eq!(m0[3].1, TextureData { image_id: None, factor: [0; 4], tex_coord: 0, sampler: 0 });
    let m1 = &view.materials[1];
    assert_eq!(m1.len(), 4);
    assert_eq!(m1[2], (MaterialKey::Normal, TextureData { image_id: None, factor: [0; 4], tex_coord: 0, sampler: 0 }));
    assert_eq!(m1[0].1, TextureData { image_id: Some(0), factor: doc.materials[1].base_color_factor, tex_coord: 1, sampler: 0 });
    assert_eq!(view.samplers, doc.samplers);
}

#[test]
fn ktx_normal_map_keeps_its_format() {
    let mut doc = empty_doc();
    doc.images = vec![Image { uri: Some("data:x,AQID".to_string()), buffer_view: None, mime_type: Some("ktx".to_string()) }];
    doc.textures = vec![Texture { sampler: None, source: Some(0) }];
    doc.materials = vec![material(None, Some(TextureInfo { index: 0, tex_coord: 0 }))];
    let (view, _) = load_document(&doc, None, &vec![]).unwrap();
    assert_eq!(view.images[0].target_format, TargetFormat::Rgba8UnormSrgb);
}

#[test]
fn ktx2_normal_map_keeps_its_format() {
    let mut doc = empty_doc();
    doc.images = vec![Image { uri: Some("data:x,AQID".to_string()), buffer_view: None, mime_type: Some("image/ktx2".to_string()) }];
    doc.textures = vec![Texture { sampler: None, source: Some(0) }];
    doc.materials = vec![material(None, Some(TextureInfo { index: 0, tex_coord: 0 }))];
    let (view, _) = load_document(&doc, None, &vec![]).unwrap();
    assert_eq!(view.images[0].target_format, TargetFormat::Rgba8UnormSrgb);
}

#[test]
fn dangling_texture_fails() {
    let mut doc = empty_doc();
    doc.materials = vec![material(Some(TextureInfo { index: 3, tex_coord: 0 }), None)];
    assert_eq!(load_document(&doc, None, &vec![]).err(), Some(Error::MissingReference));
}

#[test]
fn image_without_source_fails() {
    let mut doc = empty_doc();
    doc.images = vec![Image { uri: None, buffer_view: None, mime_type: None }];
    assert_eq!(load_document(&doc, None, &vec![]).err(), Some(Error::FailedGetBuffer));
}

#[test]
fn supplied_tangents_get_only_bitangents() {
    let (mut doc, bin) = triangle_doc();
    let mut data = bin.clone();
    data.extend(floats(&[0.0, 0.0, 1.0, 0.0, 0.0, 1.0]));
    data.extend(floats(&[1.0, 0.0, 0.0, 1.0, 1.0, 0.0, 0.0, 1.0, 1.0, 0.0, 0.0, 1.0]));
    doc.buffer_views.push(view(0, 42, 24, None));
    doc.buffer_views.push(view(0, 66, 48, None));
    doc.accessors.push(accessor(Some(2), ComponentType::Float, AccessorType::Vec2, 3));
    doc.accessors.push(accessor(Some(3), ComponentType::Float, AccessorType::Vec4, 3));
    doc.meshes[0].primitives[0].attributes.texcoord_0 = Some(2);
    doc.meshes[0].primitives[0].attributes.tangent = Some(3);
    let (mut view, mut out) = load_document(&doc, Some(data), &vec![]).unwrap();
    let targets = tbn_targets(&view, LoadOption { gen_tbn: true });
    assert_eq!(targets, vec![(0, 0)]);
    assert_eq!(tbn_targets(&view, LoadOption { gen_tbn: false }), vec![]);
    let mesh = &mut view.nodes[0].meshes[0];
    let triangles = mesh.triangles(&out).unwrap();
    assert_eq!(triangles, vec![[0, 1, 2]]);
    let tangents_before = out.tangent.clone();
    let range_before = mesh.tangents.clone();
    let frame = TriangleFrame { tangent: [1, 2, 3, 4], bitangent: [5, 6, 7] };
    mesh.gen_tbn(&mut out, &vec![frame]);
    assert_eq!(out.tangent, tangents_before);
    assert_eq!(mesh.tangents, range_before);
    assert_eq!(mesh.bi_tangents, Some(0..12));
    assert_eq!(out.bi_tangent, vec![5, 0, 0, 0, 6, 0, 0, 0, 7, 0, 0, 0]);
}

#[test]
fn missing_tangents_are_synthesized() {
    let (mut doc, bin) = triangle_doc();
    let mut data = bin.clone();
    data.extend(floats(&[0.0, 0.0, 1.0, 0.0, 0.0, 1.0]));
    doc.buffer_views.push(view(0, 42, 24, None));
    doc.accessors.push(accessor(Some(2), ComponentType::Float, AccessorType::Vec2, 3));
    doc.meshes[0].primitives[0].attributes.texcoord_0 = Some(2);
    let (mut view, mut out) = load_document(&doc, Some(data), &vec![]).unwrap();
    out.tangent = vec![1];
    let mesh = &mut view.nodes[0].meshes[0];
    let two = vec![TriangleFrame { tangent: [256, 0, 0, 1], bitangent: [0, 0, 0] }; 2];
    mesh.gen_tbn(&mut out, &two);
    assert_eq!(mesh.tangents, None);
    assert_eq!(mesh.bi_tangents, None);
    assert_eq!(out.tangent, vec![1]);
    let one = vec![TriangleFrame { tangent: [256, 0, 0, 1], bitangent: [0, 0, 0] }];
    mesh.gen_tbn(&mut out, &one);
    assert_eq!(mesh.tangents, Some(1..17));
    assert_eq!(&out.tangent[1..5], &[0, 1, 0, 0]);
    assert_eq!(mesh.bi_tangents, Some(0..12));
}

#[test]
fn mesh_without_texture_coordinates_is_skipped() {
    let (doc, bin) = triangle_doc();
    let (mut view, mut out) = load_document(&doc, Some(bin), &vec![]).unwrap();
    let mesh = &mut view.nodes[0].meshes[0];
    assert!(mesh.triangles(&out).is_none());
    mesh.gen_tbn(&mut out, &vec![TriangleFrame { tangent: [0; 4], bitangent: [0; 3] }]);
    assert_eq!(mesh.bi_tangents, None);
    assert!(out.bi_tangent.is_empty());
}

#[test]
fn file_named_data_is_read_as_a_file() {
    let files = vec![("data.bin".to_string(), vec![7, 8])];
    assert_eq!(read_uri_data("data.bin", &files), Ok(vec![7, 8]));
}

#[test]
fn node_reached_twice_is_rejected() {
    let mut doc = empty_doc();
    doc.scenes = vec![Scene { nodes: vec![0, 1] }];
    doc.nodes = vec![node(None, vec![2]), node(None, vec![2]), node(None, vec![])];
    assert_eq!(load_document(&doc, None, &vec![]).err(), Some(Error::NodeShared));
}

#[test]
fn zero_stride_accessor_reads_packed_elements() {
    let (mut doc, bin) = triangle_doc();
    doc.buffer_views[0].byte_stride = Some(0);
    let (view, out) = load_document(&doc, Some(bin.clone()), &vec![]).unwrap();
    assert_eq!(out.positions, bin[0..36].to_vec());
    assert_eq!(view.nodes[0].meshes[0].positions, 0..36);
}

#[test]
fn failed_primitive_leaves_arenas() {
    let (mut doc, bin) = triangle_doc();
    doc.meshes[0].primitives.push(primitive(Some(1), None));
    assert_eq!(load_document(&doc, Some(bin), &vec![]).err(), Some(Error::NoPositionFound { mesh_id: 0 }));
}

#[test]
fn load_scene_uses_given_buffers() {
    let (doc, bin) = triangle_doc();
    let map = new_buffer_map_with_embedded(Some(bin));
    let (view, out) = load_scene(&doc, &map, &vec![]).unwrap();
    assert_eq!(view.nodes[0].transform_chain, vec![0]);
    assert_eq!(out.texcoord.len(), 1);
}

struct Counter(u32);

#[test]
fn erased_state_downcasts_to_its_type() {
    let mut state = StateDynObj::new(Counter(3));
    assert!(downcast_mut::<u32>(&mut state).is_none());
    let c = downcast_mut::<Counter>(&mut state).unwrap();
    c.0 += 1;
    assert_eq!(downcast_mut::<Counter>(&mut state).unwrap().0, 4);
}

#[test]
fn read_u32_widens_short_and_copies_int() {
    let shorts = accessor(Some(0), ComponentType::UnsignedShort, AccessorType::Scalar, 2);
    assert_eq!(read_u32(&[1, 0, 0, 1], None, &shorts), Some(vec![1, 256]));
    assert_eq!(read_u32(&[1, 0, 0], None, &shorts), None);
    assert_eq!(read_u32(&[1, 0, 0, 1], Some(2), &shorts), None);
    let ints = accessor(Some(0), ComponentType::UnsignedInt, AccessorType::Scalar, 1);
    assert_eq!(read_u32(&[1, 2, 3, 4], None, &ints), Some(vec![0x04030201]));
    let mut normalized = ints.clone();
    normalized.normalized = true;
    assert_eq!(read_u32(&[1, 2, 3, 4], None, &normalized), None);
    let floats = accessor(Some(0), ComponentType::Float, AccessorType::Scalar, 1);
    assert_eq!(read_u32(&[0, 0, 0, 0], None, &floats), None);
}

#[test]
fn float_vectors_read_as_bit_patterns() {
    let acc3 = accessor(None, ComponentType::Float, AccessorType::Vec3, 2);
    let data = floats(&[1.0, 2.0, 3.0, 4.0, 5.0, 6.0]);
    let packed = read_f32x3(&data, None, &acc3).unwrap();
    assert_eq!(packed, vec![[1.0f32, 2.0, 3.0].map(f32::to_bits), [4.0f32, 5.0, 6.0].map(f32::to_bits)]);
    let strided = floats(&[1.0, 2.0, 3.0, 9.0, 4.0, 5.0, 6.0]);
    let r = read_f32x3(&strided, Some(16), &acc3).unwrap();
    assert_eq!(r, packed);
    assert_eq!(read_f32x3(&data, Some(8), &acc3), None);
    let mut normalized = acc3.clone();
    normalized.normalized = true;
    assert_eq!(read_f32x3(&data, None, &normalized), None);
    let acc2 = accessor(None, ComponentType::Float, AccessorType::Vec2, 3);
    assert_eq!(read_f32x2(&data, None, &acc2).unwrap().len(), 3);
    assert_eq!(read_f32x2(&data[..7], None, &acc2), Some(vec![]));
    assert_eq!(read_f32x2(&data[..8], None, &acc2), Some(vec![[1.0f32, 2.0].map(f32::to_bits)]));
    let shorts = accessor(None, ComponentType::UnsignedShort, AccessorType::Vec2, 1);
    assert_eq!(read_f32x2(&[0, 0, 0, 0], Some(8), &shorts), None);
}

#[test]
fn external_files_are_listed_decoded() {
    let mut doc = empty_doc();
    doc.buffers = vec![
        Buffer { uri: Some("my%20mesh.bin".to_string()), meshopt_fallback: false },
        Buffer { uri: Some("skipped.bin".to_string()), meshopt_fallback: true },
        Buffer { uri: Some("data:application/octet-stream;base64,AQID".to_string()), meshopt_fallback: false },
    ];
    doc.images = vec![Image { uri: Some("tex.png".to_string()), buffer_view: None, mime_type: None }];
    assert_eq!(external_file_names(&doc), Ok(vec!["my mesh.bin".to_string(), "tex.png".to_string()]));
    doc.images.push(Image { uri: Some("bad%FF.png".to_string()), buffer_view: None, mime_type: None });
    assert_eq!(external_file_names(&doc), Err(Error::UTF8Err));
}
