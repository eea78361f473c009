//! The whole load: resolve the buffers, walk the default scene, extract the
//! images, resolve the materials and copy the samplers.
use vstd::prelude::*;
use crate::accessor::{
    BufferMap, PrimitiveBufferReader, buffer_bytes, insert_external_buffers,
    new_buffer_map_with_embedded,
};
use crate::document::{Document, Sampler};
use crate::error::Error;
use crate::gltf::{GLTFBuffer, ImageData, Material, Node, SceneView};
use crate::material::{
    ImageLoader, image_failed, image_ok, image_recorded, images_after_materials, images_laid_out,
    material_slots,
};
use crate::scene::{
    arena, children_bytes, children_ids, node_ids, walk_ids, walk_bytes,
    chain_below, chain_linked, children_error, children_recorded, insert_node, lemma_found_union,
    lemma_found_widen, node_ok,
};
use crate::uri::{ResourceFiles, buffer_ok, buffer_skipped, load_model_buffers, uri_resolved};

verus! {

/// Every buffer that is read resolves.
pub open spec fn buffers_resolve(doc: Document, files: Seq<(String, Vec<u8>)>) -> bool {
    forall|i: int|
        0 <= i < doc.buffers@.len() ==> buffer_skipped(#[trigger] doc.buffers@[i]) || buffer_ok(
            doc.buffers@[i],
            files,
        ) is Some
}

/// The buffers of the document by index: each buffer that is read, and the
/// embedded chunk as buffer 0 unless a buffer with a URI takes its place.
pub open spec fn resolved_buffers(
    doc: Document,
    files: Seq<(String, Vec<u8>)>,
    embedded: Option<Seq<u8>>,
) -> Map<usize, Seq<u8>> {
    Map::new(
        |k: usize|
            (k < doc.buffers@.len() && !buffer_skipped(doc.buffers@[k as int])) || (k == 0
                && embedded is Some),
        |k: usize|
            if k < doc.buffers@.len() && !buffer_skipped(doc.buffers@[k as int]) {
                buffer_ok(doc.buffers@[k as int], files)->Some_0
            } else {
                embedded->Some_0
            },
    )
}

/// Every image of the document can be extracted.
pub open spec fn images_resolve(doc: Document, buffers: Map<usize, Seq<u8>>, files: Seq<(String, Vec<u8>)>) -> bool {
    forall|i: int|
        0 <= i < doc.images@.len() ==> image_ok(doc, files, buffers, #[trigger] doc.images@[i]) is Some
}

/// Every material of the document resolves.
pub open spec fn materials_resolve(doc: Document) -> bool {
    forall|i: int|
        0 <= i < doc.materials@.len() ==> material_slots(
            doc,
            doc.images@.len() as int,
            #[trigger] doc.materials@[i],
        ) is Some
}

/// The first failure of walking the default scene's nodes, in order.
pub open spec fn roots_error(doc: Document, buffers: Map<usize, Seq<u8>>) -> Option<Error> {
    children_error(doc, buffers, doc.scenes@[0].nodes@, 0, doc.nodes@.len() as nat)
}

/// The ids a successful walk of the default scene records, in order.
pub open spec fn roots_ids(doc: Document) -> Seq<usize> {
    children_ids(doc, doc.scenes@[0].nodes@, 0, doc.nodes@.len() as nat)
}

/// The bytes a successful walk of the default scene adds to arena `sel`.
pub open spec fn roots_bytes(doc: Document, buffers: Map<usize, Seq<u8>>, sel: int) -> Seq<u8> {
    children_bytes(doc, buffers, doc.scenes@[0].nodes@, 0, doc.nodes@.len() as nat, sel)
}

/// The load of the default scene succeeds: it exists, every node below it
/// reads and is reached once, and every image and material resolves.
pub open spec fn scene_loads(doc: Document, buffers: Map<usize, Seq<u8>>, files: Seq<(String, Vec<u8>)>) -> bool {
    &&& doc.scenes@.len() > 0
    &&& roots_error(doc, buffers) is None
    &&& roots_ids(doc).no_duplicates()
    &&& images_resolve(doc, buffers, files)
    &&& materials_resolve(doc)
}

/// `imgs` are the images of the document laid out, in order, in `arena`.
pub open spec fn images_extracted(
    doc: Document,
    buffers: Map<usize, Seq<u8>>,
    files: Seq<(String, Vec<u8>)>,
    imgs: Seq<ImageData>,
    arena: Seq<u8>,
) -> bool {
    &&& imgs.len() == doc.images@.len()
    &&& images_laid_out(imgs, Seq::empty(), arena)
    &&& forall|i: int|
        0 <= i < imgs.len() ==> image_recorded(
            #[trigger] imgs[i],
            doc.images@[i],
            image_ok(doc, files, buffers, doc.images@[i])->Some_0,
            arena,
        )
}

/// Each of the first `k` roots is recorded in `nodes` as a node whose chain
/// is itself alone.
pub open spec fn roots_recorded(roots: Seq<usize>, k: int, nodes: Seq<Node>) -> bool {
    forall|j: int|
        #![trigger roots[j]]
        0 <= j < k ==> exists|i: int|
            0 <= i < nodes.len() && (#[trigger] nodes[i]).id == roots[j]
                && nodes[i].transform_chain@ == seq![roots[j]]
}

/// `view` and `out` are the flattened default scene of the document.
pub open spec fn scene_flattened(
    doc: Document,
    buffers: Map<usize, Seq<u8>>,
    files: Seq<(String, Vec<u8>)>,
    view: SceneView,
    out: GLTFBuffer,
) -> bool {
    let roots = doc.scenes@[0].nodes@;
    &&& forall|i: int|
        0 <= i < view.nodes@.len() ==> node_ok(doc, buffers, #[trigger] view.nodes@[i], out)
            && chain_linked(doc, view.nodes@[i].transform_chain@) && roots.contains(
            view.nodes@[i].transform_chain@[0],
        )
    &&& roots_recorded(roots, roots.len() as int, view.nodes@)
    &&& node_ids(view.nodes@) == roots_ids(doc)
    &&& node_ids(view.nodes@).no_duplicates()
    &&& forall|sel: int| 0 <= sel < 5 ==> #[trigger] arena(out, sel) == roots_bytes(doc, buffers, sel)
    &&& children_recorded(view.nodes@, 0, view.nodes@.len() as int)
    &&& exists|imgs: Seq<ImageData>|
        images_extracted(doc, buffers, files, imgs, out.shared_data@) && view.images@
            == images_after_materials(doc, imgs, doc.materials@.len() as int)
    &&& view.materials@.len() == doc.materials@.len()
    &&& forall|i: int|
        0 <= i < view.materials@.len() ==> Some((#[trigger] view.materials@[i])@) == material_slots(
            doc,
            doc.images@.len() as int,
            doc.materials@[i],
        )
    &&& view.samplers@ == doc.samplers@
    &&& out.texcoord@.len() == 1
    &&& out.bi_tangent@.len() == 0
}

/// Whether two of `nodes` share an id.
fn has_duplicate_ids(nodes: &Vec<Node>) -> (r: bool)
    ensures
        r == !node_ids(nodes@).no_duplicates(),
{
    let ghost ids = node_ids(nodes@);
    let mut i: usize = 0;
    while i < nodes.len()
        invariant
            ids == node_ids(nodes@),
            0 <= i <= nodes@.len(),
            forall|a: int, b: int| 0 <= a < i && a < b < ids.len() ==> #[trigger] ids[a] != #[trigger] ids[b],
        decreases nodes@.len() - i,
    {
        let mut j: usize = i + 1;
        while j < nodes.len()
            invariant
                ids == node_ids(nodes@),
                0 <= i < nodes@.len(),
                i + 1 <= j <= nodes@.len(),
                forall|a: int, b: int| 0 <= a < i && a < b < ids.len() ==> #[trigger] ids[a] != #[trigger] ids[b],
                forall|b: int| i < b < j ==> ids[i as int] != #[trigger] ids[b],
            decreases nodes@.len() - j,
        {
            if nodes[i].id == nodes[j].id {
                assert(ids[i as int] == ids[j as int]);
                return true;
            }
            j = j + 1;
        }
        i = i + 1;
    }
    assert forall|a: int, b: int| 0 <= a < ids.len() && 0 <= b < ids.len() && a != b implies ids[a] != ids[b] by {
        if a < b {
            assert(ids[a] != ids[b]);
        } else {
            assert(ids[b] != ids[a]);
        }
    }
    false
}

/// Resolves the buffers of the document: the embedded chunk as buffer 0, and
/// every buffer that has a URI and is not a compression fallback.
pub fn resolve_buffers(gltf_info: &Document, embedded: Option<Vec<u8>>, files: &ResourceFiles) -> (r:
    Result<BufferMap, Error>)
    ensures
        r is Ok <==> buffers_resolve(*gltf_info, files@),
        r matches Err(e) ==> exists|i: int|
            0 <= i < gltf_info.buffers@.len() && !buffer_skipped(#[trigger] gltf_info.buffers@[i])
                && uri_resolved(Err(e), gltf_info.buffers@[i].uri->Some_0@, files@) && forall|j: int|
                0 <= j < i ==> buffer_skipped(#[trigger] gltf_info.buffers@[j]) || buffer_ok(
                    gltf_info.buffers@[j],
                    files@,
                ) is Some,
        r matches Ok(m) ==> buffer_bytes(m) == resolved_buffers(
            *gltf_info,
            files@,
            match embedded {
                Some(v) => Some(v@),
                None => None,
            },
        ),
{
    let ghost emb = embedded;
    let mut buffer_map = new_buffer_map_with_embedded(embedded);
    let buffer_vec = match load_model_buffers(gltf_info, files) {
        Ok(v) => v,
        Err(e) => {
            return Err(e);
        },
    };
    let ghost resolved = buffer_vec@;
    insert_external_buffers(buffer_vec, &mut buffer_map);
    proof {
        let want = resolved_buffers(
            *gltf_info,
            files@,
            match emb {
                Some(v) => Some(v@),
                None => None,
            },
        );
        assert(buffer_bytes(buffer_map) =~= want);
    }
    Ok(buffer_map)
}

/// Flattens the default scene of the document out of its resolved buffers.
#[verifier::rlimit(40)]
pub fn load_scene(gltf_info: &Document, buffer_map: &BufferMap, files: &ResourceFiles) -> (r: Result<
    (SceneView, GLTFBuffer),
    Error,
>)
    ensures
        r is Ok <==> scene_loads(*gltf_info, buffer_bytes(*buffer_map), files@),
        gltf_info.scenes@.len() == 0 ==> r == Err::<(SceneView, GLTFBuffer), Error>(
            Error::DefaultSceneNotFound,
        ),
        gltf_info.scenes@.len() > 0 && roots_error(*gltf_info, buffer_bytes(*buffer_map)) is Some
            ==> r == Err::<(SceneView, GLTFBuffer), Error>(
            roots_error(*gltf_info, buffer_bytes(*buffer_map))->Some_0,
        ),
        gltf_info.scenes@.len() > 0 && roots_error(*gltf_info, buffer_bytes(*buffer_map)) is None
            && !roots_ids(*gltf_info).no_duplicates() ==> r == Err::<(SceneView, GLTFBuffer), Error>(
            Error::NodeShared,
        ),
        gltf_info.scenes@.len() > 0 && roots_error(*gltf_info, buffer_bytes(*buffer_map)) is None
            && roots_ids(*gltf_info).no_duplicates()
            && !images_resolve(*gltf_info, buffer_bytes(*buffer_map), files@) ==> (r matches Err(e)
            && exists|i: int|
            0 <= i < gltf_info.images@.len() && image_failed(
                e,
                *gltf_info,
                files@,
                buffer_bytes(*buffer_map),
                #[trigger] gltf_info.images@[i],
            ) && forall|j: int|
                0 <= j < i ==> image_ok(
                    *gltf_info,
                    files@,
                    buffer_bytes(*buffer_map),
                    #[trigger] gltf_info.images@[j],
                ) is Some),
        gltf_info.scenes@.len() > 0 && roots_error(*gltf_info, buffer_bytes(*buffer_map)) is None
            && roots_ids(*gltf_info).no_duplicates()
            && images_resolve(*gltf_info, buffer_bytes(*buffer_map), files@) && !materials_resolve(
            *gltf_info,
        ) ==> r == Err::<(SceneView, GLTFBuffer), Error>(Error::MissingReference),
        r matches Ok((view, out)) ==> scene_flattened(
            *gltf_info,
            buffer_bytes(*buffer_map),
            files@,
            view,
            out,
        ),
{
    let ghost doc = *gltf_info;
    let ghost buffers = buffer_bytes(*buffer_map);
    let mut gltf_buffer_out = GLTFBuffer::new();
    if gltf_info.scenes.len() == 0 {
        return Err(Error::DefaultSceneNotFound);
    }
    let scene = &gltf_info.scenes[0];
    let reader = PrimitiveBufferReader::new(gltf_info, buffer_map);
    let mut nodes: Vec<Node> = Vec::new();
    let root_chain: Vec<usize> = Vec::new();
    let depth = gltf_info.nodes.len();
    let mut k: usize = 0;
    proof {
        assert(node_ids(nodes@) =~= Seq::<usize>::empty());
        assert(roots_ids(doc) =~= node_ids(nodes@) + roots_ids(doc));
        assert forall|sel: int| 0 <= sel < 5 implies roots_bytes(doc, buffers, sel) == #[trigger] arena(
            gltf_buffer_out,
            sel,
        ) + children_bytes(doc, buffers, scene.nodes@, 0, depth as nat, sel) by {
            assert(arena(gltf_buffer_out, sel) =~= Seq::<u8>::empty());
            assert(roots_bytes(doc, buffers, sel) =~= Seq::<u8>::empty() + roots_bytes(doc, buffers, sel));
        }
    }
    while k < scene.nodes.len()
        invariant
            doc == *gltf_info,
            buffers == buffer_bytes(*buffer_map),
            *reader.gltf_info == doc,
            *reader.buffer_map == *buffer_map,
            doc.scenes@.len() > 0,
            *scene == doc.scenes@[0],
            depth == doc.nodes@.len(),
            root_chain@.len() == 0,
            0 <= k <= scene.nodes@.len(),
            gltf_buffer_out.texcoord@.len() == 1,
            gltf_buffer_out.shared_data@.len() == 0,
            gltf_buffer_out.bi_tangent@.len() == 0,
            roots_error(doc, buffers) == children_error(doc, buffers, scene.nodes@, k as int, depth as nat),
            forall|i: int|
                0 <= i < nodes@.len() ==> node_ok(doc, buffers, #[trigger] nodes@[i], gltf_buffer_out)
                    && chain_linked(doc, nodes@[i].transform_chain@) && scene.nodes@.contains(
                    nodes@[i].transform_chain@[0],
                ),
            roots_recorded(scene.nodes@, k as int, nodes@),
            children_recorded(nodes@, 0, nodes@.len() as int),
            roots_ids(doc) == node_ids(nodes@) + children_ids(doc, scene.nodes@, k as int, depth as nat),
            forall|sel: int|
                0 <= sel < 5 ==> roots_bytes(doc, buffers, sel) == #[trigger] arena(gltf_buffer_out, sel)
                    + children_bytes(doc, buffers, scene.nodes@, k as int, depth as nat, sel),
        decreases scene.nodes@.len() - k,
    {
        let ghost before = gltf_buffer_out;
        let ghost nodes_before = nodes@;
        let res = insert_node(&reader, scene.nodes[k], &mut nodes, &mut gltf_buffer_out, &root_chain, depth);
        match res {
            Ok(()) => {},
            Err(e) => {
                assert(children_error(doc, buffers, scene.nodes@, k as int, depth as nat) == Some(e));
                return Err(e);
            },
        }
        assert(children_error(doc, buffers, scene.nodes@, k as int, depth as nat) == children_error(
            doc,
            buffers,
            scene.nodes@,
            k + 1,
            depth as nat,
        ));
        proof {
            let root = scene.nodes@[k as int];
            let wi = walk_ids(doc, root, depth as nat);
            let irest = children_ids(doc, scene.nodes@, k + 1, depth as nat);
            assert(children_ids(doc, scene.nodes@, k as int, depth as nat) == wi + irest);
            assert(node_ids(nodes_before) + (wi + irest) =~= (node_ids(nodes_before) + wi) + irest);
            assert forall|sel: int| 0 <= sel < 5 implies roots_bytes(doc, buffers, sel) == #[trigger] arena(
                gltf_buffer_out,
                sel,
            ) + children_bytes(doc, buffers, scene.nodes@, k + 1, depth as nat, sel) by {
                let wb = walk_bytes(doc, buffers, root, depth as nat, sel);
                let rest = children_bytes(doc, buffers, scene.nodes@, k + 1, depth as nat, sel);
                assert(children_bytes(doc, buffers, scene.nodes@, k as int, depth as nat, sel) == wb + rest);
                assert(arena(gltf_buffer_out, sel) == arena(before, sel) + wb);
                assert(arena(before, sel) + (wb + rest) =~= (arena(before, sel) + wb) + rest);
            }
            let l1 = nodes_before.len() as int;
            let l2 = nodes@.len() as int;
            lemma_found_widen(nodes_before, nodes@, 0, l1, 0, l1, 0, l2);
            lemma_found_widen(nodes@, nodes@, l1, l2, l1, l2, 0, l2);
            lemma_found_union(nodes@, 0, l1, l2, 0, l2);
            let root = scene.nodes@[k as int];
            assert(scene.nodes@.contains(root));
            assert(root_chain@.push(root) =~= seq![root]);
            assert forall|i: int| 0 <= i < nodes@.len() implies node_ok(
                doc,
                buffers,
                #[trigger] nodes@[i],
                gltf_buffer_out,
            ) && chain_linked(doc, nodes@[i].transform_chain@) && scene.nodes@.contains(
                nodes@[i].transform_chain@[0],
            ) by {
                if i < nodes_before.len() {
                    assert(nodes@[i] == nodes_before[i]);
                    crate::scene::lemma_node_extend(doc, buffers, nodes@[i], before, gltf_buffer_out);
                } else {
                    assert(chain_below(doc, nodes@[i], root_chain@, root));
                    let ch = nodes@[i].transform_chain@;
                    assert(ch.subrange(0, ch.len() as int) =~= ch);
                }
            }
            assert forall|j: int| #![trigger scene.nodes@[j]] 0 <= j < k + 1 implies exists|i: int|
                0 <= i < nodes@.len() && (#[trigger] nodes@[i]).id == scene.nodes@[j]
                    && nodes@[i].transform_chain@ == seq![scene.nodes@[j]] by {
                if j < k {
                    let i = choose|i: int|
                        0 <= i < nodes_before.len() && (#[trigger] nodes_before[i]).id
                            == scene.nodes@[j] && nodes_before[i].transform_chain@ == seq![
                            scene.nodes@[j],
                        ];
                    assert(nodes@[i] == nodes_before[i]);
                } else {
                    let i = nodes@.len() - 1;
                    assert(nodes@[i] == nodes@.last());
                }
            }
        }
        k = k + 1;
    }
    proof {
        assert(children_ids(doc, scene.nodes@, k as int, depth as nat) =~= Seq::<usize>::empty());
        assert(node_ids(nodes@) + Seq::<usize>::empty() =~= node_ids(nodes@));
        assert forall|sel: int| 0 <= sel < 5 implies #[trigger] arena(gltf_buffer_out, sel) == roots_bytes(
            doc,
            buffers,
            sel,
        ) by {
            assert(children_bytes(doc, buffers, scene.nodes@, k as int, depth as nat, sel) =~= Seq::<u8>::empty());
            assert(arena(gltf_buffer_out, sel) + Seq::<u8>::empty() =~= arena(gltf_buffer_out, sel));
        }
    }
    if has_duplicate_ids(&nodes) {
        return Err(Error::NodeShared);
    }
    let mut images: Vec<ImageData> = Vec::new();
    let image_loader = ImageLoader::new(gltf_info, files, buffer_map);
    let ghost arena0 = gltf_buffer_out;
    match image_loader.prepare_images(&mut gltf_buffer_out.shared_data, &mut images) {
        Ok(()) => {},
        Err(e) => {
            return Err(e);
        },
    }
    let ghost extracted = images@;
    proof {
        assert forall|sel: int| 0 <= sel < 5 implies #[trigger] arena(gltf_buffer_out, sel) == roots_bytes(
            doc,
            buffers,
            sel,
        ) by {
            assert(arena(gltf_buffer_out, sel) == arena(arena0, sel));
        }
        assert(extracted.subrange(0, extracted.len() as int) =~= extracted);
        assert(gltf_buffer_out.shared_data@.subrange(0, 0) =~= Seq::<u8>::empty());
        assert(images_extracted(doc, buffers, files@, extracted, gltf_buffer_out.shared_data@)) by {
            assert forall|i: int| 0 <= i < extracted.len() implies image_recorded(
                #[trigger] extracted[i],
                doc.images@[i],
                image_ok(doc, files@, buffers, doc.images@[i])->Some_0,
                gltf_buffer_out.shared_data@,
            ) by {
                assert(extracted[0 + i] == extracted[i]);
            }
        }
        assert forall|i: int| 0 <= i < nodes@.len() implies node_ok(
            doc,
            buffers,
            #[trigger] nodes@[i],
            gltf_buffer_out,
        ) by {
            crate::scene::lemma_node_same_arenas(doc, buffers, nodes@[i], arena0, gltf_buffer_out);
        }
    }
    let mut materials: Vec<Material> = Vec::new();
    match image_loader.load_materials(&mut images, &mut materials) {
        Ok(()) => {},
        Err(e) => {
            return Err(e);
        },
    }
    let mut samplers: Vec<Sampler> = Vec::new();
    let mut s: usize = 0;
    while s < gltf_info.samplers.len()
        invariant
            doc == *gltf_info,
            0 <= s <= doc.samplers@.len(),
            samplers@ == doc.samplers@.subrange(0, s as int),
        decreases doc.samplers@.len() - s,
    {
        samplers.push(gltf_info.samplers[s]);
        proof {
            assert(samplers@ =~= doc.samplers@.subrange(0, s + 1));
        }
        s = s + 1;
    }
    assert(doc.samplers@.subrange(0, doc.samplers@.len() as int) =~= doc.samplers@);
    proof {
        assert forall|i: int| 0 <= i < materials@.len() implies Some((#[trigger] materials@[i])@)
            == material_slots(doc, doc.images@.len() as int, doc.materials@[i]) by {
            assert(materials@[0 + i] == materials@[i]);
        }
    }
    let view = SceneView { nodes, materials, images, samplers };
    Ok((view, gltf_buffer_out))
}

/// Loads the default scene of a document: resolves its buffers (the embedded
/// chunk, if any, as buffer 0, the others from `files` or inline data), then
/// flattens the scene out of them. The first failure ends the load.
pub fn load_document(gltf_info: &Document, embedded: Option<Vec<u8>>, files: &ResourceFiles) -> (r:
    Result<(SceneView, GLTFBuffer), Error>)
    ensures
        ({
            let buffers = resolved_buffers(
                *gltf_info,
                files@,
                match embedded {
                    Some(v) => Some(v@),
                    None => None,
                },
            );
            &&& r is Ok <==> buffers_resolve(*gltf_info, files@) && scene_loads(*gltf_info, buffers, files@)
            &&& r matches Ok((view, out)) ==> scene_flattened(*gltf_info, buffers, files@, view, out)
            &&& buffers_resolve(*gltf_info, files@) && gltf_info.scenes@.len() > 0 && roots_error(
                *gltf_info,
                buffers,
            ) is Some ==> r == Err::<(SceneView, GLTFBuffer), Error>(
                roots_error(*gltf_info, buffers)->Some_0,
            )
            &&& buffers_resolve(*gltf_info, files@) && gltf_info.scenes@.len() > 0 && roots_error(
                *gltf_info,
                buffers,
            ) is None && !roots_ids(*gltf_info).no_duplicates() ==> r == Err::<
                (SceneView, GLTFBuffer),
                Error,
            >(Error::NodeShared)
            &&& buffers_resolve(*gltf_info, files@) && gltf_info.scenes@.len() > 0 && roots_error(
                *gltf_info,
                buffers,
            ) is None && roots_ids(*gltf_info).no_duplicates() && !images_resolve(*gltf_info, buffers, files@) ==> (r matches Err(e)
                && exists|i: int|
                0 <= i < gltf_info.images@.len() && image_failed(
                    e,
                    *gltf_info,
                    files@,
                    buffers,
                    #[trigger] gltf_info.images@[i],
                ) && forall|j: int|
                    0 <= j < i ==> image_ok(*gltf_info, files@, buffers, #[trigger] gltf_info.images@[j])
                        is Some)
            &&& buffers_resolve(*gltf_info, files@) && gltf_info.scenes@.len() > 0 && roots_error(
                *gltf_info,
                buffers,
            ) is None && roots_ids(*gltf_info).no_duplicates() && images_resolve(*gltf_info, buffers, files@) && !materials_resolve(*gltf_info)
                ==> r == Err::<(SceneView, GLTFBuffer), Error>(Error::MissingReference)
        }),
        !buffers_resolve(*gltf_info, files@) ==> (r matches Err(e) && exists|i: int|
            0 <= i < gltf_info.buffers@.len() && !buffer_skipped(#[trigger] gltf_info.buffers@[i])
                && uri_resolved(Err(e), gltf_info.buffers@[i].uri->Some_0@, files@) && forall|j: int|
                0 <= j < i ==> buffer_skipped(#[trigger] gltf_info.buffers@[j]) || buffer_ok(
                    gltf_info.buffers@[j],
                    files@,
                ) is Some),
        buffers_resolve(*gltf_info, files@) && gltf_info.scenes@.len() == 0 ==> r == Err::<
            (SceneView, GLTFBuffer),
            Error,
        >(Error::DefaultSceneNotFound),
{
    let buffer_map = match resolve_buffers(gltf_info, embedded, files) {
        Ok(m) => m,
        Err(e) => {
            return Err(e);
        },
    };
    load_scene(gltf_info, &buffer_map, files)
}

} // verus!
