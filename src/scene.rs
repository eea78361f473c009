//! Walking the default scene: reading every primitive of every reachable node
//! into the arenas and recording each node with its transform chain.
use vstd::prelude::*;
use std::ops::Range;
use crate::material::append_bytes;
use crate::accessor::{PrimitiveBufferReader, accessor_read, buffer_bytes, index_read, read_indices};
use crate::document::{Document, Primitive};
use crate::error::Error;
use crate::gltf::{GLTFBuffer, Index, Mesh, Node};

verus! {

/// `r` is a range of `arena` that holds exactly `bytes`.
pub open spec fn slice_is(arena: Seq<u8>, r: Range<usize>, bytes: Seq<u8>) -> bool {
    &&& r.start <= r.end <= arena.len()
    &&& arena.subrange(r.start as int, r.end as int) == bytes
}

/// An optional attribute: present exactly where the primitive names an
/// accessor whose read succeeds, and then holding the accessor's bytes.
pub open spec fn optional_ok(
    doc: Document,
    buffers: Map<usize, Seq<u8>>,
    acc: Option<usize>,
    r: Option<Range<usize>>,
    arena: Seq<u8>,
) -> bool {
    match r {
        Some(rg) => acc is Some && accessor_read(doc, buffers, acc->Some_0 as int) is Ok
            && slice_is(arena, rg, accessor_read(doc, buffers, acc->Some_0 as int)->Ok_0),
        None => acc is None || accessor_read(doc, buffers, acc->Some_0 as int) is Err,
    }
}

/// The first failure of reading primitive `p` of mesh `mesh_id`, if any: a
/// missing or unreadable index accessor, then a missing or unreadable
/// position accessor.
pub open spec fn primitive_error(
    doc: Document,
    buffers: Map<usize, Seq<u8>>,
    p: Primitive,
    mesh_id: usize,
) -> Option<Error> {
    match p.indices {
        None => Some(Error::NoIndexFound { mesh_id }),
        Some(ix) => match index_read(doc, buffers, ix as int) {
            Err(e) => Some(e),
            Ok(_) => match p.attributes.position {
                None => Some(Error::NoPositionFound { mesh_id }),
                Some(pos) => match accessor_read(doc, buffers, pos as int) {
                    Err(e) => Some(e),
                    Ok(_) => None,
                },
            },
        },
    }
}

/// Mesh `m` is primitive `p` of document mesh `mesh_id`, read into arenas `a`.
pub open spec fn mesh_ok(
    doc: Document,
    buffers: Map<usize, Seq<u8>>,
    p: Primitive,
    mesh_id: usize,
    m: Mesh,
    a: GLTFBuffer,
) -> bool {
    &&& primitive_error(doc, buffers, p, mesh_id) is None
    &&& m.id == mesh_id
    &&& m.mode == p.mode
    &&& m.mat == p.material
    &&& m.bi_tangents is None
    &&& {
        let ix = index_read(doc, buffers, p.indices->Some_0 as int)->Ok_0;
        &&& slice_is(a.index@, m.index.indices, ix.0)
        &&& m.index.count == ix.1
        &&& m.index.type_size == 4
    }
    &&& {
        let pos = p.attributes.position->Some_0 as int;
        &&& slice_is(a.positions@, m.positions, accessor_read(doc, buffers, pos)->Ok_0)
        &&& m.vertex_count == doc.accessors@[pos].count
        &&& m.vertex_type_size == doc.accessors@[pos].spec_element_size()
    }
    &&& optional_ok(doc, buffers, p.attributes.normal, m.normals, a.normal@)
    &&& a.texcoord@.len() >= 1
    &&& optional_ok(doc, buffers, p.attributes.texcoord_0, m.uv0, a.texcoord@[0]@)
    &&& optional_ok(doc, buffers, p.attributes.tangent, m.tangents, a.tangent@)
}

/// Arenas `b` are arenas `a` with bytes appended to each.
pub open spec fn arenas_extend(a: GLTFBuffer, b: GLTFBuffer) -> bool {
    &&& a.positions@.len() <= b.positions@.len()
    &&& b.positions@.subrange(0, a.positions@.len() as int) == a.positions@
    &&& a.normal@.len() <= b.normal@.len()
    &&& b.normal@.subrange(0, a.normal@.len() as int) == a.normal@
    &&& a.tangent@.len() <= b.tangent@.len()
    &&& b.tangent@.subrange(0, a.tangent@.len() as int) == a.tangent@
    &&& a.index@.len() <= b.index@.len()
    &&& b.index@.subrange(0, a.index@.len() as int) == a.index@
    &&& a.texcoord@.len() >= 1
    &&& b.texcoord@.len() == a.texcoord@.len()
    &&& a.texcoord@[0]@.len() <= b.texcoord@[0]@.len()
    &&& b.texcoord@[0]@.subrange(0, a.texcoord@[0]@.len() as int) == a.texcoord@[0]@
    &&& b.shared_data@ == a.shared_data@
    &&& b.bi_tangent@ == a.bi_tangent@
}

proof fn lemma_prefix_slice(a: Seq<u8>, b: Seq<u8>, r: Range<usize>, bytes: Seq<u8>)
    requires
        slice_is(a, r, bytes),
        a.len() <= b.len(),
        b.subrange(0, a.len() as int) == a,
    ensures
        slice_is(b, r, bytes),
{
    assert(b.subrange(r.start as int, r.end as int) =~= b.subrange(0, a.len() as int).subrange(
        r.start as int,
        r.end as int,
    ));
}

proof fn lemma_optional_extend(
    doc: Document,
    buffers: Map<usize, Seq<u8>>,
    acc: Option<usize>,
    r: Option<Range<usize>>,
    a: Seq<u8>,
    b: Seq<u8>,
)
    requires
        optional_ok(doc, buffers, acc, r, a),
        a.len() <= b.len(),
        b.subrange(0, a.len() as int) == a,
    ensures
        optional_ok(doc, buffers, acc, r, b),
{
    if r is Some {
        lemma_prefix_slice(a, b, r->Some_0, accessor_read(doc, buffers, acc->Some_0 as int)->Ok_0);
    }
}

/// A mesh read into arenas stays valid as the arenas grow.
proof fn lemma_mesh_extend(
    doc: Document,
    buffers: Map<usize, Seq<u8>>,
    p: Primitive,
    mesh_id: usize,
    m: Mesh,
    a: GLTFBuffer,
    b: GLTFBuffer,
)
    requires
        mesh_ok(doc, buffers, p, mesh_id, m, a),
        arenas_extend(a, b),
    ensures
        mesh_ok(doc, buffers, p, mesh_id, m, b),
{
    let ix = index_read(doc, buffers, p.indices->Some_0 as int)->Ok_0;
    lemma_prefix_slice(a.index@, b.index@, m.index.indices, ix.0);
    let pos = p.attributes.position->Some_0 as int;
    lemma_prefix_slice(a.positions@, b.positions@, m.positions, accessor_read(doc, buffers, pos)->Ok_0);
    lemma_optional_extend(doc, buffers, p.attributes.normal, m.normals, a.normal@, b.normal@);
    lemma_optional_extend(
        doc,
        buffers,
        p.attributes.texcoord_0,
        m.uv0,
        a.texcoord@[0]@,
        b.texcoord@[0]@,
    );
    lemma_optional_extend(doc, buffers, p.attributes.tangent, m.tangents, a.tangent@, b.tangent@);
}

proof fn lemma_extend_trans(a: GLTFBuffer, b: GLTFBuffer, c: GLTFBuffer)
    requires
        arenas_extend(a, b),
        arenas_extend(b, c),
    ensures
        arenas_extend(a, c),
{
    assert(c.positions@.subrange(0, a.positions@.len() as int) =~= c.positions@.subrange(0, b.positions@.len() as int).subrange(0, a.positions@.len() as int));
    assert(c.normal@.subrange(0, a.normal@.len() as int) =~= c.normal@.subrange(0, b.normal@.len() as int).subrange(0, a.normal@.len() as int));
    assert(c.tangent@.subrange(0, a.tangent@.len() as int) =~= c.tangent@.subrange(0, b.tangent@.len() as int).subrange(0, a.tangent@.len() as int));
    assert(c.index@.subrange(0, a.index@.len() as int) =~= c.index@.subrange(0, b.index@.len() as int).subrange(0, a.index@.len() as int));
    assert(c.texcoord@[0]@.subrange(0, a.texcoord@[0]@.len() as int) =~= c.texcoord@[0]@.subrange(0, b.texcoord@[0]@.len() as int).subrange(0, a.texcoord@[0]@.len() as int));
}

pub proof fn lemma_extend_refl(a: GLTFBuffer)
    requires
        a.texcoord@.len() >= 1,
    ensures
        arenas_extend(a, a),
{
    assert(a.positions@.subrange(0, a.positions@.len() as int) =~= a.positions@);
    assert(a.normal@.subrange(0, a.normal@.len() as int) =~= a.normal@);
    assert(a.tangent@.subrange(0, a.tangent@.len() as int) =~= a.tangent@);
    assert(a.index@.subrange(0, a.index@.len() as int) =~= a.index@);
    assert(a.texcoord@[0]@.subrange(0, a.texcoord@[0]@.len() as int) =~= a.texcoord@[0]@);
}

/// The bytes an optional attribute adds to its arena: the accessor's bytes
/// where it is named and reads, nothing otherwise.
pub open spec fn optional_bytes(doc: Document, buffers: Map<usize, Seq<u8>>, acc: Option<usize>) -> Seq<u8> {
    match acc {
        Some(a) => match accessor_read(doc, buffers, a as int) {
            Ok(b) => b,
            Err(_) => Seq::empty(),
        },
        None => Seq::empty(),
    }
}

/// Arena `sel` of `a`: 0 positions, 1 normals, 2 texture coordinates of set
/// 0, 3 tangents, 4 indices.
pub open spec fn arena(a: GLTFBuffer, sel: int) -> Seq<u8> {
    if sel == 0 {
        a.positions@
    } else if sel == 1 {
        a.normal@
    } else if sel == 2 {
        a.texcoord@[0]@
    } else if sel == 3 {
        a.tangent@
    } else {
        a.index@
    }
}

/// The bytes that reading primitive `p` adds to arena `sel`.
pub open spec fn prim_bytes(doc: Document, buffers: Map<usize, Seq<u8>>, p: Primitive, sel: int) -> Seq<u8> {
    if sel == 0 {
        accessor_read(doc, buffers, p.attributes.position->Some_0 as int)->Ok_0
    } else if sel == 1 {
        optional_bytes(doc, buffers, p.attributes.normal)
    } else if sel == 2 {
        optional_bytes(doc, buffers, p.attributes.texcoord_0)
    } else if sel == 3 {
        optional_bytes(doc, buffers, p.attributes.tangent)
    } else {
        index_read(doc, buffers, p.indices->Some_0 as int)->Ok_0.0
    }
}

/// Arenas `b` are arenas `a` with the bytes of primitive `p` appended to the
/// vertex and index arenas, and nothing else changed.
pub open spec fn prim_appended(doc: Document, buffers: Map<usize, Seq<u8>>, p: Primitive, a: GLTFBuffer, b: GLTFBuffer) -> bool {
    &&& forall|sel: int| 0 <= sel < 5 ==> #[trigger] arena(b, sel) == arena(a, sel) + prim_bytes(doc, buffers, p, sel)
    &&& b.texcoord@.len() == a.texcoord@.len()
    &&& b.shared_data@ == a.shared_data@
    &&& b.bi_tangent@ == a.bi_tangent@
}

/// Arenas `a` and `b` hold the same bytes.
pub open spec fn arenas_same(a: GLTFBuffer, b: GLTFBuffer) -> bool {
    &&& forall|sel: int| 0 <= sel < 5 ==> #[trigger] arena(b, sel) == arena(a, sel)
    &&& b.texcoord@.len() == a.texcoord@.len()
    &&& b.shared_data@ == a.shared_data@
    &&& b.bi_tangent@ == a.bi_tangent@
}

/// Reads an optional attribute; a failed read leaves it out and appends
/// nothing.
fn read_optional(
    reader: &PrimitiveBufferReader,
    acc: Option<usize>,
    out: &mut Vec<u8>,
) -> (r: Option<Range<usize>>)
    ensures
        optional_ok(*reader.gltf_info, buffer_bytes(*reader.buffer_map), acc, r, final(out)@),
        final(out)@ == old(out)@ + optional_bytes(*reader.gltf_info, buffer_bytes(*reader.buffer_map), acc),
        r matches Some(rg) ==> rg.start == old(out)@.len() && rg.end == final(out)@.len(),
        old(out)@.len() <= final(out)@.len(),
        final(out)@.subrange(0, old(out)@.len() as int) == old(out)@,
{
    match acc {
        Some(a) => {
            let ghost before = out@;
            let res = reader.get_raw_buffer(a, out);
            match res {
                Ok((range, _, _)) => {
                    assert(out@.subrange(0, before.len() as int) =~= before);
                    assert(out@.subrange(range.start as int, range.end as int) =~= accessor_read(
                        *reader.gltf_info,
                        buffer_bytes(*reader.buffer_map),
                        a as int,
                    )->Ok_0);
                    Some(range)
                },
                Err(_) => {
                    assert(out@.subrange(0, before.len() as int) =~= before);
                    assert(out@ =~= before + Seq::<u8>::empty());
                    None
                },
            }
        },
        None => {
            assert(out@.subrange(0, out@.len() as int) =~= out@);
            assert(out@ =~= out@ + Seq::<u8>::empty());
            None
        },
    }
}

/// Reads primitive `primitive` of document mesh `mesh_id` into the arenas:
/// its indices (widened to 4 bytes), its positions, and its normals, first
/// texture coordinates and tangents where present and readable. A primitive
/// that fails leaves the arenas as they were.
pub fn read_primitive(
    reader: &PrimitiveBufferReader,
    primitive: &Primitive,
    mesh_id: usize,
    gltf_buffer_out: &mut GLTFBuffer,
) -> (r: Result<Mesh, Error>)
    requires
        old(gltf_buffer_out).texcoord@.len() >= 1,
    ensures
        arenas_extend(*old(gltf_buffer_out), *final(gltf_buffer_out)),
        match primitive_error(*reader.gltf_info, buffer_bytes(*reader.buffer_map), *primitive, mesh_id) {
            Some(e) => r == Err::<Mesh, Error>(e) && arenas_same(*old(gltf_buffer_out), *final(gltf_buffer_out)),
            None => {
                &&& r is Ok
                &&& mesh_ok(
                    *reader.gltf_info,
                    buffer_bytes(*reader.buffer_map),
                    *primitive,
                    mesh_id,
                    r->Ok_0,
                    *final(gltf_buffer_out),
                )
                &&& prim_appended(
                    *reader.gltf_info,
                    buffer_bytes(*reader.buffer_map),
                    *primitive,
                    *old(gltf_buffer_out),
                    *final(gltf_buffer_out),
                )
                &&& r->Ok_0.positions.start == old(gltf_buffer_out).positions@.len()
                &&& r->Ok_0.index.indices.start == old(gltf_buffer_out).index@.len()
            },
        },
{
    let ghost a0 = *gltf_buffer_out;
    let ghost doc = *reader.gltf_info;
    let ghost buffers = buffer_bytes(*reader.buffer_map);
    proof {
        lemma_extend_refl(a0);
    }
    let index_id = match primitive.indices {
        Some(i) => i,
        None => {
            return Err(Error::NoIndexFound { mesh_id });
        },
    };
    let mut index_bytes: Vec<u8> = Vec::new();
    let staged = match read_indices(reader, index_id, &mut index_bytes) {
        Ok(index) => index,
        Err(e) => {
            return Err(e);
        },
    };
    assert(index_bytes@ =~= index_read(doc, buffers, index_id as int)->Ok_0.0);
    let position_id = match primitive.attributes.position {
        Some(p) => p,
        None => {
            return Err(Error::NoPositionFound { mesh_id });
        },
    };
    let positions = match reader.get_raw_buffer(position_id, &mut gltf_buffer_out.positions) {
        Ok(p) => p,
        Err(e) => {
            assert(gltf_buffer_out.positions@ == a0.positions@);
            return Err(e);
        },
    };
    let index_start = gltf_buffer_out.index.len();
    append_bytes(&index_bytes, &mut gltf_buffer_out.index);
    let index = Index { indices: index_start..gltf_buffer_out.index.len(), count: staged.count, type_size: 4 };
    let ghost a2 = *gltf_buffer_out;
    let normals = read_optional(reader, primitive.attributes.normal, &mut gltf_buffer_out.normal);
    let uv0 = read_optional(
        reader,
        primitive.attributes.texcoord_0,
        &mut gltf_buffer_out.texcoord[0],
    );
    let tangents = read_optional(reader, primitive.attributes.tangent, &mut gltf_buffer_out.tangent);
    let ghost a3 = *gltf_buffer_out;
    let mesh_out = Mesh {
        id: mesh_id,
        vertex_count: positions.1,
        vertex_type_size: positions.2,
        positions: positions.0,
        normals,
        uv0,
        tangents,
        index,
        mode: primitive.mode,
        mat: primitive.material,
        bi_tangents: None,
    };
    proof {
        let ib = index_read(doc, buffers, index_id as int)->Ok_0.0;
        let pb = accessor_read(doc, buffers, position_id as int)->Ok_0;
        assert(a3.index@ == a0.index@ + ib);
        assert(a3.positions@ == a0.positions@ + pb);
        assert(a3.index@.subrange(mesh_out.index.indices.start as int, mesh_out.index.indices.end as int) =~= ib);
        assert(a3.positions@.subrange(mesh_out.positions.start as int, mesh_out.positions.end as int) =~= pb);
        assert forall|sel: int| 0 <= sel < 5 implies #[trigger] arena(a3, sel) == arena(a0, sel) + prim_bytes(doc, buffers, *primitive, sel) by {}
        assert(a3.positions@.subrange(0, a0.positions@.len() as int) =~= a0.positions@);
        assert(a3.index@.subrange(0, a0.index@.len() as int) =~= a0.index@);
        assert(a3.normal@.subrange(0, a0.normal@.len() as int) =~= a0.normal@);
        assert(a3.tangent@.subrange(0, a0.tangent@.len() as int) =~= a0.tangent@);
        assert(a3.texcoord@[0]@.subrange(0, a0.texcoord@[0]@.len() as int) =~= a0.texcoord@[0]@);
    }
    Ok(mesh_out)
}

/// Node `n` records document node `n.id` with its meshes read into arenas `a`.
pub open spec fn node_ok(doc: Document, buffers: Map<usize, Seq<u8>>, n: Node, a: GLTFBuffer) -> bool {
    &&& n.id < doc.nodes@.len()
    &&& n.name == doc.nodes@[n.id as int].name
    &&& n.children@ == doc.nodes@[n.id as int].children@
    &&& n.transform_chain@.len() >= 1
    &&& n.transform_chain@.last() == n.id
    &&& match doc.nodes@[n.id as int].mesh {
        None => n.meshes@.len() == 0,
        Some(mi) => {
            &&& mi < doc.meshes@.len()
            &&& n.meshes@.len() == doc.meshes@[mi as int].primitives@.len()
            &&& forall|k: int|
                0 <= k < n.meshes@.len() ==> mesh_ok(
                    doc,
                    buffers,
                    doc.meshes@[mi as int].primitives@[k],
                    mi,
                    #[trigger] n.meshes@[k],
                    a,
                )
        },
    }
}

/// Each node of `chain` after the first is a child of the one before it.
pub open spec fn chain_linked(doc: Document, chain: Seq<usize>) -> bool {
    forall|k: int|
        0 <= k < chain.len() - 1 ==> #[trigger] chain[k] < doc.nodes@.len()
            && doc.nodes@[chain[k] as int].children@.contains(chain[k + 1])
}

/// The first failure among primitives `k..` of `prims`, which belong to
/// document mesh `mesh_id`.
pub open spec fn prims_error(
    doc: Document,
    buffers: Map<usize, Seq<u8>>,
    prims: Seq<Primitive>,
    mesh_id: usize,
    k: int,
) -> Option<Error>
    decreases prims.len() - k,
{
    if k < 0 || k >= prims.len() {
        None
    } else {
        match primitive_error(doc, buffers, prims[k], mesh_id) {
            Some(e) => Some(e),
            None => prims_error(doc, buffers, prims, mesh_id, k + 1),
        }
    }
}

/// The first failure of reading the mesh of node `id` itself: a dangling
/// mesh, or the first primitive that does not read.
pub open spec fn own_error(doc: Document, buffers: Map<usize, Seq<u8>>, id: usize) -> Option<Error> {
    match doc.nodes@[id as int].mesh {
        None => None,
        Some(mi) => if mi >= doc.meshes@.len() {
            Some(Error::MissingReference)
        } else {
            prims_error(doc, buffers, doc.meshes@[mi as int].primitives@, mi, 0)
        },
    }
}

/// The first failure of walking the subtree below node `id` with `fuel`
/// levels left, in the order the walk meets it: a dangling node, a subtree
/// too deep, a dangling mesh, a primitive that does not read, then the
/// first failure among the children.
pub open spec fn walk_error(doc: Document, buffers: Map<usize, Seq<u8>>, id: usize, fuel: nat) -> Option<
    Error,
>
    decreases fuel, 1nat, 0int,
{
    if id >= doc.nodes@.len() {
        Some(Error::MissingReference)
    } else if fuel == 0 {
        Some(Error::NodeCycle)
    } else {
        match own_error(doc, buffers, id) {
            Some(e) => Some(e),
            None => children_error(doc, buffers, doc.nodes@[id as int].children@, 0, (fuel - 1) as nat),
        }
    }
}

/// The first failure of walking the subtrees below `children[k..]`, in
/// order, each with `fuel` levels left.
pub open spec fn children_error(
    doc: Document,
    buffers: Map<usize, Seq<u8>>,
    children: Seq<usize>,
    k: int,
    fuel: nat,
) -> Option<Error>
    decreases fuel + 1, 0nat, children.len() - k,
{
    if k < 0 || k >= children.len() {
        None
    } else {
        match walk_error(doc, buffers, children[k], fuel) {
            Some(e) => Some(e),
            None => children_error(doc, buffers, children, k + 1, fuel),
        }
    }
}

/// The walk's outcome, given its first failure.
pub open spec fn walk_result(e: Option<Error>) -> Result<(), Error> {
    match e {
        Some(e) => Err(e),
        None => Ok(()),
    }
}

/// The bytes that reading primitives `k..` of `prims` adds to arena `sel`.
pub open spec fn prims_bytes(
    doc: Document,
    buffers: Map<usize, Seq<u8>>,
    prims: Seq<Primitive>,
    k: int,
    sel: int,
) -> Seq<u8>
    decreases prims.len() - k,
{
    if k < 0 || k >= prims.len() {
        Seq::empty()
    } else {
        prim_bytes(doc, buffers, prims[k], sel) + prims_bytes(doc, buffers, prims, k + 1, sel)
    }
}

/// The bytes a successful walk of the subtree below node `id` adds to arena
/// `sel`: its own primitives' bytes, then each child subtree's, in order.
pub open spec fn walk_bytes(doc: Document, buffers: Map<usize, Seq<u8>>, id: usize, fuel: nat, sel: int) -> Seq<u8>
    decreases fuel, 1nat, 0int,
{
    if id >= doc.nodes@.len() || fuel == 0 {
        Seq::empty()
    } else {
        let node = doc.nodes@[id as int];
        let own = match node.mesh {
            Some(mi) => if mi < doc.meshes@.len() {
                prims_bytes(doc, buffers, doc.meshes@[mi as int].primitives@, 0, sel)
            } else {
                Seq::empty()
            },
            None => Seq::empty(),
        };
        own + children_bytes(doc, buffers, node.children@, 0, (fuel - 1) as nat, sel)
    }
}

/// The bytes successful walks of the subtrees below `children[k..]` add to
/// arena `sel`, in order.
pub open spec fn children_bytes(
    doc: Document,
    buffers: Map<usize, Seq<u8>>,
    children: Seq<usize>,
    k: int,
    fuel: nat,
    sel: int,
) -> Seq<u8>
    decreases fuel + 1, 0nat, children.len() - k,
{
    if k < 0 || k >= children.len() {
        Seq::empty()
    } else {
        walk_bytes(doc, buffers, children[k], fuel, sel) + children_bytes(
            doc,
            buffers,
            children,
            k + 1,
            fuel,
            sel,
        )
    }
}

/// The ids a successful walk of the subtree below node `id` records, in
/// order: each child subtree's, then `id` itself.
pub open spec fn walk_ids(doc: Document, id: usize, fuel: nat) -> Seq<usize>
    decreases fuel, 1nat, 0int,
{
    if id >= doc.nodes@.len() || fuel == 0 {
        Seq::empty()
    } else {
        children_ids(doc, doc.nodes@[id as int].children@, 0, (fuel - 1) as nat).push(id)
    }
}

/// The ids successful walks of the subtrees below `children[k..]` record.
pub open spec fn children_ids(doc: Document, children: Seq<usize>, k: int, fuel: nat) -> Seq<usize>
    decreases fuel + 1, 0nat, children.len() - k,
{
    if k < 0 || k >= children.len() {
        Seq::empty()
    } else {
        walk_ids(doc, children[k], fuel) + children_ids(doc, children, k + 1, fuel)
    }
}

/// Arenas `b` are arenas `a` with the bytes of a successful walk of the
/// subtree below node `id` appended to the vertex and index arenas.
pub open spec fn walk_appended(
    doc: Document,
    buffers: Map<usize, Seq<u8>>,
    id: usize,
    fuel: nat,
    a: GLTFBuffer,
    b: GLTFBuffer,
) -> bool {
    &&& forall|sel: int|
        0 <= sel < 5 ==> #[trigger] arena(b, sel) == arena(a, sel) + walk_bytes(doc, buffers, id, fuel, sel)
    &&& b.texcoord@.len() == a.texcoord@.len()
    &&& b.shared_data@ == a.shared_data@
    &&& b.bi_tangent@ == a.bi_tangent@
}

/// The ids of `nodes`, in order.
pub open spec fn node_ids(nodes: Seq<Node>) -> Seq<usize> {
    Seq::new(nodes.len(), |i: int| nodes[i].id)
}

/// Node `n` was recorded by a walk that started at node `id` below the
/// ancestors `parent`: its chain runs through `parent`, then `id`, then
/// down the hierarchy.
pub open spec fn chain_below(doc: Document, n: Node, parent: Seq<usize>, id: usize) -> bool {
    &&& n.transform_chain@.len() > parent.len()
    &&& n.transform_chain@.subrange(0, parent.len() as int) == parent
    &&& n.transform_chain@[parent.len() as int] == id
    &&& chain_linked(doc, n.transform_chain@.subrange(parent.len() as int, n.transform_chain@.len() as int))
}

/// `nodes[j]` records child `c` of `parent`, its chain being the parent's
/// followed by itself.
pub open spec fn child_at(nodes: Seq<Node>, j: int, parent: Node, c: int) -> bool {
    &&& nodes[j].id == parent.children@[c]
    &&& nodes[j].transform_chain@ == parent.transform_chain@.push(parent.children@[c])
}

/// Child `c` of `parent` is recorded in `nodes[wlo..whi]`.
pub open spec fn child_recorded(nodes: Seq<Node>, parent: Node, c: int, wlo: int, whi: int) -> bool {
    exists|j: int| wlo <= j < whi && #[trigger] child_at(nodes, j, parent, c)
}

/// Every child of a node in `nodes[lo..hi]` is recorded in `nodes[wlo..whi]`.
pub open spec fn children_found(nodes: Seq<Node>, lo: int, hi: int, wlo: int, whi: int) -> bool {
    forall|i: int, c: int|
        lo <= i < hi && 0 <= c < nodes[i].children@.len() ==> #[trigger] child_recorded(
            nodes,
            nodes[i],
            c,
            wlo,
            whi,
        )
}

/// `nodes[lo..hi]` holds, with every node, all of its children.
pub open spec fn children_recorded(nodes: Seq<Node>, lo: int, hi: int) -> bool {
    children_found(nodes, lo, hi, lo, hi)
}

pub proof fn lemma_found_widen(
    s1: Seq<Node>,
    s2: Seq<Node>,
    lo: int,
    hi: int,
    wlo: int,
    whi: int,
    wlo2: int,
    whi2: int,
)
    requires
        children_found(s1, lo, hi, wlo, whi),
        0 <= lo,
        hi <= s1.len(),
        0 <= wlo,
        whi <= s1.len(),
        s1.len() <= s2.len(),
        forall|k: int| 0 <= k < s1.len() ==> #[trigger] s2[k] == s1[k],
        wlo2 <= wlo,
        whi <= whi2,
    ensures
        children_found(s2, lo, hi, wlo2, whi2),
{
    assert forall|i: int, c: int| lo <= i < hi && 0 <= c < s2[i].children@.len() implies #[trigger] child_recorded(
        s2,
        s2[i],
        c,
        wlo2,
        whi2,
    ) by {
        assert(s2[i] == s1[i]);
        assert(child_recorded(s1, s1[i], c, wlo, whi));
        let j = choose|j: int| wlo <= j < whi && #[trigger] child_at(s1, j, s1[i], c);
        assert(s2[j] == s1[j]);
        assert(child_at(s2, j, s2[i], c));
    }
}

pub proof fn lemma_found_union(s: Seq<Node>, a: int, b: int, c: int, wlo: int, whi: int)
    requires
        children_found(s, a, b, wlo, whi),
        children_found(s, b, c, wlo, whi),
    ensures
        children_found(s, a, c, wlo, whi),
{
    assert forall|i: int, k: int| a <= i < c && 0 <= k < s[i].children@.len() implies #[trigger] child_recorded(
        s,
        s[i],
        k,
        wlo,
        whi,
    ) by {
        if i < b {
            assert(a <= i < b);
        } else {
            assert(b <= i < c);
        }
    }
}

pub proof fn lemma_node_extend(doc: Document, buffers: Map<usize, Seq<u8>>, n: Node, a: GLTFBuffer, b: GLTFBuffer)
    requires
        node_ok(doc, buffers, n, a),
        arenas_extend(a, b),
    ensures
        node_ok(doc, buffers, n, b),
{
    match doc.nodes@[n.id as int].mesh {
        None => {},
        Some(mi) => {
            assert forall|k: int| 0 <= k < n.meshes@.len() implies mesh_ok(
                doc,
                buffers,
                doc.meshes@[mi as int].primitives@[k],
                mi,
                #[trigger] n.meshes@[k],
                b,
            ) by {
                lemma_mesh_extend(doc, buffers, doc.meshes@[mi as int].primitives@[k], mi, n.meshes@[k], a, b);
            }
        },
    }
}

/// A node's record depends only on the vertex and index arenas.
pub proof fn lemma_node_same_arenas(
    doc: Document,
    buffers: Map<usize, Seq<u8>>,
    n: Node,
    a: GLTFBuffer,
    b: GLTFBuffer,
)
    requires
        node_ok(doc, buffers, n, a),
        a.positions@ == b.positions@,
        a.normal@ == b.normal@,
        a.tangent@ == b.tangent@,
        a.index@ == b.index@,
        a.texcoord@ == b.texcoord@,
    ensures
        node_ok(doc, buffers, n, b),
{
    match doc.nodes@[n.id as int].mesh {
        None => {},
        Some(mi) => {
            assert forall|k: int| 0 <= k < n.meshes@.len() implies mesh_ok(
                doc,
                buffers,
                doc.meshes@[mi as int].primitives@[k],
                mi,
                #[trigger] n.meshes@[k],
                b,
            ) by {
                assert(mesh_ok(doc, buffers, doc.meshes@[mi as int].primitives@[k], mi, n.meshes@[k], a));
            }
        },
    }
}

proof fn lemma_chain_step(doc: Document, n: Node, parent: Seq<usize>, id: usize, c: usize)
    requires
        chain_below(doc, n, parent.push(id), c),
        id < doc.nodes@.len(),
        doc.nodes@[id as int].children@.contains(c),
    ensures
        chain_below(doc, n, parent, id),
{
    let ch = n.transform_chain@;
    let p = parent.len() as int;
    assert(ch.subrange(0, p) =~= ch.subrange(0, p + 1).subrange(0, p));
    assert(parent.push(id).subrange(0, p) =~= parent);
    assert(ch.subrange(0, p + 1)[p] == parent.push(id)[p]);
    let tail = ch.subrange(p, ch.len() as int);
    let rest = ch.subrange(p + 1, ch.len() as int);
    assert forall|k: int| 0 <= k < tail.len() - 1 implies #[trigger] tail[k] < doc.nodes@.len()
        && doc.nodes@[tail[k] as int].children@.contains(tail[k + 1]) by {
        if k > 0 {
            assert(tail[k] == rest[k - 1]);
            assert(tail[k + 1] == rest[k]);
        }
    }
}

/// The ids in `v`, copied.
fn copy_ids(v: &Vec<usize>) -> (r: Vec<usize>)
    ensures
        r@ == v@,
{
    let mut r: Vec<usize> = Vec::new();
    let mut i: usize = 0;
    while i < v.len()
        invariant
            0 <= i <= v@.len(),
            r@ == v@.subrange(0, i as int),
        decreases v@.len() - i,
    {
        r.push(v[i]);
        proof {
            assert(r@ =~= v@.subrange(0, i + 1));
        }
        i = i + 1;
    }
    assert(v@.subrange(0, v@.len() as int) =~= v@);
    r
}

/// Walks the subtree below node `node_id`, depth first: reads the
/// primitives of its mesh, walks its children, then records the node, its
/// transform chain being `parent_chain` followed by `node_id`. A subtree
/// deeper than `depth` levels fails as a cycle.
pub fn insert_node(
    reader: &PrimitiveBufferReader,
    node_id: usize,
    nodes_out: &mut Vec<Node>,
    gltf_buffer_out: &mut GLTFBuffer,
    parent_chain: &Vec<usize>,
    depth: usize,
) -> (r: Result<(), Error>)
    requires
        old(gltf_buffer_out).texcoord@.len() >= 1,
    ensures
        arenas_extend(*old(gltf_buffer_out), *final(gltf_buffer_out)),
        r == walk_result(walk_error(*reader.gltf_info, buffer_bytes(*reader.buffer_map), node_id, depth as nat)),
        final(nodes_out)@.len() >= old(nodes_out)@.len(),
        forall|i: int| 0 <= i < old(nodes_out)@.len() ==> #[trigger] final(nodes_out)@[i] == old(nodes_out)@[i],
        node_id < reader.gltf_info.nodes@.len() && depth > 0 && own_error(
            *reader.gltf_info,
            buffer_bytes(*reader.buffer_map),
            node_id,
        ) is Some ==> final(nodes_out)@ == old(nodes_out)@,
        r is Ok ==> {
            &&& final(nodes_out)@.len() > old(nodes_out)@.len()
            &&& final(nodes_out)@.last().id == node_id
            &&& final(nodes_out)@.last().transform_chain@ == parent_chain@.push(node_id)
            &&& children_recorded(final(nodes_out)@, old(nodes_out)@.len() as int, final(nodes_out)@.len() as int)
            &&& walk_appended(
                *reader.gltf_info,
                buffer_bytes(*reader.buffer_map),
                node_id,
                depth as nat,
                *old(gltf_buffer_out),
                *final(gltf_buffer_out),
            )
            &&& node_ids(final(nodes_out)@) == node_ids(old(nodes_out)@) + walk_ids(*reader.gltf_info, node_id, depth as nat)
            &&& forall|i: int|
                old(nodes_out)@.len() <= i < final(nodes_out)@.len() ==> node_ok(
                    *reader.gltf_info,
                    buffer_bytes(*reader.buffer_map),
                    #[trigger] final(nodes_out)@[i],
                    *final(gltf_buffer_out),
                ) && chain_below(*reader.gltf_info, final(nodes_out)@[i], parent_chain@, node_id)
        },
    decreases depth,
{
    let ghost doc = *reader.gltf_info;
    let ghost buffers = buffer_bytes(*reader.buffer_map);
    let ghost a0 = *gltf_buffer_out;
    let ghost n0 = nodes_out@.len();
    proof {
        lemma_extend_refl(a0);
    }
    if node_id >= reader.gltf_info.nodes.len() {
        return Err(Error::MissingReference);
    }
    if depth == 0 {
        return Err(Error::NodeCycle);
    }
    let node = &reader.gltf_info.nodes[node_id];
    let mut meshes_out: Vec<Mesh> = Vec::new();
    match node.mesh {
        Some(mesh_id) => {
            if mesh_id >= reader.gltf_info.meshes.len() {
                return Err(Error::MissingReference);
            }
            let mesh = &reader.gltf_info.meshes[mesh_id];
            let mut k: usize = 0;
            while k < mesh.primitives.len()
                invariant
                    doc == *reader.gltf_info,
                    buffers == buffer_bytes(*reader.buffer_map),
                    a0 == *old(gltf_buffer_out),
                    node_id < doc.nodes@.len(),
                    *node == doc.nodes@[node_id as int],
                    node.mesh == Some(mesh_id),
                    depth > 0,
                    mesh_id < doc.meshes@.len(),
                    *mesh == doc.meshes@[mesh_id as int],
                    0 <= k <= mesh.primitives@.len(),
                    meshes_out@.len() == k,
                    nodes_out@ == old(nodes_out)@,
                    prims_error(doc, buffers, mesh.primitives@, mesh_id, 0) == prims_error(
                        doc,
                        buffers,
                        mesh.primitives@,
                        mesh_id,
                        k as int,
                    ),
                    arenas_extend(a0, *gltf_buffer_out),
                    gltf_buffer_out.texcoord@.len() >= 1,
                    forall|sel: int|
                        0 <= sel < 5 ==> arena(a0, sel) + prims_bytes(doc, buffers, mesh.primitives@, 0, sel)
                            == #[trigger] arena(*gltf_buffer_out, sel) + prims_bytes(
                            doc,
                            buffers,
                            mesh.primitives@,
                            k as int,
                            sel,
                        ),
                    forall|j: int|
                        0 <= j < k ==> mesh_ok(
                            doc,
                            buffers,
                            mesh.primitives@[j],
                            mesh_id,
                            #[trigger] meshes_out@[j],
                            *gltf_buffer_out,
                        ),
                decreases mesh.primitives@.len() - k,
            {
                let ghost before = *gltf_buffer_out;
                let m = read_primitive(reader, &mesh.primitives[k], mesh_id, gltf_buffer_out);
                match m {
                    Ok(m) => {
                        meshes_out.push(m);
                    },
                    Err(e) => {
                        proof {
                            lemma_extend_trans(a0, before, *gltf_buffer_out);
                            assert(prims_error(doc, buffers, mesh.primitives@, mesh_id, k as int) == Some(e));
                            assert(walk_error(doc, buffers, node_id, depth as nat) == Some(e));
                        }
                        return Err(e);
                    },
                }
                proof {
                    lemma_extend_trans(a0, before, *gltf_buffer_out);
                    assert forall|sel: int| 0 <= sel < 5 implies arena(a0, sel) + prims_bytes(
                        doc,
                        buffers,
                        mesh.primitives@,
                        0,
                        sel,
                    ) == #[trigger] arena(*gltf_buffer_out, sel) + prims_bytes(
                        doc,
                        buffers,
                        mesh.primitives@,
                        k + 1,
                        sel,
                    ) by {
                        let pb = prim_bytes(doc, buffers, mesh.primitives@[k as int], sel);
                        let rest = prims_bytes(doc, buffers, mesh.primitives@, k + 1, sel);
                        assert(prims_bytes(doc, buffers, mesh.primitives@, k as int, sel) == pb + rest);
                        assert(arena(*gltf_buffer_out, sel) == arena(before, sel) + pb);
                        assert(arena(before, sel) + (pb + rest) =~= (arena(before, sel) + pb) + rest);
                    }
                    assert(prims_error(doc, buffers, mesh.primitives@, mesh_id, k as int) == prims_error(
                        doc,
                        buffers,
                        mesh.primitives@,
                        mesh_id,
                        k + 1,
                    ));
                    assert forall|j: int| 0 <= j < k + 1 implies mesh_ok(
                        doc,
                        buffers,
                        mesh.primitives@[j],
                        mesh_id,
                        #[trigger] meshes_out@[j],
                        *gltf_buffer_out,
                    ) by {
                        if j < k {
                            lemma_mesh_extend(doc, buffers, mesh.primitives@[j], mesh_id, meshes_out@[j], before, *gltf_buffer_out);
                        }
                    }
                }
                k = k + 1;
            }
        },
        None => {},
    }
    proof {
        match node.mesh {
            Some(mi) => {
                assert(prims_error(doc, buffers, doc.meshes@[mi as int].primitives@, mi, doc.meshes@[mi as int].primitives@.len() as int) is None);
            },
            None => {},
        }
        assert(walk_error(doc, buffers, node_id, depth as nat) == children_error(
            doc,
            buffers,
            node.children@,
            0,
            (depth - 1) as nat,
        ));
    }
    let mut chain = copy_ids(parent_chain);
    chain.push(node_id);
    let ghost a1 = *gltf_buffer_out;
    let ghost f = (depth - 1) as nat;
    proof {
        lemma_extend_refl(a1);
        assert forall|sel: int| 0 <= sel < 5 implies #[trigger] arena(a0, sel) + walk_bytes(
            doc,
            buffers,
            node_id,
            depth as nat,
            sel,
        ) == arena(a1, sel) + children_bytes(doc, buffers, node.children@, 0, f, sel) by {
            match node.mesh {
                Some(mi) => {
                    let own = prims_bytes(doc, buffers, doc.meshes@[mi as int].primitives@, 0, sel);
                    assert(prims_bytes(doc, buffers, doc.meshes@[mi as int].primitives@, doc.meshes@[mi as int].primitives@.len() as int, sel) =~= Seq::<u8>::empty());
                    assert(arena(a1, sel) =~= arena(a0, sel) + own);
                    assert(arena(a0, sel) + (own + children_bytes(doc, buffers, node.children@, 0, f, sel))
                        =~= (arena(a0, sel) + own) + children_bytes(doc, buffers, node.children@, 0, f, sel));
                },
                None => {
                    assert(Seq::<u8>::empty() + children_bytes(doc, buffers, node.children@, 0, f, sel)
                        =~= children_bytes(doc, buffers, node.children@, 0, f, sel));
                },
            }
        }
        assert(walk_ids(doc, node_id, depth as nat) == children_ids(doc, node.children@, 0, f).push(node_id));
    }
    let mut c: usize = 0;
    while c < node.children.len()
        invariant
            doc == *reader.gltf_info,
            buffers == buffer_bytes(*reader.buffer_map),
            a0 == *old(gltf_buffer_out),
            node_id < doc.nodes@.len(),
            *node == doc.nodes@[node_id as int],
            depth > 0,
            chain@ == parent_chain@.push(node_id),
            0 <= c <= node.children@.len(),
            arenas_extend(a0, a1),
            arenas_extend(a1, *gltf_buffer_out),
            gltf_buffer_out.texcoord@.len() >= 1,
            match node.mesh {
                None => meshes_out@.len() == 0,
                Some(mi) => {
                    &&& mi < doc.meshes@.len()
                    &&& meshes_out@.len() == doc.meshes@[mi as int].primitives@.len()
                    &&& forall|k: int|
                        0 <= k < meshes_out@.len() ==> mesh_ok(
                            doc,
                            buffers,
                            doc.meshes@[mi as int].primitives@[k],
                            mi,
                            #[trigger] meshes_out@[k],
                            a1,
                        )
                },
            },
            nodes_out@.len() >= n0,
            n0 == old(nodes_out)@.len(),
            forall|i: int| 0 <= i < n0 ==> #[trigger] nodes_out@[i] == old(nodes_out)@[i],
            forall|i: int|
                n0 <= i < nodes_out@.len() ==> node_ok(doc, buffers, #[trigger] nodes_out@[i], *gltf_buffer_out)
                    && chain_below(doc, nodes_out@[i], parent_chain@, node_id),
            walk_error(doc, buffers, node_id, depth as nat) == children_error(
                doc,
                buffers,
                node.children@,
                c as int,
                (depth - 1) as nat,
            ),
            children_recorded(nodes_out@, n0 as int, nodes_out@.len() as int),
            f == (depth - 1) as nat,
            forall|sel: int|
                0 <= sel < 5 ==> arena(a0, sel) + walk_bytes(doc, buffers, node_id, depth as nat, sel)
                    == #[trigger] arena(*gltf_buffer_out, sel) + children_bytes(
                    doc,
                    buffers,
                    node.children@,
                    c as int,
                    f,
                    sel,
                ),
            gltf_buffer_out.shared_data@ == a0.shared_data@,
            gltf_buffer_out.bi_tangent@ == a0.bi_tangent@,
            own_error(doc, buffers, node_id) is None,
            node_ids(old(nodes_out)@) + children_ids(doc, node.children@, 0, f) == node_ids(nodes_out@)
                + children_ids(doc, node.children@, c as int, f),
            forall|kk: int|
                #![trigger node.children@[kk]]
                0 <= kk < c ==> exists|j: int|
                    #![trigger nodes_out@[j]]
                    n0 <= j < nodes_out@.len() && nodes_out@[j].id == node.children@[kk]
                        && nodes_out@[j].transform_chain@ == chain@.push(node.children@[kk]),
        decreases node.children@.len() - c,
    {
        let ghost before = *gltf_buffer_out;
        let ghost nodes_before = nodes_out@;
        let child = node.children[c];
        let res = insert_node(reader, child, nodes_out, gltf_buffer_out, &chain, depth - 1);
        proof {
            lemma_extend_trans(a1, before, *gltf_buffer_out);
        }
        match res {
            Ok(()) => {},
            Err(e) => {
                proof {
                    lemma_extend_trans(a0, a1, *gltf_buffer_out);
                    assert(children_error(doc, buffers, node.children@, c as int, (depth - 1) as nat) == Some(e));
                }
                return Err(e);
            },
        }
        assert(children_error(doc, buffers, node.children@, c as int, (depth - 1) as nat) == children_error(
            doc,
            buffers,
            node.children@,
            c + 1,
            (depth - 1) as nat,
        ));
        proof {
            assert forall|sel: int| 0 <= sel < 5 implies arena(a0, sel) + walk_bytes(
                doc,
                buffers,
                node_id,
                depth as nat,
                sel,
            ) == #[trigger] arena(*gltf_buffer_out, sel) + children_bytes(
                doc,
                buffers,
                node.children@,
                c + 1,
                f,
                sel,
            ) by {
                let wb = walk_bytes(doc, buffers, child, f, sel);
                let rest = children_bytes(doc, buffers, node.children@, c + 1, f, sel);
                assert(children_bytes(doc, buffers, node.children@, c as int, f, sel) == wb + rest);
                assert(arena(*gltf_buffer_out, sel) == arena(before, sel) + wb);
                assert(arena(before, sel) + (wb + rest) =~= (arena(before, sel) + wb) + rest);
            }
            let wi = walk_ids(doc, child, f);
            let irest = children_ids(doc, node.children@, c + 1, f);
            assert(children_ids(doc, node.children@, c as int, f) == wi + irest);
            assert(node_ids(nodes_before) + (wi + irest) =~= (node_ids(nodes_before) + wi) + irest);
            assert(node.children@.contains(child)) by {
                assert(node.children@[c as int] == child);
            }
            assert forall|i: int| n0 <= i < nodes_out@.len() implies node_ok(
                doc,
                buffers,
                #[trigger] nodes_out@[i],
                *gltf_buffer_out,
            ) && chain_below(doc, nodes_out@[i], parent_chain@, node_id) by {
                if i < nodes_before.len() {
                    assert(nodes_out@[i] == nodes_before[i]);
                    lemma_node_extend(doc, buffers, nodes_out@[i], before, *gltf_buffer_out);
                } else {
                    lemma_chain_step(doc, nodes_out@[i], parent_chain@, node_id, child);
                }
            }
            assert forall|i: int| 0 <= i < n0 implies #[trigger] nodes_out@[i] == old(nodes_out)@[i] by {
                assert(nodes_out@[i] == nodes_before[i]);
            }
            let l1 = nodes_before.len() as int;
            let l2 = nodes_out@.len() as int;
            lemma_found_widen(nodes_before, nodes_out@, n0 as int, l1, n0 as int, l1, n0 as int, l2);
            lemma_found_widen(nodes_out@, nodes_out@, l1, l2, l1, l2, n0 as int, l2);
            lemma_found_union(nodes_out@, n0 as int, l1, l2, n0 as int, l2);
            assert forall|kk: int|
                #![trigger node.children@[kk]]
                0 <= kk < c + 1 implies exists|j: int|
                    #![trigger nodes_out@[j]]
                    n0 <= j < nodes_out@.len() && nodes_out@[j].id == node.children@[kk]
                        && nodes_out@[j].transform_chain@ == chain@.push(node.children@[kk]) by {
                if kk < c {
                    let j = choose|j: int|
                        #![trigger nodes_before[j]]
                        n0 <= j < nodes_before.len() && nodes_before[j].id == node.children@[kk]
                            && nodes_before[j].transform_chain@ == chain@.push(node.children@[kk]);
                    assert(nodes_out@[j] == nodes_before[j]);
                } else {
                    assert(nodes_out@[l2 - 1] == nodes_out@.last());
                }
            }
        }
        c = c + 1;
    }
    let name = match &node.name {
        Some(s) => Some(s.clone()),
        None => None,
    };
    let children = copy_ids(&node.children);
    let ghost chain_v = chain@;
    let node_out = Node { id: node_id, name, meshes: meshes_out, transform_chain: chain, children };
    proof {
        lemma_extend_trans(a0, a1, *gltf_buffer_out);
        match node.mesh {
            None => {},
            Some(mi) => {
                assert forall|k: int| 0 <= k < node_out.meshes@.len() implies mesh_ok(
                    doc,
                    buffers,
                    doc.meshes@[mi as int].primitives@[k],
                    mi,
                    #[trigger] node_out.meshes@[k],
                    *gltf_buffer_out,
                ) by {
                    lemma_mesh_extend(doc, buffers, doc.meshes@[mi as int].primitives@[k], mi, node_out.meshes@[k], a1, *gltf_buffer_out);
                }
            },
        }
        assert(chain_v.subrange(0, parent_chain@.len() as int) =~= parent_chain@);
        assert(chain_v.subrange(parent_chain@.len() as int, chain_v.len() as int) =~= seq![node_id]);
    }
    let ghost nodes_before = nodes_out@;
    let ghost parent_node = node_out;
    nodes_out.push(node_out);
    proof {
        let l = nodes_before.len() as int;
        assert forall|k: int| 0 <= k < nodes_before.len() implies #[trigger] nodes_out@[k] == nodes_before[k] by {}
        lemma_found_widen(nodes_before, nodes_out@, n0 as int, l, n0 as int, l, n0 as int, l + 1);
        assert forall|i: int, cc: int| l <= i < l + 1 && 0 <= cc < nodes_out@[i].children@.len() implies #[trigger] child_recorded(
            nodes_out@,
            nodes_out@[i],
            cc,
            n0 as int,
            l + 1,
        ) by {
            assert(nodes_out@[i] == parent_node);
            assert(node.children@[cc] == parent_node.children@[cc]);
            let j = choose|j: int|
                #![trigger nodes_before[j]]
                n0 <= j < nodes_before.len() && nodes_before[j].id == node.children@[cc]
                    && nodes_before[j].transform_chain@ == chain_v.push(node.children@[cc]);
            assert(nodes_out@[j] == nodes_before[j]);
            assert(child_at(nodes_out@, j, parent_node, cc));
        }
        lemma_found_union(nodes_out@, n0 as int, l, l + 1, n0 as int, l + 1);
        assert(children_ids(doc, node.children@, node.children@.len() as int, f) =~= Seq::<usize>::empty());
        assert(node_ids(nodes_out@) =~= node_ids(nodes_before).push(node_id));
        assert(node_ids(old(nodes_out)@) + children_ids(doc, node.children@, 0, f).push(node_id)
            =~= (node_ids(old(nodes_out)@) + children_ids(doc, node.children@, 0, f)).push(node_id));
        assert(node_ids(nodes_before) =~= node_ids(nodes_before) + Seq::<usize>::empty());
        assert forall|sel: int| 0 <= sel < 5 implies #[trigger] arena(*gltf_buffer_out, sel) == arena(a0, sel)
            + walk_bytes(doc, buffers, node_id, depth as nat, sel) by {
            assert(children_bytes(doc, buffers, node.children@, node.children@.len() as int, f, sel) =~= Seq::<u8>::empty());
            assert(arena(*gltf_buffer_out, sel) + Seq::<u8>::empty() =~= arena(*gltf_buffer_out, sel));
        }
        assert forall|i: int| 0 <= i < n0 implies #[trigger] nodes_out@[i] == old(nodes_out)@[i] by {
            assert(nodes_out@[i] == nodes_before[i]);
        }
        assert forall|i: int| n0 <= i < nodes_out@.len() implies node_ok(
            doc,
            buffers,
            #[trigger] nodes_out@[i],
            *gltf_buffer_out,
        ) && chain_below(doc, nodes_out@[i], parent_chain@, node_id) by {
            if i < nodes_before.len() {
                assert(nodes_out@[i] == nodes_before[i]);
            }
        }
    }
    Ok(())
}

} // verus!
