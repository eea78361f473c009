//! Tangent-space bookkeeping: which meshes get tangents and bitangents, the
//! triangles they are computed over, and appending the computed vectors to
//! the arenas. The vectors are 32-bit floats, computed by the caller per
//! triangle and handed over as bit patterns.
use vstd::prelude::*;
use crate::gltf::{GLTFBuffer, LoadOption, Mesh, SceneView};

verus! {

/// The little-endian value of four bytes.
pub open spec fn le_u32(b0: u8, b1: u8, b2: u8, b3: u8) -> int {
    b0 + 256 * b1 + 65536 * b2 + 16777216 * b3
}

/// The little-endian bytes of `w`.
pub open spec fn le_bytes(w: u32) -> Seq<u8> {
    seq![
        (w % 256) as u8,
        ((w / 256) % 256) as u8,
        ((w / 65536) % 256) as u8,
        ((w / 16777216) % 256) as u8,
    ]
}

/// The little-endian bytes of each word of `ws`, in order.
pub open spec fn words_le(ws: Seq<u32>) -> Seq<u8>
    decreases ws.len(),
{
    if ws.len() == 0 {
        Seq::empty()
    } else {
        words_le(ws.drop_last()) + le_bytes(ws.last())
    }
}

/// Index `k` of a mesh whose indices are the 4-byte words of `arena` from
/// `start` on.
pub open spec fn index_at(arena: Seq<u8>, start: int, k: int) -> int {
    le_u32(arena[start + 4 * k], arena[start + 4 * k + 1], arena[start + 4 * k + 2], arena[start + 4 * k + 3])
}

/// The tangent (with a handedness of 1) and bitangent of one triangle, as
/// bit patterns of 32-bit floats.
#[derive(Debug, Clone, Copy, PartialEq, Eq)]
pub struct TriangleFrame {
    pub tangent: [u32; 4],
    pub bitangent: [u32; 3],
}

/// The words of the tangents of `frames`, four per triangle.
pub open spec fn tangent_words(frames: Seq<TriangleFrame>) -> Seq<u32> {
    Seq::new(4 * frames.len(), |i: int| frames[i / 4].tangent[i % 4])
}

/// The words of the bitangents of `frames`, three per triangle.
pub open spec fn bitangent_words(frames: Seq<TriangleFrame>) -> Seq<u32> {
    Seq::new(3 * frames.len(), |i: int| frames[i / 3].bitangent[i % 3])
}

/// The meshes that tangent synthesis covers: with the option set, every mesh
/// that has texture coordinates.
pub open spec fn tbn_target(view: SceneView, option: LoadOption, i: int, k: int) -> bool {
    &&& option.gen_tbn
    &&& 0 <= i < view.nodes@.len()
    &&& 0 <= k < view.nodes@[i].meshes@.len()
    &&& view.nodes@[i].meshes@[k].uv0 is Some
}

/// Appends the little-endian bytes of `w` to `out`.
fn push_word(w: u32, out: &mut Vec<u8>)
    ensures
        final(out)@ == old(out)@ + le_bytes(w),
{
    out.push((w % 256) as u8);
    out.push(((w / 256) % 256) as u8);
    out.push(((w / 65536) % 256) as u8);
    out.push(((w / 16777216) % 256) as u8);
    assert(out@ =~= old(out)@ + le_bytes(w));
}

/// Appends the little-endian bytes of each word of `ws` to `out`.
fn push_words(ws: &Vec<u32>, out: &mut Vec<u8>)
    ensures
        final(out)@ == old(out)@ + words_le(ws@),
{
    let ghost base = out@;
    let mut i: usize = 0;
    assert(ws@.subrange(0, 0) =~= Seq::<u32>::empty());
    assert(out@ =~= base + words_le(Seq::<u32>::empty()));
    while i < ws.len()
        invariant
            0 <= i <= ws@.len(),
            out@ == base + words_le(ws@.subrange(0, i as int)),
        decreases ws@.len() - i,
    {
        push_word(ws[i], out);
        proof {
            let next = ws@.subrange(0, i + 1);
            assert(next.drop_last() =~= ws@.subrange(0, i as int));
            assert(next.last() == ws@[i as int]);
            assert(out@ =~= base + words_le(next));
        }
        i = i + 1;
    }
    assert(ws@.subrange(0, ws@.len() as int) =~= ws@);
}

/// The (node, mesh) positions, in order, of the meshes that tangent
/// synthesis covers.
pub fn tbn_targets(view: &SceneView, option: LoadOption) -> (r: Vec<(usize, usize)>)
    ensures
        forall|t: int| 0 <= t < r@.len() ==> tbn_target(*view, option, #[trigger] r@[t].0 as int, r@[t].1 as int),
        forall|t: int, u: int| 0 <= t < u < r@.len() ==> (#[trigger] r@[t].0 < #[trigger] r@[u].0 || (r@[t].0 == r@[u].0 && r@[t].1 < r@[u].1)),
        forall|i: int, k: int| tbn_target(*view, option, i, k) ==> exists|t: int| 0 <= t < r@.len() && #[trigger] r@[t] == (i as usize, k as usize),
{
    let mut r: Vec<(usize, usize)> = Vec::new();
    if !option.gen_tbn {
        return r;
    }
    let mut i: usize = 0;
    while i < view.nodes.len()
        invariant
            option.gen_tbn,
            0 <= i <= view.nodes@.len(),
            forall|t: int| 0 <= t < r@.len() ==> tbn_target(*view, option, #[trigger] r@[t].0 as int, r@[t].1 as int) && r@[t].0 < i,
            forall|t: int, u: int| 0 <= t < u < r@.len() ==> (#[trigger] r@[t].0 < #[trigger] r@[u].0 || (r@[t].0 == r@[u].0 && r@[t].1 < r@[u].1)),
            forall|a: int, k: int| 0 <= a < i && tbn_target(*view, option, a, k) ==> exists|t: int| 0 <= t < r@.len() && #[trigger] r@[t] == (a as usize, k as usize),
        decreases view.nodes@.len() - i,
    {
        let meshes = &view.nodes[i].meshes;
        let mut k: usize = 0;
        let ghost r0 = r@;
        while k < meshes.len()
            invariant
                option.gen_tbn,
                0 <= i < view.nodes@.len(),
                *meshes == view.nodes@[i as int].meshes,
                0 <= k <= meshes@.len(),
                r@.len() >= r0.len(),
                r@.subrange(0, r0.len() as int) == r0,
                forall|t: int| 0 <= t < r0.len() ==> #[trigger] r0[t].0 < i,
                forall|t: int| 0 <= t < r@.len() ==> tbn_target(*view, option, #[trigger] r@[t].0 as int, r@[t].1 as int) && r@[t].0 <= i,
                forall|t: int| #![trigger r@[t]] r0.len() <= t < r@.len() ==> r@[t].0 == i && r@[t].1 < k,
                forall|t: int, u: int| 0 <= t < u < r@.len() ==> (#[trigger] r@[t].0 < #[trigger] r@[u].0 || (r@[t].0 == r@[u].0 && r@[t].1 < r@[u].1)),
                forall|a: int, kk: int| 0 <= a < i && tbn_target(*view, option, a, kk) ==> exists|t: int| 0 <= t < r@.len() && #[trigger] r@[t] == (a as usize, kk as usize),
                forall|kk: int| 0 <= kk < k && tbn_target(*view, option, i as int, kk) ==> exists|t: int| 0 <= t < r@.len() && #[trigger] r@[t] == (i, kk as usize),
            decreases meshes@.len() - k,
        {
            if meshes[k].uv0.is_some() {
                let ghost before = r@;
                r.push((i, k));
                proof {
                    assert forall|t: int| 0 <= t < before.len() implies #[trigger] r@[t] == before[t] by {}
                    assert(r@.subrange(0, r0.len() as int) =~= before.subrange(0, r0.len() as int));
                    assert(r@[before.len() as int] == (i, k));
                    assert forall|a: int, kk: int| 0 <= a < i && tbn_target(*view, option, a, kk) implies exists|t: int| 0 <= t < r@.len() && #[trigger] r@[t] == (a as usize, kk as usize) by {
                        let t = choose|t: int| 0 <= t < before.len() && #[trigger] before[t] == (a as usize, kk as usize);
                        assert(r@[t] == before[t]);
                    }
                    assert forall|kk: int| 0 <= kk < k + 1 && tbn_target(*view, option, i as int, kk) implies exists|t: int| 0 <= t < r@.len() && #[trigger] r@[t] == (i, kk as usize) by {
                        if kk < k {
                            let t = choose|t: int| 0 <= t < before.len() && #[trigger] before[t] == (i, kk as usize);
                            assert(r@[t] == before[t]);
                        } else {
                            assert(r@[before.len() as int] == (i, kk as usize));
                        }
                    }
                    assert forall|t: int| #![trigger r@[t]] r0.len() <= t < r@.len() implies r@[t].0 == i && r@[t].1 < k + 1 by {
                        if t < before.len() {
                            assert(r@[t] == before[t]);
                        }
                    }
                    assert forall|t: int, u: int| 0 <= t < u < r@.len() implies (#[trigger] r@[t].0 < #[trigger] r@[u].0 || (r@[t].0 == r@[u].0 && r@[t].1 < r@[u].1)) by {
                        if u == before.len() {
                            assert(r@[t] == before[t]);
                            if t < r0.len() {
                                assert(r0[t] == before.subrange(0, r0.len() as int)[t]);
                            }
                        } else {
                            assert(r@[t] == before[t]);
                            assert(r@[u] == before[u]);
                        }
                    }
                }
            }
            k = k + 1;
        }
        i = i + 1;
    }
    r
}

impl Mesh {
    /// The index triples of the mesh's triangles, where tangent synthesis can
    /// run on it: it has texture coordinates, whole triangles, an index range
    /// inside the index arena, and no index past its vertices.
    pub fn triangles(&self, buffer: &GLTFBuffer) -> (r: Option<Vec<[u32; 3]>>)
        ensures
            r is Some <==> {
                &&& self.uv0 is Some
                &&& self.index.count % 3 == 0
                &&& self.index.indices.start <= self.index.indices.end <= buffer.index@.len()
                &&& self.index.indices.end - self.index.indices.start == 4 * self.index.count
                &&& forall|k: int| 0 <= k < self.index.count ==> #[trigger] index_at(buffer.index@, self.index.indices.start as int, k) < self.vertex_count
            },
            r matches Some(ts) ==> {
                &&& ts@.len() == self.index.count / 3
                &&& forall|t: int, c: int| 0 <= t < ts@.len() && 0 <= c < 3 ==> #[trigger] ts@[t][c] as int == index_at(buffer.index@, self.index.indices.start as int, 3 * t + c)
            },
    {
        if self.uv0.is_none() || self.index.count % 3 != 0 {
            return None;
        }
        let start = self.index.indices.start;
        let end = self.index.indices.end;
        let count = self.index.count;
        if !(start <= end && end <= buffer.index.len()) || (end - start) / 4 != count || (end - start) % 4 != 0 {
            return None;
        }
        let ghost arena = buffer.index@;
        let mut ts: Vec<[u32; 3]> = Vec::new();
        let mut words: [u32; 3] = [0, 0, 0];
        let mut k: usize = 0;
        while k < count
            invariant
                arena == buffer.index@,
                start <= end <= arena.len(),
                end - start == 4 * count,
                count % 3 == 0,
                count == self.index.count,
                start == self.index.indices.start,
                0 <= k <= count,
                ts@.len() == k / 3,
                forall|j: int| 0 <= j < k ==> #[trigger] index_at(arena, start as int, j) < self.vertex_count,
                forall|t: int, c: int| 0 <= t < ts@.len() && 0 <= c < 3 ==> #[trigger] ts@[t][c] as int == index_at(arena, start as int, 3 * t + c),
                forall|c: int| 0 <= c < k % 3 ==> #[trigger] words[c] as int == index_at(arena, start as int, k - k % 3 + c),
            decreases count - k,
        {
            let p = start + 4 * k;
            let w = buffer.index[p] as u32 + (buffer.index[p + 1] as u32) * 256 + (buffer.index[p + 2] as u32) * 65536 + (buffer.index[p + 3] as u32) * 16777216;
            assert(w as int == index_at(arena, start as int, k as int));
            if w as usize >= self.vertex_count {
                return None;
            }
            let c = k % 3;
            words[c] = w;
            if c == 2 {
                ts.push(words);
                proof {
                    assert forall|t: int, cc: int| 0 <= t < ts@.len() && 0 <= cc < 3 implies #[trigger] ts@[t][cc] as int == index_at(arena, start as int, 3 * t + cc) by {
                        if t == ts@.len() - 1 {
                            assert(k - k % 3 == 3 * t);
                        }
                    }
                }
            }
            k = k + 1;
        }
        Some(ts)
    }

    /// Appends the computed frames of the mesh's triangles, one frame per
    /// triangle: every bitangent, and every tangent unless the mesh already
    /// has tangents, which are kept. A mesh without texture coordinates, or
    /// frames that are not one per triangle, leave mesh and arenas as they are.
    pub fn gen_tbn(&mut self, buffer: &mut GLTFBuffer, frames: &Vec<TriangleFrame>)
        ensures
            old(self).uv0 is None || frames@.len() != old(self).index.count / 3 ==> {
                &&& *final(self) == *old(self)
                &&& *final(buffer) == *old(buffer)
            },
            old(self).uv0 is Some && frames@.len() == old(self).index.count / 3 ==> {
                &&& final(self).bi_tangents matches Some(rg) && rg.start == old(buffer).bi_tangent@.len()
                    && rg.end == final(buffer).bi_tangent@.len()
                &&& final(buffer).bi_tangent@ == old(buffer).bi_tangent@ + words_le(bitangent_words(frames@))
                &&& old(self).tangents is Some ==> {
                    &&& final(self).tangents == old(self).tangents
                    &&& final(buffer).tangent@ == old(buffer).tangent@
                }
                &&& old(self).tangents is None ==> {
                    &&& final(self).tangents matches Some(rg) && rg.start == old(buffer).tangent@.len()
                        && rg.end == final(buffer).tangent@.len()
                    &&& final(buffer).tangent@ == old(buffer).tangent@ + words_le(tangent_words(frames@))
                }
            },
            final(buffer).positions == old(buffer).positions,
            final(buffer).normal == old(buffer).normal,
            final(buffer).texcoord == old(buffer).texcoord,
            final(buffer).index == old(buffer).index,
            final(buffer).shared_data == old(buffer).shared_data,
            final(self).id == old(self).id,
            final(self).index == old(self).index,
            final(self).vertex_count == old(self).vertex_count,
            final(self).vertex_type_size == old(self).vertex_type_size,
            final(self).positions == old(self).positions,
            final(self).normals == old(self).normals,
            final(self).uv0 == old(self).uv0,
            final(self).mode == old(self).mode,
            final(self).mat == old(self).mat,
    {
        if self.uv0.is_none() || frames.len() != self.index.count / 3 {
            return;
        }
        let has_tangent = self.tangents.is_some();
        let mut bi_words: Vec<u32> = Vec::new();
        let mut tan_words: Vec<u32> = Vec::new();
        let mut t: usize = 0;
        while t < frames.len()
            invariant
                0 <= t <= frames@.len(),
                bi_words@ == bitangent_words(frames@.subrange(0, t as int)),
                tan_words@ == tangent_words(frames@.subrange(0, t as int)),
            decreases frames@.len() - t,
        {
            let f = frames[t];
            let ghost prev = frames@.subrange(0, t as int);
            let ghost next = frames@.subrange(0, t + 1);
            bi_words.push(f.bitangent[0]);
            bi_words.push(f.bitangent[1]);
            bi_words.push(f.bitangent[2]);
            tan_words.push(f.tangent[0]);
            tan_words.push(f.tangent[1]);
            tan_words.push(f.tangent[2]);
            tan_words.push(f.tangent[3]);
            proof {
                assert forall|i: int| 0 <= i < 3 * next.len() implies #[trigger] bi_words@[i] == next[i / 3].bitangent[i % 3] by {
                    if i < 3 * t {
                        assert(next[i / 3] == prev[i / 3]);
                    } else {
                        assert(i / 3 == t as int);
                    }
                }
                assert(bi_words@ =~= bitangent_words(next));
                assert forall|i: int| 0 <= i < 4 * next.len() implies #[trigger] tan_words@[i] == next[i / 4].tangent[i % 4] by {
                    if i < 4 * t {
                        assert(next[i / 4] == prev[i / 4]);
                    } else {
                        assert(i / 4 == t as int);
                    }
                }
                assert(tan_words@ =~= tangent_words(next));
            }
            t = t + 1;
        }
        assert(frames@.subrange(0, frames@.len() as int) =~= frames@);
        let start = buffer.bi_tangent.len();
        push_words(&bi_words, &mut buffer.bi_tangent);
        self.bi_tangents = Some(start..buffer.bi_tangent.len());
        if !has_tangent {
            let start = buffer.tangent.len();
            push_words(&tan_words, &mut buffer.tangent);
            self.tangents = Some(start..buffer.tangent.len());
        }
    }
}

} // verus!
