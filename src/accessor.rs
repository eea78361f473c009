//! Reading accessors and buffer views out of resolved buffers into arenas.
use vstd::prelude::*;
use vstd::math::min;
use vstd::arithmetic::div_mod::lemma_fundamental_div_mod;
use vstd::arithmetic::div_mod::lemma_fundamental_div_mod_converse;
use std::collections::BTreeMap;
use std::ops::Range;
use crate::document::{Accessor, BufferView, ComponentType, Document};
use crate::error::Error;
use crate::gltf::{Index, IndexType};

verus! {

broadcast use vstd::std_specs::btree::group_btree_axioms;

/// Resolved buffers, by buffer index.
pub type BufferMap = BTreeMap<usize, Vec<u8>>;

/// The bytes of each resolved buffer.
pub open spec fn buffer_bytes(m: BufferMap) -> Map<usize, Seq<u8>> {
    m@.map_values(|v: Vec<u8>| v@)
}

/// Number of `stride`-sized chunks (the last one possibly short) in `len` bytes.
pub open spec fn chunk_count(len: int, stride: int) -> int {
    if len % stride == 0 { len / stride } else { len / stride + 1 }
}

/// Every `stride`-sized chunk of `len` bytes, the last one included, has room
/// for `size` bytes.
pub open spec fn strided_fits(len: int, stride: int, size: int) -> bool {
    size <= stride && (len % stride == 0 || len % stride >= size)
}

/// The first `size` bytes of each `stride`-sized chunk of `src`, in order.
pub open spec fn strided_copy(src: Seq<u8>, stride: int, size: int) -> Seq<u8> {
    Seq::new(
        (chunk_count(src.len() as int, stride) * size) as nat,
        |i: int| src[(i / size) * stride + i % size],
    )
}

/// The bytes that a read of `view` yields, starting `offset` bytes into it and
/// at most `possible_length` long; with a stride, only the first `type_size`
/// bytes of each stride are kept.
pub open spec fn view_read(
    offset: int,
    view: BufferView,
    buffers: Map<usize, Seq<u8>>,
    possible_length: Option<usize>,
    type_size: Option<usize>,
) -> Result<Seq<u8>, Error> {
    let start = offset + view.byte_offset;
    let length = match possible_length {
        Some(l) => min(l as int, view.byte_length as int),
        None => view.byte_length as int,
    };
    if !buffers.contains_key(view.buffer) {
        Err(Error::FailedGetBuffer)
    } else if start + length > buffers[view.buffer].len() {
        Err(Error::FailedToGetU8Data)
    } else {
        let slice = buffers[view.buffer].subrange(start, start + length);
        match view.byte_stride {
            Some(s) if s > 0 => match type_size {
                None => Err(Error::FailedGetBuffer),
                Some(t) => if strided_fits(length, s as int, t as int) {
                    Ok(strided_copy(slice, s as int, t as int))
                } else {
                    Err(Error::FailedToGetU8Data)
                },
            },
            _ => Ok(slice),
        }
    }
}

/// `r` reports what appending `expect` to an arena that held `before` gives:
/// on success the arena holds `after` and `r` is the appended range; on
/// failure the arena is unchanged and `r` is the same error.
pub open spec fn appended(
    r: Result<Range<usize>, Error>,
    before: Seq<u8>,
    after: Seq<u8>,
    expect: Result<Seq<u8>, Error>,
) -> bool {
    match expect {
        Ok(bytes) => {
            &&& after == before + bytes
            &&& r is Ok
            &&& r->Ok_0.start == before.len()
            &&& r->Ok_0.end == after.len()
        },
        Err(e) => after == before && r == Err::<Range<usize>, Error>(e),
    }
}

proof fn lemma_chunk_in_bounds(len: int, s: int, t: int, k: int, j: int)
    requires
        0 < s,
        0 <= len,
        strided_fits(len, s, t),
        0 <= k < chunk_count(len, s),
        0 <= j < t,
    ensures
        0 <= k * s + j < len,
{
    lemma_fundamental_div_mod(len, s);
    let q = len / s;
    let r = len % s;
    assert(0 <= r < s);
    if r == 0 {
        assert(k <= q - 1);
        assert(k * s <= (q - 1) * s) by (nonlinear_arith)
            requires
                k <= q - 1,
                0 < s,
        ;
        assert((q - 1) * s + s == s * q) by (nonlinear_arith);
    } else {
        assert(k <= q);
        if k < q {
            assert(k * s <= (q - 1) * s) by (nonlinear_arith)
                requires
                    k <= q - 1,
                    0 < s,
            ;
            assert((q - 1) * s + s == s * q) by (nonlinear_arith);
        } else {
            assert(k * s == s * q) by (nonlinear_arith)
                requires
                    k == q,
            ;
        }
    }
    assert(0 <= k * s) by (nonlinear_arith)
        requires
            0 <= k,
            0 < s,
    ;
}

proof fn lemma_chunk_count_bound(len: int, s: int)
    requires
        0 < s,
        0 <= len,
    ensures
        0 <= chunk_count(len, s) <= len,
        chunk_count(len, s) * s >= len,
{
    lemma_fundamental_div_mod(len, s);
    let q = len / s;
    assert(0 <= q) by (nonlinear_arith)
        requires
            0 <= len,
            0 < s,
            len == s * q + len % s,
            0 <= len % s < s,
    ;
    assert(q <= len) by (nonlinear_arith)
        requires
            0 <= len,
            0 < s,
            len == s * q + len % s,
            0 <= len % s,
    ;
    if len % s != 0 {
        assert(q + 1 <= len) by (nonlinear_arith)
            requires
                0 < s,
                len == s * q + len % s,
                0 < len % s < s,
                0 <= q,
        ;
        assert((q + 1) * s >= len) by (nonlinear_arith)
            requires
                len == s * q + len % s,
                len % s < s,
        ;
    } else {
        assert(q * s >= len) by (nonlinear_arith)
            requires
                len == s * q + len % s,
                len % s == 0,
        ;
    }
}

proof fn lemma_position(k: int, t: int, j: int)
    requires
        0 <= k,
        0 <= j < t,
    ensures
        (k * t + j) / t == k,
        (k * t + j) % t == j,
{
    lemma_fundamental_div_mod_converse(k * t + j, t, k, j);
}

/// Copies `len` bytes of `buf` from `start` on, keeping the first `t` bytes of
/// each `s`-sized chunk.
fn copy_strided(buf: &Vec<u8>, start: usize, len: usize, s: usize, t: usize, out: &mut Vec<u8>)
    requires
        0 < s,
        start + len <= buf@.len(),
        strided_fits(len as int, s as int, t as int),
    ensures
        final(out)@ == old(out)@ + strided_copy(
            buf@.subrange(start as int, start + len),
            s as int,
            t as int,
        ),
{
    let blen = buf.len();
    let ghost slice = buf@.subrange(start as int, start + len);
    let ghost expect = strided_copy(slice, s as int, t as int);
    let ghost base = out@;
    proof {
        lemma_chunk_count_bound(len as int, s as int);
    }
    let n: usize = if len % s == 0 {
        len / s
    } else {
        len / s + 1
    };
    assert(n as int == chunk_count(len as int, s as int));
    let mut k: usize = 0;
    while k < n
        invariant
            0 < s,
            start + len <= buf@.len(),
            blen == buf@.len(),
            strided_fits(len as int, s as int, t as int),
            n as int == chunk_count(len as int, s as int),
            slice == buf@.subrange(start as int, start + len),
            expect == strided_copy(slice, s as int, t as int),
            0 <= k <= n,
            t <= s,
            out@.len() == base.len() + k * t,
            out@.subrange(0, base.len() as int) == base,
            forall|p: int|
                0 <= p < k * t ==> #[trigger] out@[base.len() + p] == expect[p],
        decreases n - k,
    {
        let ghost before = out@;
        let mut j: usize = 0;
        while j < t
            invariant
                0 < s,
                start + len <= buf@.len(),
                blen == buf@.len(),
                strided_fits(len as int, s as int, t as int),
                n as int == chunk_count(len as int, s as int),
                slice == buf@.subrange(start as int, start + len),
                expect == strided_copy(slice, s as int, t as int),
                0 <= k < n,
                0 <= j <= t,
                t <= s,
                out@.len() == before.len() + j,
                out@.subrange(0, before.len() as int) == before,
                before.len() == base.len() + k * t,
                before.subrange(0, base.len() as int) == base,
                forall|p: int|
                    0 <= p < k * t ==> #[trigger] before[base.len() + p] == expect[p],
                forall|p: int| 0 <= p < j ==> #[trigger] out@[before.len() + p] == expect[k * t + p],
            decreases t - j,
        {
            proof {
                lemma_chunk_in_bounds(len as int, s as int, t as int, k as int, j as int);
                lemma_position(k as int, t as int, j as int);
                assert(k * s <= len) by (nonlinear_arith)
                    requires
                        k * s + j < len,
                        0 <= j,
                ;
            }
            let idx = start + k * s + j;
            let ghost prev = out@;
            out.push(buf[idx]);
            proof {
                assert(expect.len() == n * t);
                assert(k * t + j < n * t) by (nonlinear_arith)
                    requires
                        k < n,
                        j < t,
                ;
                assert(expect[k * t + j] == slice[k * s + j]);
                assert forall|p: int| 0 <= p < j + 1 implies #[trigger] out@[before.len() + p]
                    == expect[k * t + p] by {
                    if p < j {
                        assert(out@[before.len() + p] == prev[before.len() + p]);
                    }
                }
                assert forall|p: int| 0 <= p < before.len() implies #[trigger] out@.subrange(
                    0,
                    before.len() as int,
                )[p] == before[p] by {
                    assert(prev.subrange(0, before.len() as int)[p] == before[p]);
                }
                assert(out@.subrange(0, before.len() as int) =~= before);
            }
            j = j + 1;
        }
        proof {
            assert((k + 1) * t == k * t + t) by (nonlinear_arith);
            assert forall|p: int| 0 <= p < (k + 1) * t implies #[trigger] out@[base.len() + p]
                == expect[p] by {
                if p < k * t {
                    assert(out@.subrange(0, before.len() as int)[base.len() + p] == before[base.len()
                        + p]);
                } else {
                    let q = p - k * t;
                    assert(out@[before.len() + q] == expect[k * t + q]);
                }
            }
            assert forall|p: int| 0 <= p < base.len() implies #[trigger] out@.subrange(
                0,
                base.len() as int,
            )[p] == base[p] by {
                assert(out@.subrange(0, before.len() as int)[p] == before[p]);
                assert(before.subrange(0, base.len() as int)[p] == base[p]);
            }
            assert(out@.subrange(0, base.len() as int) =~= base);
        }
        k = k + 1;
    }
    proof {
        assert(expect.len() == n * t);
        assert forall|p: int| 0 <= p < out@.len() implies #[trigger] out@[p] == (base + expect)[p] by {
            if p < base.len() {
                assert(out@.subrange(0, base.len() as int)[p] == base[p]);
            } else {
                assert(out@[base.len() + (p - base.len())] == expect[p - base.len()]);
            }
        }
        assert(out@ =~= base + expect);
    }
}

/// Appends `buf[start..start + len]` to `out`.
fn copy_contiguous(buf: &Vec<u8>, start: usize, len: usize, out: &mut Vec<u8>)
    requires
        start + len <= buf@.len(),
    ensures
        final(out)@ == old(out)@ + buf@.subrange(start as int, start + len),
{
    let ghost base = out@;
    let blen = buf.len();
    let mut i: usize = 0;
    while i < len
        invariant
            start + len <= buf@.len(),
            blen == buf@.len(),
            0 <= i <= len,
            out@ == base + buf@.subrange(start as int, start + i),
        decreases len - i,
    {
        out.push(buf[start + i]);
        proof {
            assert(out@ =~= base + buf@.subrange(start as int, start + i + 1));
        }
        i = i + 1;
    }
}

/// Reads a buffer view into `buffer_out`, starting `offset` bytes into the
/// view. The read is at most `possible_length` bytes and never longer than
/// the view; with a stride, only the first `type_size` bytes of each stride
/// are kept. Returns the range appended to `buffer_out`.
pub fn get_raw_data_via_buffer_view(
    offset: usize,
    buffer_view: &BufferView,
    buffer_map: &BufferMap,
    possible_length: Option<usize>,
    type_size: Option<usize>,
    buffer_out: &mut Vec<u8>,
) -> (r: Result<Range<usize>, Error>)
    ensures
        appended(
            r,
            old(buffer_out)@,
            final(buffer_out)@,
            view_read(offset as int, *buffer_view, buffer_bytes(*buffer_map), possible_length, type_size),
        ),
{
    let buffer = match buffer_map.get(&buffer_view.buffer) {
        Some(b) => b,
        None => {
            return Err(Error::FailedGetBuffer);
        },
    };
    let blen = buffer.len();
    let length = match possible_length {
        Some(l) => if l < buffer_view.byte_length {
            l
        } else {
            buffer_view.byte_length
        },
        None => buffer_view.byte_length,
    };
    let start = match offset.checked_add(buffer_view.byte_offset) {
        Some(s) => s,
        None => {
            return Err(Error::FailedToGetU8Data);
        },
    };
    if start > buffer.len() || length > buffer.len() - start {
        return Err(Error::FailedToGetU8Data);
    }
    let buffer_start = buffer_out.len();
    match buffer_view.byte_stride {
        Some(stride) if stride > 0 => {
            let t = match type_size {
                Some(t) => t,
                None => {
                    return Err(Error::FailedGetBuffer);
                },
            };
            let fits = t <= stride && (length % stride == 0 || length % stride >= t);
            if !fits {
                return Err(Error::FailedToGetU8Data);
            }
            copy_strided(buffer, start, length, stride, t, buffer_out);
        },
        _ => {
            copy_contiguous(buffer, start, length, buffer_out);
        },
    }
    Ok(buffer_start..buffer_out.len())
}

} // verus!

verus! {

/// The map that holds the embedded binary chunk, if there is one, as buffer 0.
pub open spec fn embedded_map(buffer: Option<Vec<u8>>) -> Map<usize, Vec<u8>> {
    match buffer {
        Some(b) => Map::empty().insert(0, b),
        None => Map::empty(),
    }
}

/// `map` with each buffer `k` that `resolved` holds put under key `k`.
pub open spec fn with_resolved(map: Map<usize, Vec<u8>>, resolved: Seq<Option<Vec<u8>>>) -> Map<
    usize,
    Vec<u8>,
> {
    Map::new(
        |k: usize| map.contains_key(k) || (k < resolved.len() && resolved[k as int] is Some),
        |k: usize|
            if k < resolved.len() && resolved[k as int] is Some {
                resolved[k as int]->Some_0
            } else {
                map[k]
            },
    )
}

/// A buffer map that holds the embedded binary chunk as buffer 0, if given.
pub fn new_buffer_map_with_embedded(buffer: Option<Vec<u8>>) -> (r: BufferMap)
    ensures
        r@ == embedded_map(buffer),
{
    let mut buffer_map: BufferMap = BTreeMap::new();
    match buffer {
        Some(b) => {
            buffer_map.insert(0, b);
        },
        None => {},
    }
    proof {
        assert(buffer_map@ =~= embedded_map(buffer));
    }
    buffer_map
}

/// Puts each resolved buffer under its index; `None` entries (buffers that
/// were skipped or have no URI) leave the map as it was.
pub fn insert_external_buffers(buffer_vec: Vec<Option<Vec<u8>>>, buffer_map: &mut BufferMap)
    ensures
        final(buffer_map)@ == with_resolved(old(buffer_map)@, buffer_vec@),
{
    let ghost resolved = buffer_vec@;
    let ghost start = buffer_map@;
    let mut rest = buffer_vec;
    while rest.len() > 0
        invariant
            rest@.len() <= resolved.len(),
            rest@ == resolved.subrange(0, rest@.len() as int),
            forall|k: usize|
                #![trigger buffer_map@.contains_key(k)]
                buffer_map@.contains_key(k) <== (start.contains_key(k) || (rest@.len() <= k
                    < resolved.len() && resolved[k as int] is Some)),
            forall|k: usize|
                #![trigger buffer_map@.contains_key(k)]
                buffer_map@.contains_key(k) ==> (start.contains_key(k) || (rest@.len() <= k
                    < resolved.len() && resolved[k as int] is Some)),
            forall|k: usize|
                #![trigger buffer_map@[k]]
                buffer_map@.contains_key(k) ==> buffer_map@[k] == if rest@.len() <= k
                    < resolved.len() && resolved[k as int] is Some {
                    resolved[k as int]->Some_0
                } else {
                    start[k]
                },
        decreases rest@.len(),
    {
        let ghost before = rest@;
        let entry = rest.pop().unwrap();
        let i = rest.len();
        assert(resolved[i as int] == entry) by {
            assert(before[i as int] == entry);
            assert(before == resolved.subrange(0, before.len() as int));
        }
        assert(rest@ =~= resolved.subrange(0, rest@.len() as int));
        match entry {
            Some(b) => {
                buffer_map.insert(i, b);
            },
            None => {},
        }
    }
    proof {
        assert(buffer_map@ =~= with_resolved(start, resolved));
    }
}

} // verus!

verus! {

/// The bytes accessor `id` yields: its elements, read through its buffer view
/// over the accessor's declared length (never past the view's end), only the
/// element bytes of each stride kept.
pub open spec fn accessor_read(doc: Document, buffers: Map<usize, Seq<u8>>, id: int) -> Result<
    Seq<u8>,
    Error,
> {
    if !(0 <= id < doc.accessors@.len()) {
        Err(Error::FailedGetBuffer)
    } else {
        let a = doc.accessors@[id];
        match a.buffer_view {
            None => Err(Error::FailedGetBuffer),
            Some(v) => if v >= doc.buffer_views@.len() {
                Err(Error::FailedGetBuffer)
            } else {
                let view = doc.buffer_views@[v as int];
                view_read(
                    a.byte_offset as int,
                    view,
                    buffers,
                    Some(min(a.spec_byte_length(view), view.byte_length as int) as usize),
                    Some(a.spec_element_size() as usize),
                )
            },
        }
    }
}

/// `r` reports the read `expect` of an accessor with `count` elements of
/// `size` bytes, appended to an arena that held `before` and now holds `after`.
pub open spec fn read_appended(
    r: Result<(Range<usize>, usize, usize), Error>,
    before: Seq<u8>,
    after: Seq<u8>,
    expect: Result<Seq<u8>, Error>,
    count: usize,
    size: nat,
) -> bool {
    match expect {
        Ok(bytes) => {
            &&& after == before + bytes
            &&& r is Ok
            &&& r->Ok_0.0.start == before.len()
            &&& r->Ok_0.0.end == after.len()
            &&& r->Ok_0.1 == count
            &&& r->Ok_0.2 == size
        },
        Err(e) => after == before && r == Err::<(Range<usize>, usize, usize), Error>(e),
    }
}

/// Reads `accessor` through `buffer_view` into `buffer_out`.
fn load_buffer_view_raw_data(
    accessor: &Accessor,
    buffer_view: &BufferView,
    buffer_map: &BufferMap,
    buffer_out: &mut Vec<u8>,
) -> (r: Result<Range<usize>, Error>)
    ensures
        appended(
            r,
            old(buffer_out)@,
            final(buffer_out)@,
            view_read(
                accessor.byte_offset as int,
                *buffer_view,
                buffer_bytes(*buffer_map),
                Some(
                    min(
                        accessor.spec_byte_length(*buffer_view),
                        buffer_view.byte_length as int,
                    ) as usize,
                ),
                Some(accessor.spec_element_size() as usize),
            ),
        ),
{
    let offset = accessor.byte_offset;
    let type_size = accessor.element_size();
    let length = accessor.effective_length(buffer_view);
    get_raw_data_via_buffer_view(
        offset,
        buffer_view,
        buffer_map,
        Some(length),
        Some(type_size),
        buffer_out,
    )
}

/// Reads accessors of one document out of its resolved buffers.
pub struct PrimitiveBufferReader<'a> {
    pub gltf_info: &'a Document,
    pub buffer_map: &'a BufferMap,
}

impl<'a> PrimitiveBufferReader<'a> {
    pub fn new(gltf_info: &'a Document, buffer_map: &'a BufferMap) -> (r: Self)
        ensures
            *r.gltf_info == *gltf_info,
            *r.buffer_map == *buffer_map,
    {
        PrimitiveBufferReader { gltf_info, buffer_map }
    }

    /// Appends the elements of accessor `access_id` to `buffer_out`; returns
    /// the appended range, the accessor's element count and its element size.
    pub fn get_raw_buffer(&self, access_id: usize, buffer_out: &mut Vec<u8>) -> (r: Result<
        (Range<usize>, usize, usize),
        Error,
    >)
        ensures
            read_appended(
                r,
                old(buffer_out)@,
                final(buffer_out)@,
                accessor_read(*self.gltf_info, buffer_bytes(*self.buffer_map), access_id as int),
                if access_id < self.gltf_info.accessors@.len() {
                    self.gltf_info.accessors@[access_id as int].count
                } else {
                    0
                },
                if access_id < self.gltf_info.accessors@.len() {
                    self.gltf_info.accessors@[access_id as int].spec_element_size()
                } else {
                    0
                },
            ),
    {
        if access_id >= self.gltf_info.accessors.len() {
            return Err(Error::FailedGetBuffer);
        }
        let accessor = &self.gltf_info.accessors[access_id];
        let buffer_view_id = match accessor.buffer_view {
            Some(v) => v,
            None => {
                return Err(Error::FailedGetBuffer);
            },
        };
        if buffer_view_id >= self.gltf_info.buffer_views.len() {
            return Err(Error::FailedGetBuffer);
        }
        let buffer_view = &self.gltf_info.buffer_views[buffer_view_id];
        let range = load_buffer_view_raw_data(accessor, buffer_view, self.buffer_map, buffer_out);
        match range {
            Ok(range) => Ok((range, accessor.count, accessor.element_size())),
            Err(e) => Err(e),
        }
    }
}

} // verus!

verus! {

/// Little-endian 16-bit values in `src`, each zero-extended to 32 bits.
pub open spec fn widen_u16(src: Seq<u8>) -> Seq<u8> {
    Seq::new(
        (src.len() / 2 * 4) as nat,
        |i: int|
            if i % 4 < 2 {
                src[(i / 4) * 2 + i % 4]
            } else {
                0u8
            },
    )
}

/// The index bytes, all 4 bytes wide, and the index count that accessor `id`
/// yields; only unsigned 16- and 32-bit accessors hold indices.
pub open spec fn index_read(doc: Document, buffers: Map<usize, Seq<u8>>, id: int) -> Result<
    (Seq<u8>, int),
    Error,
> {
    if !(0 <= id < doc.accessors@.len()) {
        Err(Error::FailedGetBuffer)
    } else {
        match doc.accessors@[id].component_type {
            ComponentType::UnsignedInt => match accessor_read(doc, buffers, id) {
                Ok(bytes) => Ok((bytes, doc.accessors@[id].count as int)),
                Err(e) => Err(e),
            },
            ComponentType::UnsignedShort => match accessor_read(doc, buffers, id) {
                Ok(bytes) => if bytes.len() % 2 == 0 {
                    Ok((widen_u16(bytes), (bytes.len() / 2) as int))
                } else {
                    Err(Error::FailedToGetU8Data)
                },
                Err(e) => Err(e),
            },
            _ => Err(Error::UnsupportedIndexType),
        }
    }
}

/// Appends `src`'s 16-bit values, each widened to 32 bits, to `out`.
fn widen_into(src: &Vec<u8>, out: &mut Vec<u8>)
    requires
        src@.len() % 2 == 0,
    ensures
        final(out)@ == old(out)@ + widen_u16(src@),
{
    let ghost base = out@;
    let ghost expect = widen_u16(src@);
    let len = src.len();
    let n = len / 2;
    let mut k: usize = 0;
    while k < n
        invariant
            len == src@.len(),
            n == src@.len() / 2,
            src@.len() % 2 == 0,
            expect == widen_u16(src@),
            0 <= k <= n,
            out@.len() == base.len() + 4 * k,
            forall|p: int| 0 <= p < base.len() ==> #[trigger] out@[p] == base[p],
            forall|p: int| 0 <= p < 4 * k ==> #[trigger] out@[base.len() + p] == expect[p],
        decreases n - k,
    {
        let ghost prev = out@;
        out.push(src[2 * k]);
        out.push(src[2 * k + 1]);
        out.push(0);
        out.push(0);
        proof {
            assert forall|c: int| 0 <= c < 4 implies #[trigger] out@[base.len() + 4 * k + c]
                == expect[4 * k + c] by {
                lemma_position(k as int, 4, c);
                assert((4 * k + c) == k * 4 + c);
            }
            assert forall|p: int| 0 <= p < 4 * (k + 1) implies #[trigger] out@[base.len() + p]
                == expect[p] by {
                if p < 4 * k {
                    assert(out@[base.len() + p] == prev[base.len() + p]);
                } else {
                    let c = p - 4 * k;
                    assert(out@[base.len() + 4 * k + c] == expect[4 * k + c]);
                }
            }
            assert forall|p: int| 0 <= p < base.len() implies #[trigger] out@[p] == base[p] by {
                assert(out@[p] == prev[p]);
            }
        }
        k = k + 1;
    }
    proof {
        assert(expect.len() == 4 * n);
        assert forall|p: int| 0 <= p < out@.len() implies #[trigger] out@[p] == (base + expect)[p] by {
            if p >= base.len() {
                assert(out@[base.len() + (p - base.len())] == expect[p - base.len()]);
            }
        }
        assert(out@ =~= base + expect);
    }
}

/// Reads index accessor `index_id` into `index_out`, every index widened to
/// 4 bytes.
pub fn read_indices(reader: &PrimitiveBufferReader, index_id: usize, index_out: &mut Vec<u8>) -> (r:
    Result<Index, Error>)
    ensures
        match index_read(*reader.gltf_info, buffer_bytes(*reader.buffer_map), index_id as int) {
            Ok((bytes, count)) => {
                &&& final(index_out)@ == old(index_out)@ + bytes
                &&& r is Ok
                &&& r->Ok_0.indices.start == old(index_out)@.len()
                &&& r->Ok_0.indices.end == final(index_out)@.len()
                &&& r->Ok_0.count == count
                &&& r->Ok_0.type_size == 4
            },
            Err(e) => final(index_out)@ == old(index_out)@ && r == Err::<Index, Error>(e),
        },
{
    if index_id >= reader.gltf_info.accessors.len() {
        return Err(Error::FailedGetBuffer);
    }
    let component_type = reader.gltf_info.accessors[index_id].component_type;
    match IndexType::try_from(component_type) {
        Ok(IndexType::U32) => {
            match reader.get_raw_buffer(index_id, index_out) {
                Ok((range, count, _)) => Ok(Index { indices: range, count, type_size: 4 }),
                Err(e) => Err(e),
            }
        },
        Ok(IndexType::U16) => {
            let mut output: Vec<u8> = Vec::new();
            match reader.get_raw_buffer(index_id, &mut output) {
                Ok(_) => {},
                Err(e) => {
                    return Err(e);
                },
            }
            assert(output@ =~= Seq::<u8>::empty() + output@);
            if output.len() % 2 != 0 {
                return Err(Error::FailedToGetU8Data);
            }
            let count = output.len() / 2;
            let buffer_start = index_out.len();
            widen_into(&output, index_out);
            Ok(Index { indices: buffer_start..index_out.len(), count, type_size: 4 })
        },
        Err(e) => Err(e),
    }
}

} // verus!

verus! {

/// The little-endian 16-bit value of element `i` of `s`.
pub open spec fn le_u16_at(s: Seq<u8>, i: int) -> int {
    s[2 * i] + 256 * s[2 * i + 1]
}

/// The little-endian 32-bit value of element `i` of `s`.
pub open spec fn le_u32_at(s: Seq<u8>, i: int) -> int {
    s[4 * i] + 256 * s[4 * i + 1] + 65536 * s[4 * i + 2] + 16777216 * s[4 * i + 3]
}

/// Unstrided, unnormalized 16- or 32-bit unsigned integers, widened to 32
/// bits; `None` for any other combination of component type, normalization
/// and stride, or for bytes that are not whole elements.
pub fn read_u32(slice: &[u8], stride: Option<usize>, accessor: &Accessor) -> (r: Option<Vec<u32>>)
    ensures
        match (accessor.component_type, accessor.normalized, stride) {
            (ComponentType::UnsignedShort, false, None) if slice@.len() % 2 == 0 => {
                &&& r is Some
                &&& r->Some_0@.len() == slice@.len() / 2
                &&& forall|i: int| 0 <= i < r->Some_0@.len() ==> #[trigger] r->Some_0@[i] as int == le_u16_at(slice@, i)
            },
            (ComponentType::UnsignedInt, false, None) if slice@.len() % 4 == 0 => {
                &&& r is Some
                &&& r->Some_0@.len() == slice@.len() / 4
                &&& forall|i: int| 0 <= i < r->Some_0@.len() ==> #[trigger] r->Some_0@[i] as int == le_u32_at(slice@, i)
            },
            _ => r is None,
        },
{
    if accessor.normalized || stride.is_some() {
        return None;
    }
    let width: usize = match accessor.component_type {
        ComponentType::UnsignedShort => 2,
        ComponentType::UnsignedInt => 4,
        _ => {
            return None;
        },
    };
    if slice.len() % width != 0 {
        return None;
    }
    let len = slice.len();
    let n = len / width;
    let mut out: Vec<u32> = Vec::new();
    let mut i: usize = 0;
    while i < n
        invariant
            len == slice@.len(),
            width == 2 || width == 4,
            n == slice@.len() as int / width as int,
            slice@.len() as int % width as int == 0,
            0 <= i <= n,
            out@.len() == i,
            forall|j: int|
                0 <= j < i ==> #[trigger] out@[j] as int == if width == 2 {
                    le_u16_at(slice@, j)
                } else {
                    le_u32_at(slice@, j)
                },
        decreases n - i,
    {
        assert(width * i + width <= slice@.len()) by (nonlinear_arith)
            requires
                i < n,
                n == slice@.len() as int / width as int,
                slice@.len() as int % width as int == 0,
                width == 2 || width == 4,
        ;
        let v: u32 = if width == 2 {
            slice[2 * i] as u32 + (slice[2 * i + 1] as u32) * 256
        } else {
            slice[4 * i] as u32 + (slice[4 * i + 1] as u32) * 256 + (slice[4 * i + 2] as u32)
                * 65536 + (slice[4 * i + 3] as u32) * 16777216
        };
        out.push(v);
        i = i + 1;
    }
    Some(out)
}

} // verus!
