//! Reading vectors of 32-bit floats out of attribute bytes, as bit patterns:
//! packed, or one vector at the start of each stride.
use vstd::prelude::*;
use vstd::arithmetic::div_mod::lemma_fundamental_div_mod;
use crate::document::{Accessor, ComponentType};

verus! {

/// The little-endian 32-bit word at byte `off` of `s`.
pub open spec fn le_word(s: Seq<u8>, off: int) -> int {
    s[off] + 256 * s[off + 1] + 65536 * s[off + 2] + 16777216 * s[off + 3]
}

/// The number of `size`-byte elements, one at the start of each `stride`,
/// that lie wholly inside `len` bytes.
pub open spec fn whole_elements(len: int, stride: int, size: int) -> int {
    if len < size {
        0
    } else {
        (len - size) / stride + 1
    }
}

/// The stride between float vectors of `size` bytes: the vector size itself
/// when packed (no stride, or a stride equal to it), a larger given stride,
/// or `None` for anything but unnormalized floats at such a stride.
pub open spec fn float_stride(a: Accessor, stride: Option<usize>, size: int) -> Option<int> {
    if a.component_type == ComponentType::Float && !a.normalized {
        match stride {
            None => Some(size),
            Some(s) => if s >= size {
                Some(s as int)
            } else {
                None
            },
        }
    } else {
        None
    }
}

proof fn lemma_element_in_bounds(len: int, s: int, size: int, k: int)
    requires
        0 < size <= s,
        size <= len,
        0 <= k < (len - size) / s + 1,
    ensures
        0 <= k * s,
        k * s + size <= len,
{
    lemma_fundamental_div_mod(len - size, s);
    let q = (len - size) / s;
    assert(0 <= k * s <= q * s) by (nonlinear_arith)
        requires
            0 <= k <= q,
            0 < s,
    ;
    assert(q * s <= len - size) by (nonlinear_arith)
        requires
            len - size == s * q + (len - size) % s,
            0 <= (len - size) % s,
    ;
}

/// The little-endian word at byte `off` of `slice`.
fn word_at(slice: &[u8], off: usize) -> (r: u32)
    requires
        off + 4 <= slice@.len(),
    ensures
        r as int == le_word(slice@, off as int),
{
    slice[off] as u32 + (slice[off + 1] as u32) * 256 + (slice[off + 2] as u32) * 65536
        + (slice[off + 3] as u32) * 16777216
}

/// The stride for vectors of `size` bytes, if the accessor and stride are
/// supported.
fn vector_stride(accessor: &Accessor, byte_stride: Option<usize>, size: usize) -> (r: Option<usize>)
    ensures
        match float_stride(*accessor, byte_stride, size as int) {
            Some(s) => r == Some(s as usize),
            None => r is None,
        },
{
    match accessor.component_type {
        ComponentType::Float => {},
        _ => {
            return None;
        },
    }
    if accessor.normalized {
        return None;
    }
    match byte_stride {
        None => Some(size),
        Some(s) => if s >= size {
            Some(s)
        } else {
            None
        },
    }
}

/// Three-component float vectors (as bit patterns), packed or one at the
/// start of each stride; `None` for any other component type, a normalized
/// accessor, or a stride shorter than a vector.
pub fn read_f32x3(slice: &[u8], byte_stride: Option<usize>, accessor: &Accessor) -> (r: Option<
    Vec<[u32; 3]>,
>)
    ensures
        match float_stride(*accessor, byte_stride, 12) {
            None => r is None,
            Some(s) => {
                &&& r is Some
                &&& r->Some_0@.len() == whole_elements(slice@.len() as int, s, 12)
                &&& forall|k: int, c: int|
                    0 <= k < r->Some_0@.len() && 0 <= c < 3 ==> #[trigger] r->Some_0@[k][c] as int
                        == le_word(slice@, k * s + 4 * c)
            },
        },
{
    let s = match vector_stride(accessor, byte_stride, 12) {
        Some(s) => s,
        None => {
            return None;
        },
    };
    let len = slice.len();
    let n: usize = if len < 12 {
        0
    } else {
        (len - 12) / s + 1
    };
    let mut out: Vec<[u32; 3]> = Vec::new();
    let mut k: usize = 0;
    while k < n
        invariant
            len == slice@.len(),
            s >= 12,
            n as int == whole_elements(len as int, s as int, 12),
            0 <= k <= n,
            out@.len() == k,
            forall|j: int, c: int|
                0 <= j < k && 0 <= c < 3 ==> #[trigger] out@[j][c] as int == le_word(slice@, j * s + 4 * c),
        decreases n - k,
    {
        proof {
            lemma_element_in_bounds(len as int, s as int, 12, k as int);
        }
        let off = k * s;
        let v = [word_at(slice, off), word_at(slice, off + 4), word_at(slice, off + 8)];
        out.push(v);
        k = k + 1;
    }
    Some(out)
}

/// Two-component float vectors (as bit patterns), packed or one at the start
/// of each stride; `None` for any other component type, a normalized
/// accessor, or a stride shorter than a vector.
pub fn read_f32x2(slice: &[u8], byte_stride: Option<usize>, accessor: &Accessor) -> (r: Option<
    Vec<[u32; 2]>,
>)
    ensures
        match float_stride(*accessor, byte_stride, 8) {
            None => r is None,
            Some(s) => {
                &&& r is Some
                &&& r->Some_0@.len() == whole_elements(slice@.len() as int, s, 8)
                &&& forall|k: int, c: int|
                    0 <= k < r->Some_0@.len() && 0 <= c < 2 ==> #[trigger] r->Some_0@[k][c] as int
                        == le_word(slice@, k * s + 4 * c)
            },
        },
{
    let s = match vector_stride(accessor, byte_stride, 8) {
        Some(s) => s,
        None => {
            return None;
        },
    };
    let len = slice.len();
    let n: usize = if len < 8 {
        0
    } else {
        (len - 8) / s + 1
    };
    let mut out: Vec<[u32; 2]> = Vec::new();
    let mut k: usize = 0;
    while k < n
        invariant
            len == slice@.len(),
            s >= 8,
            n as int == whole_elements(len as int, s as int, 8),
            0 <= k <= n,
            out@.len() == k,
            forall|j: int, c: int|
                0 <= j < k && 0 <= c < 2 ==> #[trigger] out@[j][c] as int == le_word(slice@, j * s + 4 * c),
        decreases n - k,
    {
        proof {
            lemma_element_in_bounds(len as int, s as int, 8, k as int);
        }
        let off = k * s;
        let v = [word_at(slice, off), word_at(slice, off + 4)];
        out.push(v);
        k = k + 1;
    }
    Some(out)
}

} // verus!
