//! Tagged 8-byte pointer cells.
//!
//! Every reference inside a message is one 64-bit little-endian cell.
//! The low two bits select the kind; the remaining bits carry an absolute
//! word offset inside the cell's own segment and size metadata:
//!
//! * struct: bits 2..32 the target word offset, bits 32..48 the data size
//!   in words, bits 48..64 the pointer-slot count;
//! * list: bits 2..32 the target word offset, bits 32..35 the element-size
//!   code, bits 35..64 the element count (or, for composite lists, the
//!   content size in words, the per-element layout living in a tag word at
//!   the target);
//! * far: bits 2..32 the word offset of a landing-pad cell, bits 32..64
//!   the index of the segment that holds it — the single permitted
//!   indirection;
//! * capability: bits 32..64 an index into the connection's capability
//!   table.
//!
//! The all-zero cell is the null pointer.

use vstd::prelude::*;

verus! {

/// Largest word offset a pointer cell can carry (30 bits).
pub const MAX_PTR_OFFSET: u32 = 0x3FFF_FFFF;

/// Largest element count a list pointer can carry (29 bits).
pub const MAX_LIST_COUNT: u32 = 0x1FFF_FFFF;

/// Size of one list element.
#[derive(Clone, Copy, Debug, PartialEq, Eq, Structural)]
pub enum ElemSize {
    /// Zero-size elements; the count alone is the payload.
    Void,
    /// One byte per element: data and text lists.
    One,
    /// Two bytes per element.
    Two,
    /// Four bytes per element.
    Four,
    /// Eight bytes per element.
    Eight,
    /// Struct elements behind a per-element layout tag word.
    Composite,
}

/// A decoded pointer cell.
#[derive(Clone, Copy, Debug, PartialEq, Eq, Structural)]
pub enum Pointer {
    /// The absent value.
    Null,
    /// A struct of `data_words` data words then `ptr_count` pointer cells
    /// at word `off` of the cell's segment.
    Struct { off: u32, data_words: u16, ptr_count: u16 },
    /// A list at word `off` of the cell's segment.
    List { off: u32, elem: ElemSize, count: u32 },
    /// A redirection to the cell at word `off` of segment `seg`.
    Far { seg: u32, off: u32 },
    /// An entry of the connection's capability table.
    Cap { index: u32 },
}

/// The 3-bit wire code of an element size.
pub open spec fn spec_elem_code(e: ElemSize) -> u64 {
    match e {
        ElemSize::Void => 0,
        ElemSize::One => 1,
        ElemSize::Two => 2,
        ElemSize::Four => 3,
        ElemSize::Eight => 4,
        ElemSize::Composite => 5,
    }
}

/// Bytes occupied by one element of a plain (non-composite) list.
pub open spec fn spec_elem_bytes(e: ElemSize) -> int {
    match e {
        ElemSize::Void => 0,
        ElemSize::One => 1,
        ElemSize::Two => 2,
        ElemSize::Four => 4,
        ElemSize::Eight => 8,
        ElemSize::Composite => 0,
    }
}

/// The encoded form of a struct pointer.
pub open spec fn enc_struct(off: u32, data_words: u16, ptr_count: u16) -> u64 {
    ((off as u64) << 2) | ((data_words as u64) << 32) | ((ptr_count as u64) << 48)
}

/// The encoded form of a list pointer.
pub open spec fn enc_list(off: u32, elem: ElemSize, count: u32) -> u64 {
    1u64 | ((off as u64) << 2) | (spec_elem_code(elem) << 32) | ((count as u64) << 35)
}

/// The encoded form of a far pointer.
pub open spec fn enc_far(seg: u32, off: u32) -> u64 {
    2u64 | ((off as u64) << 2) | ((seg as u64) << 32)
}

/// The encoded form of a capability pointer.
pub open spec fn enc_cap(index: u32) -> u64 {
    3u64 | ((index as u64) << 32)
}

/// Decode a cell.  `None` only for an element-size code the format does
/// not define.
pub open spec fn dec_ptr(v: u64) -> Option<Pointer> {
    if v == 0 {
        Some(Pointer::Null)
    } else {
        let kind = v & 3;
        if kind == 0 {
            Some(
                Pointer::Struct {
                    off: ((v >> 2) & 0x3FFF_FFFF) as u32,
                    data_words: ((v >> 32) & 0xFFFF) as u16,
                    ptr_count: ((v >> 48) & 0xFFFF) as u16,
                },
            )
        } else if kind == 1 {
            let code = (v >> 32) & 7;
            if code <= 5 {
                Some(
                    Pointer::List {
                        off: ((v >> 2) & 0x3FFF_FFFF) as u32,
                        elem: if code == 0 {
                            ElemSize::Void
                        } else if code == 1 {
                            ElemSize::One
                        } else if code == 2 {
                            ElemSize::Two
                        } else if code == 3 {
                            ElemSize::Four
                        } else if code == 4 {
                            ElemSize::Eight
                        } else {
                            ElemSize::Composite
                        },
                        count: (v >> 35) as u32,
                    },
                )
            } else {
                None
            }
        } else if kind == 2 {
            Some(Pointer::Far { seg: (v >> 32) as u32, off: ((v >> 2) & 0x3FFF_FFFF) as u32 })
        } else {
            Some(Pointer::Cap { index: (v >> 32) as u32 })
        }
    }
}

/// Decoding an encoded struct pointer gives it back (the all-zero struct
/// pointer is the null cell).
pub proof fn lemma_struct_roundtrip(off: u32, data_words: u16, ptr_count: u16)
    requires
        off <= MAX_PTR_OFFSET,
    ensures
        off == 0 && data_words == 0 && ptr_count == 0 ==> dec_ptr(
            enc_struct(off, data_words, ptr_count),
        ) == Some(Pointer::Null),
        !(off == 0 && data_words == 0 && ptr_count == 0) ==> dec_ptr(
            enc_struct(off, data_words, ptr_count),
        ) == Some(Pointer::Struct { off, data_words, ptr_count }),
{
    let v = enc_struct(off, data_words, ptr_count);
    assert(off <= 0x3FFF_FFFFu32 ==> {
        let w = ((off as u64) << 2) | ((data_words as u64) << 32) | ((ptr_count as u64) << 48);
        &&& w & 3 == 0
        &&& ((w >> 2) & 0x3FFF_FFFF) == off
        &&& ((w >> 32) & 0xFFFF) == data_words
        &&& ((w >> 48) & 0xFFFF) == ptr_count
        &&& (w == 0 <==> (off == 0 && data_words == 0 && ptr_count == 0))
    }) by (bit_vector);
}

/// Decoding an encoded list pointer gives it back.
pub proof fn lemma_list_roundtrip(off: u32, elem: ElemSize, count: u32)
    requires
        off <= MAX_PTR_OFFSET,
        count <= MAX_LIST_COUNT,
    ensures
        dec_ptr(enc_list(off, elem, count)) == Some(Pointer::List { off, elem, count }),
{
    let c = spec_elem_code(elem);
    let v = enc_list(off, elem, count);
    assert(off <= 0x3FFF_FFFFu32 && count <= 0x1FFF_FFFFu32 && c <= 5 ==> {
        let w = 1u64 | ((off as u64) << 2) | (c << 32) | ((count as u64) << 35);
        &&& w != 0
        &&& w & 3 == 1
        &&& ((w >> 2) & 0x3FFF_FFFF) == off
        &&& ((w >> 32) & 7) == c
        &&& (w >> 35) == count
    }) by (bit_vector);
}

/// Decoding an encoded far pointer gives it back.
pub proof fn lemma_far_roundtrip(seg: u32, off: u32)
    requires
        off <= MAX_PTR_OFFSET,
    ensures
        dec_ptr(enc_far(seg, off)) == Some(Pointer::Far { seg, off }),
{
    assert(off <= 0x3FFF_FFFFu32 ==> {
        let w = 2u64 | ((off as u64) << 2) | ((seg as u64) << 32);
        &&& w != 0
        &&& w & 3 == 2
        &&& ((w >> 2) & 0x3FFF_FFFF) == off
        &&& (w >> 32) == seg
    }) by (bit_vector);
}

/// Decoding an encoded capability pointer gives it back.
pub proof fn lemma_cap_roundtrip(index: u32)
    ensures
        dec_ptr(enc_cap(index)) == Some(Pointer::Cap { index }),
{
    assert({
        let w = 3u64 | ((index as u64) << 32);
        &&& w != 0
        &&& w & 3 == 3
        &&& (w >> 32) == index
    }) by (bit_vector);
}

/// Field ranges of any decoded cell: offsets fit 30 bits, list counts 29.
pub proof fn lemma_dec_ptr_bounds(v: u64)
    ensures
        dec_ptr(v) matches Some(Pointer::Struct { off, .. }) ==> off <= MAX_PTR_OFFSET,
        dec_ptr(v) matches Some(Pointer::List { off, count, .. }) ==> off <= MAX_PTR_OFFSET
            && count <= MAX_LIST_COUNT,
        dec_ptr(v) matches Some(Pointer::Far { off, .. }) ==> off <= MAX_PTR_OFFSET,
{
    assert(((v >> 2) & 0x3FFF_FFFF) <= 0x3FFF_FFFFu64) by (bit_vector);
    assert((v >> 35) <= 0x1FFF_FFFFu64) by (bit_vector);
}

/// Exec mirror of `spec_elem_code`.
pub fn elem_code(e: ElemSize) -> (c: u64)
    ensures
        c == spec_elem_code(e),
{
    match e {
        ElemSize::Void => 0,
        ElemSize::One => 1,
        ElemSize::Two => 2,
        ElemSize::Four => 3,
        ElemSize::Eight => 4,
        ElemSize::Composite => 5,
    }
}

/// Exec mirror of `spec_elem_bytes`.
pub fn elem_bytes(e: ElemSize) -> (n: usize)
    ensures
        n == spec_elem_bytes(e),
{
    match e {
        ElemSize::Void => 0,
        ElemSize::One => 1,
        ElemSize::Two => 2,
        ElemSize::Four => 4,
        ElemSize::Eight => 8,
        ElemSize::Composite => 0,
    }
}

/// Exec mirror of `enc_struct`.
pub fn encode_struct_ptr(off: u32, data_words: u16, ptr_count: u16) -> (v: u64)
    requires
        off <= MAX_PTR_OFFSET,
    ensures
        v == enc_struct(off, data_words, ptr_count),
{
    ((off as u64) << 2u64) | ((data_words as u64) << 32u64) | ((ptr_count as u64) << 48u64)
}

/// Exec mirror of `enc_list`.
pub fn encode_list_ptr(off: u32, elem: ElemSize, count: u32) -> (v: u64)
    requires
        off <= MAX_PTR_OFFSET,
        count <= MAX_LIST_COUNT,
    ensures
        v == enc_list(off, elem, count),
{
    1u64 | ((off as u64) << 2u64) | (elem_code(elem) << 32u64) | ((count as u64) << 35u64)
}

/// Exec mirror of `enc_far`.
pub fn encode_far_ptr(seg: u32, off: u32) -> (v: u64)
    requires
        off <= MAX_PTR_OFFSET,
    ensures
        v == enc_far(seg, off),
{
    2u64 | ((off as u64) << 2u64) | ((seg as u64) << 32u64)
}

/// Exec mirror of `enc_cap`.
pub fn encode_cap_ptr(index: u32) -> (v: u64)
    ensures
        v == enc_cap(index),
{
    3u64 | ((index as u64) << 32u64)
}

/// Decode a cell; exec mirror of `dec_ptr`.
pub fn parse_ptr(v: u64) -> (r: Option<Pointer>)
    ensures
        r == dec_ptr(v),
{
    if v == 0 {
        Some(Pointer::Null)
    } else {
        let kind = v & 3;
        if kind == 0 {
            Some(
                Pointer::Struct {
                    off: ((v >> 2u64) & 0x3FFF_FFFF) as u32,
                    data_words: ((v >> 32u64) & 0xFFFF) as u16,
                    ptr_count: ((v >> 48u64) & 0xFFFF) as u16,
                },
            )
        } else if kind == 1 {
            let code = (v >> 32u64) & 7;
            if code <= 5 {
                let elem = if code == 0 {
                    ElemSize::Void
                } else if code == 1 {
                    ElemSize::One
                } else if code == 2 {
                    ElemSize::Two
                } else if code == 3 {
                    ElemSize::Four
                } else if code == 4 {
                    ElemSize::Eight
                } else {
                    ElemSize::Composite
                };
                Some(
                    Pointer::List {
                        off: ((v >> 2u64) & 0x3FFF_FFFF) as u32,
                        elem,
                        count: (v >> 35u64) as u32,
                    },
                )
            } else {
                None
            }
        } else if kind == 2 {
            Some(Pointer::Far { seg: (v >> 32u64) as u32, off: ((v >> 2u64) & 0x3FFF_FFFF) as u32 })
        } else {
            Some(Pointer::Cap { index: (v >> 32u64) as u32 })
        }
    }
}

} // verus!
