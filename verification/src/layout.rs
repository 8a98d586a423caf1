//! Structured layout codec.
//!
//! A cursor addresses one struct or one list inside a message: a segment
//! index plus byte offsets and the layout sizes.  Reading is
//! schema-tolerant: a data field or a pointer slot beyond the stored
//! struct's actual footprint yields the type's zero value, so a struct
//! serialized by an older schema with fewer trailing fields still decodes
//! (schema evolution).  Every pointer is validated before a cursor is
//! built from it: a target outside its segment is reported as an error,
//! never dereferenced (pointer safety).

use vstd::prelude::*;
use crate::error::Error;
use crate::message::{
    le16_at, le32_at, le64_at, lemma_update_bytes_facts, update_bytes, Message, MAX_SEGMENTS,
};
use crate::pointer::{
    dec_ptr, elem_bytes, enc_far, enc_list, enc_struct, encode_far_ptr, encode_list_ptr,
    encode_struct_ptr, lemma_far_roundtrip, lemma_list_roundtrip, lemma_struct_roundtrip,
    parse_ptr, spec_elem_bytes, spec_elem_code, ElemSize, Pointer, MAX_LIST_COUNT, MAX_PTR_OFFSET,
};

verus! {

/// Largest data-field index the accessors accept; far more than any
/// schema type needs, small enough that all offset arithmetic fits.
pub const MAX_FIELD_INDEX: usize = 0xFFFF;

/// A cursor to one struct: `data_words` data words then `ptr_count`
/// pointer cells, starting at byte `data_off` of segment `seg`.
#[derive(Clone, Copy, Debug, PartialEq, Eq, Structural)]
pub struct StructCursor {
    pub seg: usize,
    pub data_off: usize,
    pub data_words: usize,
    pub ptr_count: usize,
}

/// A cursor to one list: `count` elements of shape `elem` starting at
/// byte `off` of segment `seg`.  For composite lists, `data_words` and
/// `ptr_count` give the per-element struct layout.
#[derive(Clone, Copy, Debug, PartialEq, Eq, Structural)]
pub struct ListCursor {
    pub seg: usize,
    pub off: usize,
    pub elem: ElemSize,
    pub count: usize,
    pub data_words: usize,
    pub ptr_count: usize,
}

/// Well-formedness of a struct cursor against a message view: the whole
/// footprint lies inside its segment.
pub open spec fn scursor_wf(c: StructCursor, mv: Seq<Seq<u8>>) -> bool {
    &&& c.seg < mv.len()
    &&& c.data_off % 8 == 0
    &&& c.data_words <= 0xFFFF
    &&& c.ptr_count <= 0xFFFF
    &&& c.data_off + 8 * c.data_words + 8 * c.ptr_count <= mv[c.seg as int].len()
}

/// Well-formedness of a list cursor against a message view.
pub open spec fn lcursor_wf(c: ListCursor, mv: Seq<Seq<u8>>) -> bool {
    &&& c.seg < mv.len()
    &&& c.off % 8 == 0
    &&& c.count <= MAX_LIST_COUNT
    &&& c.data_words <= 0xFFFF
    &&& c.ptr_count <= 0xFFFF
    &&& if c.elem is Composite {
        c.off + 8 * (c.count * (c.data_words + c.ptr_count)) <= mv[c.seg as int].len()
    } else {
        c.off + c.count * spec_elem_bytes(c.elem) <= mv[c.seg as int].len()
    }
}

/// The cursor that stands for the root pointer: a virtual struct with no
/// data and one pointer slot at word 0 of segment 0.
pub open spec fn spec_root_cursor() -> StructCursor {
    StructCursor { seg: 0, data_off: 0, data_words: 0, ptr_count: 1 }
}

/// The byte at data index `idx`, or zero when the stored struct is
/// shorter (schema evolution).
pub open spec fn spec_get_u8(mv: Seq<Seq<u8>>, c: StructCursor, idx: int) -> u8 {
    if 0 <= idx && idx + 1 <= 8 * c.data_words {
        mv[c.seg as int][c.data_off + idx]
    } else {
        0
    }
}

/// The 16-bit field at data index `idx` (byte offset `2 * idx`), or zero
/// when the stored struct is shorter.
pub open spec fn spec_get_u16(mv: Seq<Seq<u8>>, c: StructCursor, idx: int) -> u16 {
    if 0 <= idx && 2 * idx + 2 <= 8 * c.data_words {
        le16_at(mv, c.seg as int, c.data_off + 2 * idx)
    } else {
        0
    }
}

/// The 32-bit field at data index `idx` (byte offset `4 * idx`), or zero
/// when the stored struct is shorter.
pub open spec fn spec_get_u32(mv: Seq<Seq<u8>>, c: StructCursor, idx: int) -> u32 {
    if 0 <= idx && 4 * idx + 4 <= 8 * c.data_words {
        le32_at(mv, c.seg as int, c.data_off + 4 * idx)
    } else {
        0
    }
}

/// The 64-bit field at data index `idx` (byte offset `8 * idx`), or zero
/// when the stored struct is shorter.
pub open spec fn spec_get_u64(mv: Seq<Seq<u8>>, c: StructCursor, idx: int) -> u64 {
    if 0 <= idx && 8 * idx + 8 <= 8 * c.data_words {
        le64_at(mv, c.seg as int, c.data_off + 8 * idx)
    } else {
        0
    }
}

/// The raw pointer cell in slot `i`, or the null cell when the stored
/// struct has fewer pointer slots.
pub open spec fn spec_ptr_word(mv: Seq<Seq<u8>>, c: StructCursor, i: int) -> u64 {
    if 0 <= i < c.ptr_count {
        le64_at(mv, c.seg as int, c.data_off + 8 * c.data_words + 8 * i)
    } else {
        0
    }
}

/// Follow at most one far redirection from the cell value `v` read in
/// segment `seg`: the segment the object lives in and the direct pointer.
pub open spec fn spec_resolve(mv: Seq<Seq<u8>>, seg: int, v: u64) -> Result<(int, Pointer), Error> {
    match dec_ptr(v) {
        Option::None => Err(Error::SchemaMismatch),
        Option::Some(p) => match p {
            Pointer::Far { seg: fs, off } => {
                if fs < mv.len() && 8 * off + 8 <= mv[fs as int].len() {
                    match dec_ptr(le64_at(mv, fs as int, 8 * off)) {
                        Option::None => Err(Error::SchemaMismatch),
                        Option::Some(q) => match q {
                            Pointer::Far { .. } => Err(Error::SchemaMismatch),
                            _ => Ok((fs as int, q)),
                        },
                    }
                } else {
                    Err(Error::PointerOutOfBounds)
                }
            },
            _ => Ok((seg, p)),
        },
    }
}

/// Any pointer handed out by `spec_resolve` has in-range fields.
pub proof fn lemma_resolve_bounds(mv: Seq<Seq<u8>>, seg: int, v: u64)
    ensures
        spec_resolve(mv, seg, v) matches Ok(hp) ==> {
            &&& (hp.1 matches Pointer::Struct { off, .. } ==> off <= MAX_PTR_OFFSET)
            &&& (hp.1 matches Pointer::List { off, count, .. } ==> off <= MAX_PTR_OFFSET
                && count <= MAX_LIST_COUNT)
        },
{
    crate::pointer::lemma_dec_ptr_bounds(v);
    match dec_ptr(v) {
        Option::Some(Pointer::Far { seg: fs, off }) => {
            if fs < mv.len() && 8 * off + 8 <= mv[fs as int].len() {
                crate::pointer::lemma_dec_ptr_bounds(le64_at(mv, fs as int, 8 * off));
            }
        },
        _ => {},
    }
}

/// Resolve pointer slot `i` of `c` as a struct: `Ok(None)` for the null
/// cell (absent), a cursor whose footprint was checked against its
/// segment otherwise.
pub open spec fn spec_struct_field(mv: Seq<Seq<u8>>, c: StructCursor, i: int) -> Result<
    Option<StructCursor>,
    Error,
> {
    let v = spec_ptr_word(mv, c, i);
    if v == 0 {
        Ok(Option::None)
    } else {
        match spec_resolve(mv, c.seg as int, v) {
            Err(e) => Err(e),
            Ok((home, p)) => match p {
                Pointer::Null => Ok(Option::None),
                Pointer::Struct { off, data_words, ptr_count } => {
                    if 8 * off + 8 * data_words + 8 * ptr_count <= mv[home].len() {
                        Ok(
                            Option::Some(
                                StructCursor {
                                    seg: home as usize,
                                    data_off: (8 * off) as usize,
                                    data_words: data_words as usize,
                                    ptr_count: ptr_count as usize,
                                },
                            ),
                        )
                    } else {
                        Err(Error::PointerOutOfBounds)
                    }
                },
                _ => Err(Error::SchemaMismatch),
            },
        }
    }
}

/// Resolve pointer slot `i` of `c` as a list; `Ok(None)` for the null
/// cell.  A composite list is validated against its layout tag word: the
/// declared elements must fit the declared content words.
pub open spec fn spec_list_field(mv: Seq<Seq<u8>>, c: StructCursor, i: int) -> Result<
    Option<ListCursor>,
    Error,
> {
    let v = spec_ptr_word(mv, c, i);
    if v == 0 {
        Ok(Option::None)
    } else {
        match spec_resolve(mv, c.seg as int, v) {
            Err(e) => Err(e),
            Ok((home, p)) => match p {
                Pointer::Null => Ok(Option::None),
                Pointer::List { off, elem, count } => {
                    if elem is Composite {
                        if 8 * off + 8 + 8 * count <= mv[home].len() {
                            match dec_ptr(le64_at(mv, home, 8 * off)) {
                                Option::Some(
                                    Pointer::Struct { off: n, data_words, ptr_count },
                                ) => {
                                    if n <= count && n * (data_words + ptr_count) <= count {
                                        Ok(
                                            Option::Some(
                                                ListCursor {
                                                    seg: home as usize,
                                                    off: (8 * off + 8) as usize,
                                                    elem: ElemSize::Composite,
                                                    count: n as usize,
                                                    data_words: data_words as usize,
                                                    ptr_count: ptr_count as usize,
                                                },
                                            ),
                                        )
                                    } else {
                                        Err(Error::PointerOutOfBounds)
                                    }
                                },
                                _ => Err(Error::SchemaMismatch),
                            }
                        } else {
                            Err(Error::PointerOutOfBounds)
                        }
                    } else {
                        if 8 * off + count * spec_elem_bytes(elem) <= mv[home].len() {
                            Ok(
                                Option::Some(
                                    ListCursor {
                                        seg: home as usize,
                                        off: (8 * off) as usize,
                                        elem,
                                        count: count as usize,
                                        data_words: 0,
                                        ptr_count: 0,
                                    },
                                ),
                            )
                        } else {
                            Err(Error::PointerOutOfBounds)
                        }
                    }
                },
                _ => Err(Error::SchemaMismatch),
            },
        }
    }
}

/// The bytes of a byte list.
pub open spec fn spec_list_bytes(mv: Seq<Seq<u8>>, c: ListCursor) -> Seq<u8> {
    mv[c.seg as int].subrange(c.off as int, c.off + c.count)
}

/// The root cursor; callers check that segment 0 holds the root word.
pub fn root_cursor() -> (c: StructCursor)
    ensures
        c == spec_root_cursor(),
{
    StructCursor { seg: 0, data_off: 0, data_words: 0, ptr_count: 1 }
}

/// Read the byte at data index `idx`; zero beyond the stored footprint.
pub fn get_u8(m: &Message, c: StructCursor, idx: usize) -> (r: u8)
    requires
        m.wf(),
        scursor_wf(c, m@),
        idx <= MAX_FIELD_INDEX,
    ensures
        r == spec_get_u8(m@, c, idx as int),
{
    if idx + 1 <= 8 * c.data_words {
        m.read_u8(c.seg, c.data_off + idx)
    } else {
        0
    }
}

/// Read the 16-bit field at data index `idx`; zero beyond the stored
/// footprint.
pub fn get_u16(m: &Message, c: StructCursor, idx: usize) -> (r: u16)
    requires
        m.wf(),
        scursor_wf(c, m@),
        idx <= MAX_FIELD_INDEX,
    ensures
        r == spec_get_u16(m@, c, idx as int),
{
    if 2 * idx + 2 <= 8 * c.data_words {
        m.read_u16(c.seg, c.data_off + 2 * idx)
    } else {
        0
    }
}

/// Read the 32-bit field at data index `idx`; zero beyond the stored
/// footprint.
pub fn get_u32(m: &Message, c: StructCursor, idx: usize) -> (r: u32)
    requires
        m.wf(),
        scursor_wf(c, m@),
        idx <= MAX_FIELD_INDEX,
    ensures
        r == spec_get_u32(m@, c, idx as int),
{
    if 4 * idx + 4 <= 8 * c.data_words {
        m.read_u32(c.seg, c.data_off + 4 * idx)
    } else {
        0
    }
}

/// Read the 64-bit field at data index `idx`; zero beyond the stored
/// footprint.
pub fn get_u64(m: &Message, c: StructCursor, idx: usize) -> (r: u64)
    requires
        m.wf(),
        scursor_wf(c, m@),
        idx <= MAX_FIELD_INDEX,
    ensures
        r == spec_get_u64(m@, c, idx as int),
{
    if 8 * idx + 8 <= 8 * c.data_words {
        m.read_u64(c.seg, c.data_off + 8 * idx)
    } else {
        0
    }
}

/// Read the raw pointer cell in slot `i`; the null cell beyond the
/// stored footprint.
pub fn get_ptr_word(m: &Message, c: StructCursor, i: usize) -> (v: u64)
    requires
        m.wf(),
        scursor_wf(c, m@),
        i <= MAX_FIELD_INDEX,
    ensures
        v == spec_ptr_word(m@, c, i as int),
{
    if i < c.ptr_count {
        m.read_u64(c.seg, c.data_off + 8 * c.data_words + 8 * i)
    } else {
        0
    }
}

/// Whether pointer slot `i` holds a value.
pub fn has_ptr_field(m: &Message, c: StructCursor, i: usize) -> (r: bool)
    requires
        m.wf(),
        scursor_wf(c, m@),
        i <= MAX_FIELD_INDEX,
    ensures
        r == (spec_ptr_word(m@, c, i as int) != 0),
{
    get_ptr_word(m, c, i) != 0
}

/// Resolve pointer slot `i` as a struct; see `spec_struct_field`.  An
/// `Ok(Some(_))` cursor is always well formed: this is the pointer-safety
/// guarantee.
pub fn get_struct_field(m: &Message, c: StructCursor, i: usize) -> (r: Result<
    Option<StructCursor>,
    Error,
>)
    requires
        m.wf(),
        scursor_wf(c, m@),
        i <= MAX_FIELD_INDEX,
    ensures
        r == spec_struct_field(m@, c, i as int),
        r matches Ok(Some(sc)) ==> scursor_wf(sc, m@),
{
    let v = get_ptr_word(m, c, i);
    if v == 0 {
        return Ok(None);
    }
    let (home, p) = match resolve_ptr(m, c.seg, v) {
        Ok(hp) => hp,
        Err(e) => {
            return Err(e);
        },
    };
    match p {
        Pointer::Null => Ok(None),
        Pointer::Struct { off, data_words, ptr_count } => {
            let len64 = m.seg_len(home) as u64;
            let end64 = 8 * (off as u64) + 8 * (data_words as u64) + 8 * (ptr_count as u64);
            if end64 <= len64 {
                Ok(
                    Some(
                        StructCursor {
                            seg: home,
                            data_off: (8 * (off as u64)) as usize,
                            data_words: data_words as usize,
                            ptr_count: ptr_count as usize,
                        },
                    ),
                )
            } else {
                Err(Error::PointerOutOfBounds)
            }
        },
        _ => Err(Error::SchemaMismatch),
    }
}

/// Resolve pointer slot `i` as a list; see `spec_list_field`.
pub fn get_list_field(m: &Message, c: StructCursor, i: usize) -> (r: Result<
    Option<ListCursor>,
    Error,
>)
    requires
        m.wf(),
        scursor_wf(c, m@),
        i <= MAX_FIELD_INDEX,
    ensures
        r == spec_list_field(m@, c, i as int),
        r matches Ok(Some(lc)) ==> lcursor_wf(lc, m@),
{
    let v = get_ptr_word(m, c, i);
    if v == 0 {
        return Ok(None);
    }
    let (home, p) = match resolve_ptr(m, c.seg, v) {
        Ok(hp) => hp,
        Err(e) => {
            return Err(e);
        },
    };
    proof {
        lemma_resolve_bounds(m@, c.seg as int, v);
    }
    match p {
        Pointer::Null => Ok(None),
        Pointer::List { off, elem, count } => {
            let len64 = m.seg_len(home) as u64;
            match elem {
                ElemSize::Composite => {
                    if 8 * (off as u64) + 8 + 8 * (count as u64) <= len64 {
                        let tag = m.read_u64(home, (8 * (off as u64)) as usize);
                        match parse_ptr(tag) {
                            Some(Pointer::Struct { off: n, data_words, ptr_count }) => {
                                proof {
                                    assert((n as u64) * ((data_words as u64) + (ptr_count as u64))
                                        < 0x8000_0000_0000_0000u64) by (nonlinear_arith)
                                        requires
                                            (n as u64) < 0x1_0000_0000u64,
                                            ((data_words as u64) + (ptr_count as u64))
                                                < 0x2_0000u64,
                                    ;
                                }
                                if (n as u64) <= (count as u64) && (n as u64) * ((data_words
                                    as u64) + (ptr_count as u64)) <= (count as u64) {
                                    Ok(
                                        Some(
                                            ListCursor {
                                                seg: home,
                                                off: (8 * (off as u64) + 8) as usize,
                                                elem: ElemSize::Composite,
                                                count: n as usize,
                                                data_words: data_words as usize,
                                                ptr_count: ptr_count as usize,
                                            },
                                        ),
                                    )
                                } else {
                                    Err(Error::PointerOutOfBounds)
                                }
                            },
                            _ => Err(Error::SchemaMismatch),
                        }
                    } else {
                        Err(Error::PointerOutOfBounds)
                    }
                },
                _ => {
                    let eb = elem_bytes(elem);
                    proof {
                        assert((count as u64) * (eb as u64) < 0x8000_0000_0000_0000u64)
                            by (nonlinear_arith)
                            requires
                                (count as u64) < 0x1_0000_0000u64,
                                (eb as u64) <= 8,
                        ;
                    }
                    if 8 * (off as u64) + (count as u64) * (eb as u64) <= len64 {
                        Ok(
                            Some(
                                ListCursor {
                                    seg: home,
                                    off: (8 * (off as u64)) as usize,
                                    elem,
                                    count: count as usize,
                                    data_words: 0,
                                    ptr_count: 0,
                                },
                            ),
                        )
                    } else {
                        Err(Error::PointerOutOfBounds)
                    }
                },
            }
        },
        _ => Err(Error::SchemaMismatch),
    }
}

/// Follow at most one far redirection; exec mirror of `spec_resolve`.
pub fn resolve_ptr(m: &Message, seg: usize, v: u64) -> (r: Result<(usize, Pointer), Error>)
    requires
        seg < m@.len(),
    ensures
        r matches Ok(hp) ==> spec_resolve(m@, seg as int, v) == Ok::<(int, Pointer), Error>(
            (hp.0 as int, hp.1),
        ) && hp.0 < m@.len(),
        r matches Err(e) ==> spec_resolve(m@, seg as int, v) == Err::<(int, Pointer), Error>(e),
{
    match parse_ptr(v) {
        None => Err(Error::SchemaMismatch),
        Some(p) => match p {
            Pointer::Far { seg: fs, off } => {
                let fsu = fs as usize;
                let offu = off as usize;
                if fsu < m.seg_count() {
                    let len = m.seg_len(fsu);
                    if 8 * (off as u64) + 8 <= len as u64 {
                        let v2 = m.read_u64(fsu, 8 * offu);
                        match parse_ptr(v2) {
                            None => Err(Error::SchemaMismatch),
                            Some(Pointer::Far { .. }) => Err(Error::SchemaMismatch),
                            Some(q) => Ok((fsu, q)),
                        }
                    } else {
                        Err(Error::PointerOutOfBounds)
                    }
                } else {
                    Err(Error::PointerOutOfBounds)
                }
            },
            _ => Ok((seg, p)),
        },
    }
}

/// Byte offset of pointer cell `i` of `c`.
pub open spec fn spec_cell_off(c: StructCursor, i: int) -> int {
    c.data_off + 8 * c.data_words + 8 * i
}

/// Append-only frame condition of the builder: segments only grow, and
/// no byte that existed before changes, apart from the `n`-byte window at
/// `(seg, off)`.
pub open spec fn grows_except(
    old_mv: Seq<Seq<u8>>,
    new_mv: Seq<Seq<u8>>,
    seg: int,
    off: int,
    n: int,
) -> bool {
    &&& old_mv.len() <= new_mv.len()
    &&& forall|i: int| 0 <= i < old_mv.len() ==> old_mv[i].len() <= (#[trigger] new_mv[i]).len()
    &&& forall|i: int, j: int|
        0 <= i < old_mv.len() && 0 <= j < old_mv[i].len() && !(i == seg && off <= j < off + n)
            ==> #[trigger] new_mv[i][j] == old_mv[i][j]
}

/// Write the byte at data index `idx`.
pub fn set_u8(m: &mut Message, c: StructCursor, idx: usize, v: u8)
    requires
        old(m).wf(),
        scursor_wf(c, old(m)@),
        idx + 1 <= 8 * c.data_words,
    ensures
        final(m).wf(),
        final(m)@ == old(m)@.update(
            c.seg as int,
            update_bytes(old(m)@[c.seg as int], c.data_off + idx, seq![v]),
        ),
        spec_get_u8(final(m)@, c, idx as int) == v,
        scursor_wf(c, final(m)@),
{
    let bytes: [u8; 1] = [v];
    m.write_bytes(c.seg, c.data_off + idx, bytes.as_slice());
    proof {
        assert(bytes@ =~= seq![v]);
        lemma_update_bytes_facts(old(m)@[c.seg as int], c.data_off + idx, seq![v]);
    }
}

/// Write the 16-bit field at data index `idx`.
pub fn set_u16(m: &mut Message, c: StructCursor, idx: usize, v: u16)
    requires
        old(m).wf(),
        scursor_wf(c, old(m)@),
        2 * idx + 2 <= 8 * c.data_words,
    ensures
        final(m).wf(),
        final(m)@ == old(m)@.update(
            c.seg as int,
            update_bytes(
                old(m)@[c.seg as int],
                c.data_off + 2 * idx,
                crate::message::spec_u16_bytes(v),
            ),
        ),
        spec_get_u16(final(m)@, c, idx as int) == v,
        scursor_wf(c, final(m)@),
{
    m.write_u16(c.seg, c.data_off + 2 * idx, v);
}

/// Write the 32-bit field at data index `idx`.
pub fn set_u32(m: &mut Message, c: StructCursor, idx: usize, v: u32)
    requires
        old(m).wf(),
        scursor_wf(c, old(m)@),
        4 * idx + 4 <= 8 * c.data_words,
    ensures
        final(m).wf(),
        final(m)@ == old(m)@.update(
            c.seg as int,
            update_bytes(
                old(m)@[c.seg as int],
                c.data_off + 4 * idx,
                crate::message::spec_u32_bytes(v),
            ),
        ),
        spec_get_u32(final(m)@, c, idx as int) == v,
        scursor_wf(c, final(m)@),
{
    m.write_u32(c.seg, c.data_off + 4 * idx, v);
}

/// Write the 64-bit field at data index `idx`.
pub fn set_u64(m: &mut Message, c: StructCursor, idx: usize, v: u64)
    requires
        old(m).wf(),
        scursor_wf(c, old(m)@),
        8 * idx + 8 <= 8 * c.data_words,
    ensures
        final(m).wf(),
        final(m)@ == old(m)@.update(
            c.seg as int,
            update_bytes(
                old(m)@[c.seg as int],
                c.data_off + 8 * idx,
                crate::message::spec_u64_bytes(v),
            ),
        ),
        spec_get_u64(final(m)@, c, idx as int) == v,
        scursor_wf(c, final(m)@),
{
    m.write_u64(c.seg, c.data_off + 8 * idx, v);
}

/// Allocate `words` zeroed words for an object referenced from segment
/// `cseg`: either at the end of `cseg` itself, or, with a zeroed landing
/// pad right before it, in another segment.  Returns
/// `(segment, object word offset, pad word offset)`; the pad is
/// meaningful only when the segment differs from `cseg`.
fn place(m: &mut Message, cseg: usize, words: usize) -> (r: (usize, usize, usize))
    requires
        old(m).wf(),
        cseg < old(m)@.len(),
        old(m)@.len() < MAX_SEGMENTS,
        0 < words,
        words + 1 <= crate::message::MAX_SEGMENT_WORDS,
        8 <= old(m)@[cseg as int].len(),
    ensures
        final(m).wf(),
        old(m)@.len() <= final(m)@.len(),
        final(m)@.len() <= old(m)@.len() + 1,
        forall|i: int|
            0 <= i < old(m)@.len() ==> old(m)@[i].len() <= (#[trigger] final(m)@[i]).len(),
        forall|i: int, j: int|
            0 <= i < old(m)@.len() && 0 <= j < old(m)@[i].len() ==> #[trigger] final(m)@[i][j]
                == old(m)@[i][j],
        r.0 < final(m)@.len(),
        r.1 + words <= crate::message::MAX_SEGMENT_WORDS,
        final(m)@[r.0 as int].len() == (r.1 + words) * 8,
        forall|j: int| r.1 * 8 <= j < (r.1 + words) * 8 ==> final(m)@[r.0 as int][j] == 0u8,
        r.0 == cseg ==> r.1 * 8 == old(m)@[cseg as int].len() && 1 <= r.1,
        r.0 != cseg ==> {
            &&& r.1 == r.2 + 1
            &&& forall|j: int| r.2 * 8 <= j < r.1 * 8 ==> final(m)@[r.0 as int][j] == 0u8
            &&& (r.0 < old(m)@.len() ==> r.2 * 8 == old(m)@[r.0 as int].len())
            &&& (r.0 >= old(m)@.len() ==> r.2 == 0 && r.0 == old(m)@.len())
        },
        r.1 * 8 + 8 * words == final(m)@[r.0 as int].len(),
        r.0 < old(m)@.len() ==> r.1 * 8 >= old(m)@[r.0 as int].len(),
{
    match m.try_alloc_in(cseg, words) {
        Some(off) => (cseg, off, 0),
        None => {
            proof {
                if cseg == old(m)@.len() - 1 {
                    if m.can_extend(words as int + 1) {
                        m.lemma_can_extend_mono(words as int, words as int + 1);
                    }
                }
            }
            let wp = words + 1;
            let (s, o) = m.allocate(wp);
            (s, o + 1, o)
        },
    }
}

/// Allocate fresh storage for a struct value in pointer slot `i` of `c`,
/// overwriting any previous pointer there.  The new struct is zeroed and
/// resolvable through the slot; no byte that existed before changes,
/// apart from the slot's cell.
#[verifier::rlimit(60)]
pub fn init_struct_field(
    m: &mut Message,
    c: StructCursor,
    i: usize,
    data_words: u16,
    ptr_count: u16,
) -> (r: StructCursor)
    requires
        old(m).wf(),
        scursor_wf(c, old(m)@),
        i < c.ptr_count,
        old(m)@.len() < MAX_SEGMENTS,
        1 <= data_words + ptr_count,
    ensures
        final(m).wf(),
        final(m)@.len() <= old(m)@.len() + 1,
       
        scursor_wf(r, final(m)@),
        r.data_words == data_words as usize,
        r.ptr_count == ptr_count as usize,
        spec_struct_field(final(m)@, c, i as int) == Ok::<Option<StructCursor>, Error>(Some(r)),
        forall|j: int|
            r.data_off <= j < r.data_off + 8 * (r.data_words + r.ptr_count) ==> final(m)@[
                r.seg as int
            ][j] == 0u8,
        grows_except(old(m)@, final(m)@, c.seg as int, spec_cell_off(c, i as int), 8),
        scursor_wf(c, final(m)@),
        r.seg < old(m)@.len() ==> r.data_off >= old(m)@[r.seg as int].len(),
        (dec_ptr(spec_ptr_word(final(m)@, c, i as int)) matches Some(Pointer::Far {
            seg: fs,
            off,
        }) ==> fs == r.seg && 8 * off + 8 == r.data_off && r.seg != c.seg),
        forall|mv2: Seq<Seq<u8>>|
            grows_except(
                final(m)@,
                mv2,
                r.seg as int,
                r.data_off as int,
                8 * (r.data_words + r.ptr_count),
            ) ==> spec_struct_field(mv2, c, i as int) == Ok::<Option<StructCursor>, Error>(
                Some(r),
            ),
{
    let words = data_words as usize + ptr_count as usize;
    let ghost mv0 = m@;
    let (oseg, ooff, poff) = place(m, c.seg, words);
    let ghost mv1 = m@;
    let cell = c.data_off + 8 * c.data_words + 8 * i;
    let r = StructCursor {
        seg: oseg,
        data_off: 8 * ooff,
        data_words: data_words as usize,
        ptr_count: ptr_count as usize,
    };
    if oseg == c.seg {
        let v = encode_struct_ptr(ooff as u32, data_words, ptr_count);
        m.write_u64(c.seg, cell, v);
        proof {
            lemma_struct_roundtrip(ooff as u32, data_words, ptr_count);
            crate::message::lemma_u64_bytes_roundtrip(v);
            crate::message::lemma_update_bytes_facts(
                mv1[c.seg as int],
                cell as int,
                crate::message::spec_u64_bytes(v),
            );
            assert(spec_ptr_word(m@, c, i as int) == v);
            assert(spec_struct_field(m@, c, i as int) == Ok::<Option<StructCursor>, Error>(
                Some(r),
            ));
            assert forall|mv2: Seq<Seq<u8>>|
                grows_except(
                    m@,
                    mv2,
                    r.seg as int,
                    r.data_off as int,
                    8 * (r.data_words + r.ptr_count),
                ) implies spec_struct_field(mv2, c, i as int) == Ok::<
                Option<StructCursor>,
                Error,
            >(Some(r)) by {
                assert forall|j: int| cell <= j < cell + 8 implies mv2[c.seg as int][j] == m@[
                    c.seg as int
                ][j] by {}
                assert(mv2[c.seg as int].subrange(cell as int, cell + 8) =~= m@[
                    c.seg as int
                ].subrange(cell as int, cell + 8));
                lemma_struct_field_preserved(m@, mv2, c, i as int);
            }
        }
        r
    } else {
        let pad = encode_struct_ptr(ooff as u32, data_words, ptr_count);
        m.write_u64(oseg, 8 * poff, pad);
        let ghost mv2 = m@;
        let fv = encode_far_ptr(oseg as u32, poff as u32);
        m.write_u64(c.seg, cell, fv);
        proof {
            lemma_struct_roundtrip(ooff as u32, data_words, ptr_count);
            lemma_far_roundtrip(oseg as u32, poff as u32);
            crate::message::lemma_u64_bytes_roundtrip(pad);
            crate::message::lemma_update_bytes_facts(
                mv1[oseg as int],
                8 * poff as int,
                crate::message::spec_u64_bytes(pad),
            );
            crate::message::lemma_u64_bytes_roundtrip(fv);
            crate::message::lemma_update_bytes_facts(
                mv2[c.seg as int],
                cell as int,
                crate::message::spec_u64_bytes(fv),
            );
            assert(m@[oseg as int] == mv2[oseg as int]);
            assert(le64_at(m@, oseg as int, 8 * poff as int) == pad);
            assert(spec_ptr_word(m@, c, i as int) == fv);
            assert(spec_resolve(m@, c.seg as int, fv) == Ok::<(int, Pointer), Error>(
                (oseg as int, Pointer::Struct { off: ooff as u32, data_words, ptr_count }),
            ));
            assert(spec_struct_field(m@, c, i as int) == Ok::<Option<StructCursor>, Error>(
                Some(r),
            ));
            assert forall|mv2: Seq<Seq<u8>>|
                grows_except(
                    m@,
                    mv2,
                    r.seg as int,
                    r.data_off as int,
                    8 * (r.data_words + r.ptr_count),
                ) implies spec_struct_field(mv2, c, i as int) == Ok::<
                Option<StructCursor>,
                Error,
            >(Some(r)) by {
                assert forall|j: int| cell <= j < cell + 8 implies mv2[c.seg as int][j] == m@[
                    c.seg as int
                ][j] by {}
                assert(mv2[c.seg as int].subrange(cell as int, cell + 8) =~= m@[
                    c.seg as int
                ].subrange(cell as int, cell + 8));
                assert forall|j: int| 8 * poff <= j < 8 * poff + 8 implies mv2[oseg as int][j]
                    == m@[oseg as int][j] by {}
                assert(mv2[oseg as int].subrange(8 * poff as int, 8 * poff + 8) =~= m@[
                    oseg as int
                ].subrange(8 * poff as int, 8 * poff + 8));
                lemma_struct_field_preserved(m@, mv2, c, i as int);
            }
        }
        r
    }
}

/// Allocate fresh zeroed storage for a byte list of `count` elements in
/// pointer slot `i` of `c`.
#[verifier::rlimit(60)]
pub fn init_byte_list_field(m: &mut Message, c: StructCursor, i: usize, count: u32) -> (r:
    ListCursor)
    requires
        old(m).wf(),
        scursor_wf(c, old(m)@),
        i < c.ptr_count,
        old(m)@.len() < MAX_SEGMENTS,
        count <= MAX_LIST_COUNT,
    ensures
        final(m).wf(),
        final(m)@.len() <= old(m)@.len() + 1,
       
        lcursor_wf(r, final(m)@),
        r.elem is One,
        r.count == count as usize,
        spec_list_field(final(m)@, c, i as int) == Ok::<Option<ListCursor>, Error>(Some(r)),
        forall|j: int| r.off <= j < r.off + r.count ==> final(m)@[r.seg as int][j] == 0u8,
        grows_except(old(m)@, final(m)@, c.seg as int, spec_cell_off(c, i as int), 8),
        scursor_wf(c, final(m)@),
        r.seg < old(m)@.len() ==> r.off >= old(m)@[r.seg as int].len(),
        (dec_ptr(spec_ptr_word(final(m)@, c, i as int)) matches Some(Pointer::Far {
            seg: fs,
            off,
        }) ==> fs == r.seg && 8 * off + 8 == r.off && r.seg != c.seg),
        forall|mv2: Seq<Seq<u8>>|
            grows_except(final(m)@, mv2, r.seg as int, r.off as int, r.count as int)
                ==> spec_list_field(mv2, c, i as int) == Ok::<Option<ListCursor>, Error>(Some(r)),
{
    let words = (count as usize) / 8 + 1;
    let ghost mv0 = m@;
    let (oseg, ooff, poff) = place(m, c.seg, words);
    let ghost mv1 = m@;
    let cell = c.data_off + 8 * c.data_words + 8 * i;
    let r = ListCursor {
        seg: oseg,
        off: 8 * ooff,
        elem: ElemSize::One,
        count: count as usize,
        data_words: 0,
        ptr_count: 0,
    };
    if oseg == c.seg {
        let v = encode_list_ptr(ooff as u32, ElemSize::One, count);
        m.write_u64(c.seg, cell, v);
        proof {
            lemma_list_roundtrip(ooff as u32, ElemSize::One, count);
            crate::message::lemma_u64_bytes_roundtrip(v);
            crate::message::lemma_update_bytes_facts(
                mv1[c.seg as int],
                cell as int,
                crate::message::spec_u64_bytes(v),
            );
            assert(spec_ptr_word(m@, c, i as int) == v);
            assert(spec_list_field(m@, c, i as int) == Ok::<Option<ListCursor>, Error>(Some(r)));
            assert forall|mv2: Seq<Seq<u8>>|
                grows_except(m@, mv2, r.seg as int, r.off as int, r.count as int)
                    implies spec_list_field(mv2, c, i as int) == Ok::<Option<ListCursor>, Error>(
                Some(r),
            ) by {
                assert forall|j: int| cell <= j < cell + 8 implies mv2[c.seg as int][j] == m@[
                    c.seg as int
                ][j] by {}
                assert(mv2[c.seg as int].subrange(cell as int, cell + 8) =~= m@[
                    c.seg as int
                ].subrange(cell as int, cell + 8));
                lemma_list_field_preserved(m@, mv2, c, i as int);
            }
        }
        r
    } else {
        let pad = encode_list_ptr(ooff as u32, ElemSize::One, count);
        m.write_u64(oseg, 8 * poff, pad);
        let ghost mv2 = m@;
        let fv = encode_far_ptr(oseg as u32, poff as u32);
        m.write_u64(c.seg, cell, fv);
        proof {
            lemma_list_roundtrip(ooff as u32, ElemSize::One, count);
            lemma_far_roundtrip(oseg as u32, poff as u32);
            crate::message::lemma_u64_bytes_roundtrip(pad);
            crate::message::lemma_update_bytes_facts(
                mv1[oseg as int],
                8 * poff as int,
                crate::message::spec_u64_bytes(pad),
            );
            crate::message::lemma_u64_bytes_roundtrip(fv);
            crate::message::lemma_update_bytes_facts(
                mv2[c.seg as int],
                cell as int,
                crate::message::spec_u64_bytes(fv),
            );
            assert(m@[oseg as int] == mv2[oseg as int]);
            assert(le64_at(m@, oseg as int, 8 * poff as int) == pad);
            assert(spec_ptr_word(m@, c, i as int) == fv);
            assert(spec_resolve(m@, c.seg as int, fv) == Ok::<(int, Pointer), Error>(
                (oseg as int, Pointer::List { off: ooff as u32, elem: ElemSize::One, count }),
            ));
            assert(spec_list_field(m@, c, i as int) == Ok::<Option<ListCursor>, Error>(Some(r)));
            assert forall|mv2: Seq<Seq<u8>>|
                grows_except(m@, mv2, r.seg as int, r.off as int, r.count as int)
                    implies spec_list_field(mv2, c, i as int) == Ok::<Option<ListCursor>, Error>(
                Some(r),
            ) by {
                assert forall|j: int| cell <= j < cell + 8 implies mv2[c.seg as int][j] == m@[
                    c.seg as int
                ][j] by {}
                assert(mv2[c.seg as int].subrange(cell as int, cell + 8) =~= m@[
                    c.seg as int
                ].subrange(cell as int, cell + 8));
                assert forall|j: int| 8 * poff <= j < 8 * poff + 8 implies mv2[oseg as int][j]
                    == m@[oseg as int][j] by {}
                assert(mv2[oseg as int].subrange(8 * poff as int, 8 * poff + 8) =~= m@[
                    oseg as int
                ].subrange(8 * poff as int, 8 * poff + 8));
                lemma_list_field_preserved(m@, mv2, c, i as int);
            }
        }
        r
    }
}

/// Allocate fresh zeroed storage for a composite list of `count` struct
/// elements in pointer slot `i` of `c`; the per-element layout goes into
/// the tag word before the elements.
#[verifier::rlimit(100)]
pub fn init_composite_list_field(
    m: &mut Message,
    c: StructCursor,
    i: usize,
    count: u32,
    data_words: u16,
    ptr_count: u16,
) -> (r: ListCursor)
    requires
        old(m).wf(),
        scursor_wf(c, old(m)@),
        i < c.ptr_count,
        old(m)@.len() < MAX_SEGMENTS,
        1 <= data_words + ptr_count,
        count * (data_words + ptr_count) + 2 <= crate::message::MAX_SEGMENT_WORDS,
    ensures
        final(m).wf(),
        final(m)@.len() <= old(m)@.len() + 1,
       
        lcursor_wf(r, final(m)@),
        r.elem is Composite,
        r.count == count as usize,
        r.data_words == data_words as usize,
        r.ptr_count == ptr_count as usize,
        spec_list_field(final(m)@, c, i as int) == Ok::<Option<ListCursor>, Error>(Some(r)),
        forall|j: int|
            r.off <= j < r.off + 8 * (r.count * (r.data_words + r.ptr_count)) ==> final(m)@[
                r.seg as int
            ][j] == 0u8,
        grows_except(old(m)@, final(m)@, c.seg as int, spec_cell_off(c, i as int), 8),
        scursor_wf(c, final(m)@),
        r.seg < old(m)@.len() ==> r.off >= old(m)@[r.seg as int].len(),
        forall|mv2: Seq<Seq<u8>>|
            grows_except(
                final(m)@,
                mv2,
                r.seg as int,
                r.off as int,
                8 * (r.count * (r.data_words + r.ptr_count)),
            ) ==> spec_list_field(mv2, c, i as int) == Ok::<Option<ListCursor>, Error>(Some(r)),
{
    proof {
        assert((count as int) <= (count as int) * ((data_words as int) + (ptr_count as int)))
            by (nonlinear_arith)
            requires
                1 <= (data_words as int) + (ptr_count as int),
                0 <= count as int,
        ;
        assert((count as u64) * ((data_words as u64) + (ptr_count as u64)) == (count as int) * ((
        data_words as int) + (ptr_count as int))) by (nonlinear_arith)
            requires
                (count as int) * ((data_words as int) + (ptr_count as int)) + 2
                    <= crate::message::MAX_SEGMENT_WORDS,
        ;
    }
    let content64 = (count as u64) * ((data_words as u64) + (ptr_count as u64));
    let content = content64 as usize;
    let words = 1 + content;
    let ghost mv0 = m@;
    let (oseg, ooff, poff) = place(m, c.seg, words);
    let ghost mv1 = m@;
    let cell = c.data_off + 8 * c.data_words + 8 * i;
    let r = ListCursor {
        seg: oseg,
        off: 8 * ooff + 8,
        elem: ElemSize::Composite,
        count: count as usize,
        data_words: data_words as usize,
        ptr_count: ptr_count as usize,
    };
    let tag = encode_struct_ptr(count, data_words, ptr_count);
    m.write_u64(oseg, 8 * ooff, tag);
    let ghost mv2 = m@;
    proof {
        vstd::bytes::lemma_auto_spec_u64_to_from_le_bytes();
        lemma_struct_roundtrip(count, data_words, ptr_count);
        crate::message::lemma_u64_bytes_roundtrip(tag);
        crate::message::lemma_update_bytes_facts(
            mv1[oseg as int],
            8 * ooff as int,
            crate::message::spec_u64_bytes(tag),
        );
    }
    if oseg == c.seg {
        let v = encode_list_ptr(ooff as u32, ElemSize::Composite, content as u32);
        m.write_u64(c.seg, cell, v);
        proof {
            lemma_list_roundtrip(ooff as u32, ElemSize::Composite, content as u32);
            crate::message::lemma_u64_bytes_roundtrip(v);
            crate::message::lemma_update_bytes_facts(
                mv2[c.seg as int],
                cell as int,
                crate::message::spec_u64_bytes(v),
            );
            crate::message::lemma_update_bytes_disjoint(
                mv2[c.seg as int],
                cell as int,
                crate::message::spec_u64_bytes(v),
                8 * ooff as int,
                8 * ooff as int + 8,
            );
            assert(le64_at(m@, oseg as int, 8 * ooff as int) == tag);
            assert(spec_ptr_word(m@, c, i as int) == v);
            assert(spec_list_field(m@, c, i as int) == Ok::<Option<ListCursor>, Error>(Some(r)));
            assert forall|mv2: Seq<Seq<u8>>|
                grows_except(
                    m@,
                    mv2,
                    r.seg as int,
                    r.off as int,
                    8 * (r.count * (r.data_words + r.ptr_count)),
                ) implies spec_list_field(mv2, c, i as int) == Ok::<Option<ListCursor>, Error>(
                Some(r),
            ) by {
                assert forall|j: int| cell <= j < cell + 8 implies mv2[c.seg as int][j] == m@[
                    c.seg as int
                ][j] by {}
                assert(mv2[c.seg as int].subrange(cell as int, cell + 8) =~= m@[
                    c.seg as int
                ].subrange(cell as int, cell + 8));
                assert forall|j: int| 8 * ooff <= j < 8 * ooff + 8 implies mv2[oseg as int][j]
                    == m@[oseg as int][j] by {}
                assert(mv2[oseg as int].subrange(8 * ooff as int, 8 * ooff + 8) =~= m@[
                    oseg as int
                ].subrange(8 * ooff as int, 8 * ooff + 8));
                lemma_list_field_preserved(m@, mv2, c, i as int);
            }
        }
        r
    } else {
        let pad = encode_list_ptr(ooff as u32, ElemSize::Composite, content as u32);
        m.write_u64(oseg, 8 * poff, pad);
        let ghost mv3 = m@;
        let fv = encode_far_ptr(oseg as u32, poff as u32);
        m.write_u64(c.seg, cell, fv);
        proof {
            lemma_list_roundtrip(ooff as u32, ElemSize::Composite, content as u32);
            lemma_far_roundtrip(oseg as u32, poff as u32);
            crate::message::lemma_u64_bytes_roundtrip(pad);
            crate::message::lemma_update_bytes_facts(
                mv2[oseg as int],
                8 * poff as int,
                crate::message::spec_u64_bytes(pad),
            );
            crate::message::lemma_update_bytes_disjoint(
                mv2[oseg as int],
                8 * poff as int,
                crate::message::spec_u64_bytes(pad),
                8 * ooff as int,
                8 * ooff as int + 8,
            );
            crate::message::lemma_u64_bytes_roundtrip(fv);
            crate::message::lemma_update_bytes_facts(
                mv3[c.seg as int],
                cell as int,
                crate::message::spec_u64_bytes(fv),
            );
            assert(m@[oseg as int] == mv3[oseg as int]);
            assert(le64_at(m@, oseg as int, 8 * poff as int) == pad);
            assert(le64_at(m@, oseg as int, 8 * ooff as int) == tag);
            assert(spec_ptr_word(m@, c, i as int) == fv);
            assert(spec_resolve(m@, c.seg as int, fv) == Ok::<(int, Pointer), Error>(
                (
                    oseg as int,
                    Pointer::List {
                        off: ooff as u32,
                        elem: ElemSize::Composite,
                        count: content as u32,
                    },
                ),
            ));
            assert(spec_list_field(m@, c, i as int) == Ok::<Option<ListCursor>, Error>(Some(r)));
            assert forall|mv2: Seq<Seq<u8>>|
                grows_except(
                    m@,
                    mv2,
                    r.seg as int,
                    r.off as int,
                    8 * (r.count * (r.data_words + r.ptr_count)),
                ) implies spec_list_field(mv2, c, i as int) == Ok::<Option<ListCursor>, Error>(
                Some(r),
            ) by {
                assert forall|j: int| cell <= j < cell + 8 implies mv2[c.seg as int][j] == m@[
                    c.seg as int
                ][j] by {}
                assert(mv2[c.seg as int].subrange(cell as int, cell + 8) =~= m@[
                    c.seg as int
                ].subrange(cell as int, cell + 8));
                assert forall|j: int| 8 * poff <= j < 8 * ooff + 8 implies mv2[oseg as int][j]
                    == m@[oseg as int][j] by {}
                assert(mv2[oseg as int].subrange(8 * poff as int, 8 * poff + 8) =~= m@[
                    oseg as int
                ].subrange(8 * poff as int, 8 * poff + 8));
                assert(mv2[oseg as int].subrange(8 * ooff as int, 8 * ooff + 8) =~= m@[
                    oseg as int
                ].subrange(8 * ooff as int, 8 * ooff + 8));
                lemma_list_field_preserved(m@, mv2, c, i as int);
            }
        }
        r
    }
}

/// The cursor of element `k` of a composite list.
pub open spec fn spec_list_elem_cursor(lc: ListCursor, k: int) -> StructCursor {
    StructCursor {
        seg: lc.seg,
        data_off: (lc.off + 8 * (k * (lc.data_words + lc.ptr_count))) as usize,
        data_words: lc.data_words,
        ptr_count: lc.ptr_count,
    }
}

/// Element `k` of a composite list, as a struct cursor.
pub fn list_struct_at(m: &Message, lc: ListCursor, k: usize) -> (r: StructCursor)
    requires
        m.wf(),
        lcursor_wf(lc, m@),
        lc.elem is Composite,
        k < lc.count,
    ensures
        r == spec_list_elem_cursor(lc, k as int),
        scursor_wf(r, m@),
{
    let stride = lc.data_words + lc.ptr_count;
    proof {
        assert((k as int) * (stride as int) + (stride as int) <= (lc.count as int) * (stride
            as int)) by (nonlinear_arith)
            requires
                (k as int) < (lc.count as int),
                0 <= stride as int,
        ;
        assert(0 <= (k as int) * (stride as int)) by (nonlinear_arith)
            requires
                0 <= k as int,
                0 <= stride as int,
        ;
    }
    let koff = k * stride;
    StructCursor {
        seg: lc.seg,
        data_off: lc.off + 8 * koff,
        data_words: lc.data_words,
        ptr_count: lc.ptr_count,
    }
}

/// The byte at index `k` of a byte list.
pub fn list_get_u8(m: &Message, lc: ListCursor, k: usize) -> (r: u8)
    requires
        m.wf(),
        lcursor_wf(lc, m@),
        lc.elem is One,
        k < lc.count,
    ensures
        r == spec_list_bytes(m@, lc)[k as int],
{
    m.read_u8(lc.seg, lc.off + k)
}

/// Overwrite the byte at index `k` of a byte list.
pub fn list_set_u8(m: &mut Message, lc: ListCursor, k: usize, v: u8)
    requires
        old(m).wf(),
        lcursor_wf(lc, old(m)@),
        lc.elem is One,
        k < lc.count,
    ensures
        final(m).wf(),
        final(m)@ == old(m)@.update(
            lc.seg as int,
            update_bytes(old(m)@[lc.seg as int], lc.off + k, seq![v]),
        ),
        spec_list_bytes(final(m)@, lc) == spec_list_bytes(old(m)@, lc).update(k as int, v),
        lcursor_wf(lc, final(m)@),
{
    let bytes: [u8; 1] = [v];
    m.write_bytes(lc.seg, lc.off + k, bytes.as_slice());
    proof {
        assert(bytes@ =~= seq![v]);
        lemma_update_bytes_facts(old(m)@[lc.seg as int], lc.off + k, seq![v]);
        assert(spec_list_bytes(m@, lc) =~= spec_list_bytes(old(m)@, lc).update(k as int, v));
    }
}

/// A copy of the contents of a byte list.
pub fn list_read_bytes(m: &Message, lc: ListCursor) -> (r: Vec<u8>)
    requires
        m.wf(),
        lcursor_wf(lc, m@),
        lc.elem is One,
    ensures
        r@ == spec_list_bytes(m@, lc),
{
    m.read_bytes(lc.seg, lc.off, lc.count)
}

/// Overwrite the whole contents of a byte list.
pub fn list_write_bytes(m: &mut Message, lc: ListCursor, src: &[u8])
    requires
        old(m).wf(),
        lcursor_wf(lc, old(m)@),
        lc.elem is One,
        src@.len() == lc.count,
    ensures
        final(m).wf(),
        final(m)@ == old(m)@.update(
            lc.seg as int,
            update_bytes(old(m)@[lc.seg as int], lc.off as int, src@),
        ),
        spec_list_bytes(final(m)@, lc) == src@,
        lcursor_wf(lc, final(m)@),
{
    m.write_bytes(lc.seg, lc.off, src);
    proof {
        lemma_update_bytes_facts(old(m)@[lc.seg as int], lc.off as int, src@);
        assert(spec_list_bytes(m@, lc) =~= src@);
    }
}


/// Growth of the message that keeps the bytes a pointer slot's
/// resolution reads (the cell, and any far landing pad) also keeps the
/// resolved struct.
pub proof fn lemma_struct_field_preserved(
    mv1: Seq<Seq<u8>>,
    mv2: Seq<Seq<u8>>,
    c: StructCursor,
    i: int,
)
    requires
        scursor_wf(c, mv1),
        mv1.len() <= mv2.len(),
        forall|s: int| 0 <= s < mv1.len() ==> mv1[s].len() <= (#[trigger] mv2[s]).len(),
        mv2[c.seg as int].subrange(spec_cell_off(c, i), spec_cell_off(c, i) + 8) == mv1[
            c.seg as int
        ].subrange(spec_cell_off(c, i), spec_cell_off(c, i) + 8),
        (match dec_ptr(spec_ptr_word(mv1, c, i)) {
            Option::Some(Pointer::Far { seg: fs, off }) => {
                fs < mv1.len() && 8 * off + 8 <= mv1[fs as int].len() ==> mv2[fs as int].subrange(
                    8 * off,
                    8 * off + 8,
                ) == mv1[fs as int].subrange(8 * off, 8 * off + 8)
            },
            _ => true,
        }),
    ensures
        forall|o: Option<StructCursor>|
            spec_struct_field(mv1, c, i) == Ok::<Option<StructCursor>, Error>(o)
                ==> spec_struct_field(mv2, c, i) == Ok::<Option<StructCursor>, Error>(o),
{
    let v = spec_ptr_word(mv1, c, i);
    assert(spec_ptr_word(mv2, c, i) == v);
    if v != 0 {
        match dec_ptr(v) {
            Option::Some(Pointer::Far { seg: fs, off }) => {
                if fs < mv1.len() && 8 * off + 8 <= mv1[fs as int].len() {
                    assert(le64_at(mv2, fs as int, 8 * off) == le64_at(mv1, fs as int, 8 * off));
                }
            },
            _ => {},
        }
    }
}

/// The list counterpart of `lemma_struct_field_preserved`; for a
/// composite list the layout tag word must also keep its bytes.
pub proof fn lemma_list_field_preserved(
    mv1: Seq<Seq<u8>>,
    mv2: Seq<Seq<u8>>,
    c: StructCursor,
    i: int,
)
    requires
        scursor_wf(c, mv1),
        mv1.len() <= mv2.len(),
        forall|s: int| 0 <= s < mv1.len() ==> mv1[s].len() <= (#[trigger] mv2[s]).len(),
        mv2[c.seg as int].subrange(spec_cell_off(c, i), spec_cell_off(c, i) + 8) == mv1[
            c.seg as int
        ].subrange(spec_cell_off(c, i), spec_cell_off(c, i) + 8),
        (match dec_ptr(spec_ptr_word(mv1, c, i)) {
            Option::Some(Pointer::Far { seg: fs, off }) => {
                fs < mv1.len() && 8 * off + 8 <= mv1[fs as int].len() ==> mv2[fs as int].subrange(
                    8 * off,
                    8 * off + 8,
                ) == mv1[fs as int].subrange(8 * off, 8 * off + 8)
            },
            _ => true,
        }),
        (match spec_resolve(mv1, c.seg as int, spec_ptr_word(mv1, c, i)) {
            Ok((home, Pointer::List { off, elem: ElemSize::Composite, count })) => {
                8 * off + 8 <= mv1[home].len() ==> mv2[home].subrange(8 * off, 8 * off + 8)
                    == mv1[home].subrange(8 * off, 8 * off + 8)
            },
            _ => true,
        }),
    ensures
        forall|o: Option<ListCursor>|
            spec_list_field(mv1, c, i) == Ok::<Option<ListCursor>, Error>(o) ==> spec_list_field(
                mv2,
                c,
                i,
            ) == Ok::<Option<ListCursor>, Error>(o),
{
    let v = spec_ptr_word(mv1, c, i);
    assert(spec_ptr_word(mv2, c, i) == v);
    if v != 0 {
        match dec_ptr(v) {
            Option::Some(Pointer::Far { seg: fs, off }) => {
                if fs < mv1.len() && 8 * off + 8 <= mv1[fs as int].len() {
                    assert(le64_at(mv2, fs as int, 8 * off) == le64_at(mv1, fs as int, 8 * off));
                }
            },
            _ => {},
        }
        match spec_resolve(mv1, c.seg as int, v) {
            Ok((home, p)) => match p {
                Pointer::List { off, elem, count } => {
                    if elem is Composite && 8 * off + 8 <= mv1[home].len() {
                        assert(spec_resolve(mv2, c.seg as int, v) == Ok::<(int, Pointer), Error>(
                            (home, p),
                        ));
                        assert(le64_at(mv2, home, 8 * off) == le64_at(mv1, home, 8 * off));
                    }
                },
                _ => {},
            },
            Err(_) => {},
        }
    }
}


/// An exact byte-patch is in particular an append-only change confined
/// to its window.
pub proof fn lemma_update_grows(
    mv1: Seq<Seq<u8>>,
    mv2: Seq<Seq<u8>>,
    seg: int,
    off: int,
    b: Seq<u8>,
)
    requires
        0 <= seg < mv1.len(),
        0 <= off,
        off + b.len() <= mv1[seg].len(),
        mv2 == mv1.update(seg, update_bytes(mv1[seg], off, b)),
    ensures
        grows_except(mv1, mv2, seg, off, b.len() as int),
{
    lemma_update_bytes_facts(mv1[seg], off, b);
}

/// Chaining frame conditions: a second change confined to a sub-window
/// keeps the whole change confined to the window.
pub proof fn lemma_grows_except_step(
    mv0: Seq<Seq<u8>>,
    mv1: Seq<Seq<u8>>,
    mv2: Seq<Seq<u8>>,
    seg: int,
    off: int,
    n: int,
    soff: int,
    sn: int,
)
    requires
        grows_except(mv0, mv1, seg, off, n),
        grows_except(mv1, mv2, seg, soff, sn),
        off <= soff,
        soff + sn <= off + n,
    ensures
        grows_except(mv0, mv2, seg, off, n),
{
    assert forall|i: int, j: int|
        0 <= i < mv0.len() && 0 <= j < mv0[i].len() && !(i == seg && off <= j < off + n)
            implies #[trigger] mv2[i][j] == mv0[i][j] by {
        assert(mv1[i][j] == mv0[i][j]);
        assert(j < mv1[i].len());
        assert(mv2[i][j] == mv1[i][j]);
    }
}


/// Chaining frame conditions: a second change that stays inside storage
/// that did not yet exist at the start touches no original byte.
pub proof fn lemma_grows_disjoint_chain(
    mv0: Seq<Seq<u8>>,
    mv1: Seq<Seq<u8>>,
    mv2: Seq<Seq<u8>>,
    seg: int,
    off: int,
    n: int,
    aseg: int,
    alo: int,
    an: int,
)
    requires
        grows_except(mv0, mv1, seg, off, n),
        grows_except(mv1, mv2, aseg, alo, an),
        aseg < mv0.len() ==> alo >= mv0[aseg].len(),
    ensures
        grows_except(mv0, mv2, seg, off, n),
{
    assert forall|i: int, j: int|
        0 <= i < mv0.len() && 0 <= j < mv0[i].len() && !(i == seg && off <= j < off + n)
            implies #[trigger] mv2[i][j] == mv0[i][j] by {
        assert(mv1[i][j] == mv0[i][j]);
        assert(j < mv1[i].len());
        if i == aseg {
            assert(j < mv0[aseg].len());
        }
        assert(mv2[i][j] == mv1[i][j]);
    }
}

/// The message's root object: the struct behind the pointer cell at word
/// 0 of segment 0; absent when that cell is null or segment 0 does not
/// even hold the root word.
pub open spec fn spec_root_field(mv: Seq<Seq<u8>>) -> Result<Option<StructCursor>, Error> {
    if 8 <= mv[0].len() {
        spec_struct_field(mv, spec_root_cursor(), 0)
    } else {
        Ok(Option::None)
    }
}

/// Resolve the root struct; see `spec_root_field`.
pub fn get_root(m: &Message) -> (r: Result<Option<StructCursor>, Error>)
    requires
        m.wf(),
    ensures
        r == spec_root_field(m@),
        r matches Ok(Some(sc)) ==> scursor_wf(sc, m@),
{
    if m.seg_len(0) < 8 {
        Ok(None)
    } else {
        get_struct_field(m, root_cursor(), 0)
    }
}

/// Allocate the message's root struct, overwriting any previous root.
pub fn init_root(m: &mut Message, data_words: u16, ptr_count: u16) -> (r: StructCursor)
    requires
        old(m).wf(),
        8 <= old(m)@[0].len(),
        old(m)@.len() < MAX_SEGMENTS,
        1 <= data_words + ptr_count,
    ensures
        final(m).wf(),
        final(m)@.len() <= old(m)@.len() + 1,
        scursor_wf(r, final(m)@),
        r.data_words == data_words as usize,
        r.ptr_count == ptr_count as usize,
        spec_root_field(final(m)@) == Ok::<Option<StructCursor>, Error>(Some(r)),
        forall|j: int|
            r.data_off <= j < r.data_off + 8 * (r.data_words + r.ptr_count) ==> final(m)@[
                r.seg as int
            ][j] == 0u8,
        grows_except(old(m)@, final(m)@, 0, 0, 8),
        r.seg < old(m)@.len() ==> r.data_off >= old(m)@[r.seg as int].len(),
        forall|mv2: Seq<Seq<u8>>|
            grows_except(
                final(m)@,
                mv2,
                r.seg as int,
                r.data_off as int,
                8 * (r.data_words + r.ptr_count),
            ) ==> spec_root_field(mv2) == Ok::<Option<StructCursor>, Error>(Some(r)),
{
    let r = init_struct_field(m, root_cursor(), 0, data_words, ptr_count);
    proof {
        assert forall|mv2: Seq<Seq<u8>>|
            grows_except(m@, mv2, r.seg as int, r.data_off as int, 8 * (r.data_words + r.ptr_count))
            implies spec_root_field(mv2) == Ok::<Option<StructCursor>, Error>(Some(r)) by {
            assert(old(m)@[0].len() <= mv2[0].len());
        }
    }
    r
}

/// Schema evolution: a struct stored with fewer data words than an
/// accessor expects yields the zero value for every field beyond its
/// stored footprint, at every field width, without error.
pub proof fn lemma_schema_evolution(mv: Seq<Seq<u8>>, c: StructCursor, idx: int)
    ensures
        idx + 1 > 8 * c.data_words ==> spec_get_u8(mv, c, idx) == 0,
        2 * idx + 2 > 8 * c.data_words ==> spec_get_u16(mv, c, idx) == 0,
        4 * idx + 4 > 8 * c.data_words ==> spec_get_u32(mv, c, idx) == 0,
        8 * idx + 8 > 8 * c.data_words ==> spec_get_u64(mv, c, idx) == 0,
        idx >= c.ptr_count ==> spec_ptr_word(mv, c, idx) == 0,
{
}

/// Pointer safety: a cursor that field resolution hands out always
/// addresses a byte range inside one segment of the message — a pointer
/// whose target would fall outside every segment is reported as an
/// error instead, never dereferenced.
pub proof fn lemma_pointer_safety(mv: Seq<Seq<u8>>, c: StructCursor, i: int)
    requires
        crate::message::view_wf(mv),
        scursor_wf(c, mv),
    ensures
        spec_struct_field(mv, c, i) matches Ok(Some(sc)) ==> scursor_wf(sc, mv),
        spec_list_field(mv, c, i) matches Ok(Some(lc)) ==> lc.seg < mv.len() && (
        lc.elem is Composite ==> lc.off + 8 * (lc.count * (lc.data_words + lc.ptr_count)) <= mv[
            lc.seg as int
        ].len()) && (!(lc.elem is Composite) ==> lc.off + lc.count * spec_elem_bytes(lc.elem)
            <= mv[lc.seg as int].len()),
{
    let v = spec_ptr_word(mv, c, i);
    lemma_resolve_bounds(mv, c.seg as int, v);
    match spec_resolve(mv, c.seg as int, v) {
        Ok((home, p)) => match p {
            Pointer::Struct { off, data_words, ptr_count } => {
                if 8 * off + 8 * data_words + 8 * ptr_count <= mv[home].len() {
                    vstd::arithmetic::div_mod::lemma_mod_multiples_basic(off as int, 8);
                    assert(8 * (off as int) == (off as int) * 8);
                }
            },
            Pointer::List { off, elem, count } => {
                if elem is Composite && 8 * off + 8 + 8 * count <= mv[home].len() {
                    match dec_ptr(le64_at(mv, home, 8 * off)) {
                        Option::Some(Pointer::Struct { off: n, data_words, ptr_count }) => {
                            if n <= count && n * (data_words + ptr_count) <= count {
                                assert(8 * (n * (data_words + ptr_count)) <= 8 * count);
                            }
                        },
                        _ => {},
                    }
                }
            },
            _ => {},
        },
        Err(_) => {},
    }
}

/// Write a capability pointer into slot `i` of `c`: the slot then names
/// entry `index` of the connection's capability table.
pub fn set_cap_field(m: &mut Message, c: StructCursor, i: usize, index: u32)
    requires
        old(m).wf(),
        scursor_wf(c, old(m)@),
        i < c.ptr_count,
    ensures
        final(m).wf(),
        scursor_wf(c, final(m)@),
        spec_ptr_word(final(m)@, c, i as int) == crate::pointer::enc_cap(index),
        dec_ptr(spec_ptr_word(final(m)@, c, i as int)) == Some(Pointer::Cap { index }),
        final(m)@ == old(m)@.update(
            c.seg as int,
            update_bytes(
                old(m)@[c.seg as int],
                spec_cell_off(c, i as int),
                crate::message::spec_u64_bytes(crate::pointer::enc_cap(index)),
            ),
        ),
{
    let v = crate::pointer::encode_cap_ptr(index);
    let cell = c.data_off + 8 * c.data_words + 8 * i;
    m.write_u64(c.seg, cell, v);
    proof {
        crate::pointer::lemma_cap_roundtrip(index);
    }
}

} // verus!
