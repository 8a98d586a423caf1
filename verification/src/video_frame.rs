//! Accessors for the `video_frame` schema type: two data words (width,
//! height, pixel format, stream id) and two pointers (the pixel bytes,
//! and a `rational` presentation timestamp).

use vstd::prelude::*;
use crate::error::Error;
use crate::layout::{
    get_root, get_u16, get_u32, grows_except, has_ptr_field, init_byte_list_field, init_root,
    init_struct_field, lcursor_wf, list_read_bytes, list_write_bytes, scursor_wf, set_u16, set_u32,
    spec_cell_off, spec_get_u16, spec_get_u32, spec_list_bytes, spec_list_field, spec_ptr_word,
    spec_root_field, spec_struct_field, ListCursor, StructCursor,
};
use crate::layout::{get_list_field, get_struct_field};
use crate::message::{update_bytes, Message, MAX_SEGMENTS};
use crate::pointer::{dec_ptr, Pointer, MAX_LIST_COUNT};
use crate::traverse::{spec_total_size, MessageSize, DEFAULT_TRAVERSAL_WORDS};

verus! {

/// Data words of the type's layout.
pub const DATA_WORDS: u16 = 2;

/// Pointer slots of the type's layout.
pub const PTR_COUNT: u16 = 2;

/// Marker for the schema type.
#[derive(Clone, Copy)]
pub struct Owned;

/// The pixel layout of a video frame.
#[derive(Clone, Copy, Debug, PartialEq, Eq, Structural)]
pub enum PixelFormat {
    /// Four bytes per pixel: red, green, blue, alpha.
    Rgba,
}

impl PixelFormat {
    /// Decode a stored discriminant.
    pub fn from_u16(value: u16) -> (r: Result<PixelFormat, Error>)
        ensures
            value == 0 ==> r == Ok::<PixelFormat, Error>(PixelFormat::Rgba),
            value != 0 ==> r == Err::<PixelFormat, Error>(Error::NotInSchema(value)),
    {
        if value == 0 {
            Ok(PixelFormat::Rgba)
        } else {
            Err(Error::NotInSchema(value))
        }
    }

    /// The discriminant this variant is stored as.
    pub fn to_u16(self) -> (r: u16)
        ensures
            r == 0,
    {
        match self {
            PixelFormat::Rgba => 0,
        }
    }
}

/// Read-only accessor for one stored `video_frame` value.
#[derive(Clone, Copy, Debug)]
pub struct Reader {
    pub c: StructCursor,
}

/// Mutable accessor for one stored `video_frame` value.
#[derive(Clone, Copy, Debug)]
pub struct Builder {
    pub c: StructCursor,
}

impl Reader {
    /// The accessor addresses a real struct inside `m`.
    pub open spec fn wf(self, m: Message) -> bool {
        scursor_wf(self.c, m@)
    }

    /// The stored frame width.
    pub open spec fn spec_width(self, mv: Seq<Seq<u8>>) -> u32 {
        spec_get_u32(mv, self.c, 0)
    }

    /// The stored frame height.
    pub open spec fn spec_height(self, mv: Seq<Seq<u8>>) -> u32 {
        spec_get_u32(mv, self.c, 1)
    }

    /// The stored stream id.
    pub open spec fn spec_stream_id(self, mv: Seq<Seq<u8>>) -> u32 {
        spec_get_u32(mv, self.c, 3)
    }

    /// The raw stored pixel-format discriminant.
    pub open spec fn spec_pixel_format_raw(self, mv: Seq<Seq<u8>>) -> u16 {
        spec_get_u16(mv, self.c, 4)
    }

    /// The decoded pixel format; `NotInSchema` for an unknown code.
    pub open spec fn spec_pixel_format(self, mv: Seq<Seq<u8>>) -> Result<PixelFormat, Error> {
        if self.spec_pixel_format_raw(mv) == 0 {
            Ok(PixelFormat::Rgba)
        } else {
            Err(Error::NotInSchema(self.spec_pixel_format_raw(mv)))
        }
    }

    /// Whether the sample-bytes pointer holds a value.
    pub open spec fn spec_has_data(self, mv: Seq<Seq<u8>>) -> bool {
        spec_ptr_word(mv, self.c, 0) != 0
    }

    /// The stored sample bytes: absent for a null pointer, an error for a
    /// pointer that is not a valid byte list.
    pub open spec fn spec_data(self, mv: Seq<Seq<u8>>) -> Result<Option<Seq<u8>>, Error> {
        match spec_list_field(mv, self.c, 0) {
            Err(e) => Err(e),
            Ok(Option::None) => Ok(Option::None),
            Ok(Option::Some(lc)) => if lc.elem is One {
                Ok(Option::Some(spec_list_bytes(mv, lc)))
            } else {
                Err(Error::SchemaMismatch)
            },
        }
    }

    /// Whether the timestamp pointer holds a value.
    pub open spec fn spec_has_pts(self, mv: Seq<Seq<u8>>) -> bool {
        spec_ptr_word(mv, self.c, 1) != 0
    }

    /// The stored timestamp, as a reader into the same message.
    pub open spec fn spec_pts(self, mv: Seq<Seq<u8>>) -> Result<
        Option<crate::rational::Reader>,
        Error,
    > {
        match spec_struct_field(mv, self.c, 1) {
            Err(e) => Err(e),
            Ok(Option::None) => Ok(Option::None),
            Ok(Option::Some(sc)) => Ok(Option::Some(crate::rational::Reader { c: sc })),
        }
    }

    /// A copy of this accessor.
    pub fn reborrow(&self) -> (r: Reader)
        ensures
            r == *self,
    {
        Reader { c: self.c }
    }

    /// Words reachable from this value, under the default budget.
    pub fn total_size(&self, m: &Message) -> (r: Result<MessageSize, Error>)
        requires
            m.wf(),
            self.wf(*m),
        ensures
            r == spec_total_size(m@, self.c, DEFAULT_TRAVERSAL_WORDS),
    {
        crate::traverse::total_size(m, self.c, DEFAULT_TRAVERSAL_WORDS)
    }

    /// Read the width.
    pub fn get_width(&self, m: &Message) -> (r: u32)
        requires
            m.wf(),
            self.wf(*m),
        ensures
            r == self.spec_width(m@),
    {
        get_u32(m, self.c, 0)
    }

    /// Read the height.
    pub fn get_height(&self, m: &Message) -> (r: u32)
        requires
            m.wf(),
            self.wf(*m),
        ensures
            r == self.spec_height(m@),
    {
        get_u32(m, self.c, 1)
    }

    /// Read the stream id.
    pub fn get_stream_id(&self, m: &Message) -> (r: u32)
        requires
            m.wf(),
            self.wf(*m),
        ensures
            r == self.spec_stream_id(m@),
    {
        get_u32(m, self.c, 3)
    }

    /// Read and decode the pixel format.
    pub fn get_pixel_format(&self, m: &Message) -> (r: Result<PixelFormat, Error>)
        requires
            m.wf(),
            self.wf(*m),
        ensures
            r == self.spec_pixel_format(m@),
    {
        PixelFormat::from_u16(get_u16(m, self.c, 4))
    }

    /// Copy the sample bytes out; `None` when the pointer is null.
    pub fn get_data(&self, m: &Message) -> (r: Result<Option<Vec<u8>>, Error>)
        requires
            m.wf(),
            self.wf(*m),
        ensures
            (match r {
                Ok(Option::Some(v)) => self.spec_data(m@) == Ok::<Option<Seq<u8>>, Error>(
                    Some(v@),
                ),
                Ok(Option::None) => self.spec_data(m@) == Ok::<Option<Seq<u8>>, Error>(
                    Option::None,
                ),
                Err(e) => self.spec_data(m@) == Err::<Option<Seq<u8>>, Error>(e),
            }),
    {
        match get_list_field(m, self.c, 0) {
            Err(e) => Err(e),
            Ok(None) => Ok(None),
            Ok(Some(lc)) => match lc.elem {
                crate::pointer::ElemSize::One => Ok(Some(list_read_bytes(m, lc))),
                _ => Err(Error::SchemaMismatch),
            },
        }
    }

    /// Whether the sample-bytes pointer holds a value.
    pub fn has_data(&self, m: &Message) -> (r: bool)
        requires
            m.wf(),
            self.wf(*m),
        ensures
            r == self.spec_has_data(m@),
    {
        has_ptr_field(m, self.c, 0)
    }

    /// Resolve the timestamp; `None` when the pointer is null.
    pub fn get_pts(&self, m: &Message) -> (r: Result<Option<crate::rational::Reader>, Error>)
        requires
            m.wf(),
            self.wf(*m),
        ensures
            r == self.spec_pts(m@),
            r matches Ok(Some(p)) ==> p.wf(*m),
    {
        match get_struct_field(m, self.c, 1) {
            Err(e) => Err(e),
            Ok(None) => Ok(None),
            Ok(Some(sc)) => Ok(Some(crate::rational::Reader { c: sc })),
        }
    }

    /// Whether the timestamp pointer holds a value.
    pub fn has_pts(&self, m: &Message) -> (r: bool)
        requires
            m.wf(),
            self.wf(*m),
        ensures
            r == self.spec_has_pts(m@),
    {
        has_ptr_field(m, self.c, 1)
    }
}

impl Builder {
    /// The accessor addresses a real struct of this layout inside `m`.
    pub open spec fn wf(self, m: Message) -> bool {
        &&& scursor_wf(self.c, m@)
        &&& self.c.data_words == DATA_WORDS
        &&& self.c.ptr_count == PTR_COUNT
    }

    /// The builder seen read-only.
    pub open spec fn spec_reader(self) -> Reader {
        Reader { c: self.c }
    }

    /// The read-only view of this builder.
    pub fn as_reader(&self) -> (r: Reader)
        ensures
            r == self.spec_reader(),
    {
        Reader { c: self.c }
    }

    /// Consume the builder into its read-only view.
    pub fn into_reader(self) -> (r: Reader)
        ensures
            r == self.spec_reader(),
    {
        Reader { c: self.c }
    }

    /// A copy of this accessor.
    pub fn reborrow(&self) -> (r: Builder)
        ensures
            r == *self,
    {
        Builder { c: self.c }
    }

    /// The read-only view, without consuming the builder.
    pub fn reborrow_as_reader(&self) -> (r: Reader)
        ensures
            r == self.spec_reader(),
    {
        Reader { c: self.c }
    }

    /// Words reachable from this value, under the default budget.
    pub fn total_size(&self, m: &Message) -> (r: Result<MessageSize, Error>)
        requires
            m.wf(),
            self.wf(*m),
        ensures
            r == spec_total_size(m@, self.c, DEFAULT_TRAVERSAL_WORDS),
    {
        crate::traverse::total_size(m, self.c, DEFAULT_TRAVERSAL_WORDS)
    }

    /// Read the width.
    pub fn get_width(&self, m: &Message) -> (r: u32)
        requires
            m.wf(),
            self.wf(*m),
        ensures
            r == self.spec_reader().spec_width(m@),
    {
        get_u32(m, self.c, 0)
    }

    /// Write the width; every other field is untouched.
    pub fn set_width(&self, m: &mut Message, value: u32)
        requires
            old(m).wf(),
            self.wf(*old(m)),
        ensures
            final(m).wf(),
            self.wf(*final(m)),
            self.spec_reader().spec_width(final(m)@) == value,
            self.spec_reader().spec_height(final(m)@) == self.spec_reader().spec_height(
                old(m)@,
            ),
            self.spec_reader().spec_pixel_format_raw(final(m)@)
                == self.spec_reader().spec_pixel_format_raw(old(m)@),
            self.spec_reader().spec_stream_id(final(m)@) == self.spec_reader().spec_stream_id(
                old(m)@,
            ),
            forall|k: int|
                spec_ptr_word(final(m)@, self.c, k) == spec_ptr_word(old(m)@, self.c, k),
            final(m)@ == old(m)@.update(
                self.c.seg as int,
                update_bytes(
                    old(m)@[self.c.seg as int],
                    self.c.data_off as int,
                    crate::message::spec_u32_bytes(value),
                ),
            ),
    {
        set_u32(m, self.c, 0, value);
        proof {
            crate::message::lemma_u32_bytes_roundtrip(value);
            crate::message::lemma_update_bytes_facts(
                old(m)@[self.c.seg as int],
                self.c.data_off as int,
                crate::message::spec_u32_bytes(value),
            );
            self.lemma_data_write_frame(old(m)@, m@, self.c.data_off as int, 4);
        }
    }

    /// Read the height.
    pub fn get_height(&self, m: &Message) -> (r: u32)
        requires
            m.wf(),
            self.wf(*m),
        ensures
            r == self.spec_reader().spec_height(m@),
    {
        get_u32(m, self.c, 1)
    }

    /// Write the height; every other field is untouched.
    pub fn set_height(&self, m: &mut Message, value: u32)
        requires
            old(m).wf(),
            self.wf(*old(m)),
        ensures
            final(m).wf(),
            self.wf(*final(m)),
            self.spec_reader().spec_height(final(m)@) == value,
            self.spec_reader().spec_width(final(m)@)
                == self.spec_reader().spec_width(old(m)@),
            self.spec_reader().spec_pixel_format_raw(final(m)@)
                == self.spec_reader().spec_pixel_format_raw(old(m)@),
            self.spec_reader().spec_stream_id(final(m)@) == self.spec_reader().spec_stream_id(
                old(m)@,
            ),
            forall|k: int|
                spec_ptr_word(final(m)@, self.c, k) == spec_ptr_word(old(m)@, self.c, k),
            final(m)@ == old(m)@.update(
                self.c.seg as int,
                update_bytes(
                    old(m)@[self.c.seg as int],
                    self.c.data_off + 4,
                    crate::message::spec_u32_bytes(value),
                ),
            ),
    {
        set_u32(m, self.c, 1, value);
        proof {
            crate::message::lemma_u32_bytes_roundtrip(value);
            crate::message::lemma_update_bytes_facts(
                old(m)@[self.c.seg as int],
                self.c.data_off + 4,
                crate::message::spec_u32_bytes(value),
            );
            self.lemma_data_write_frame(old(m)@, m@, self.c.data_off + 4, 4);
        }
    }

    /// Read the stream id.
    pub fn get_stream_id(&self, m: &Message) -> (r: u32)
        requires
            m.wf(),
            self.wf(*m),
        ensures
            r == self.spec_reader().spec_stream_id(m@),
    {
        get_u32(m, self.c, 3)
    }

    /// Write the stream id; every other field is untouched.
    pub fn set_stream_id(&self, m: &mut Message, value: u32)
        requires
            old(m).wf(),
            self.wf(*old(m)),
        ensures
            final(m).wf(),
            self.wf(*final(m)),
            self.spec_reader().spec_stream_id(final(m)@) == value,
            self.spec_reader().spec_width(final(m)@)
                == self.spec_reader().spec_width(old(m)@),
            self.spec_reader().spec_height(final(m)@) == self.spec_reader().spec_height(
                old(m)@,
            ),
            self.spec_reader().spec_pixel_format_raw(final(m)@)
                == self.spec_reader().spec_pixel_format_raw(old(m)@),
            forall|k: int|
                spec_ptr_word(final(m)@, self.c, k) == spec_ptr_word(old(m)@, self.c, k),
            final(m)@ == old(m)@.update(
                self.c.seg as int,
                update_bytes(
                    old(m)@[self.c.seg as int],
                    self.c.data_off + 12,
                    crate::message::spec_u32_bytes(value),
                ),
            ),
    {
        set_u32(m, self.c, 3, value);
        proof {
            crate::message::lemma_u32_bytes_roundtrip(value);
            crate::message::lemma_update_bytes_facts(
                old(m)@[self.c.seg as int],
                self.c.data_off + 12,
                crate::message::spec_u32_bytes(value),
            );
            self.lemma_data_write_frame(old(m)@, m@, self.c.data_off + 12, 4);
        }
    }

    /// Read and decode the pixel format.
    pub fn get_pixel_format(&self, m: &Message) -> (r: Result<PixelFormat, Error>)
        requires
            m.wf(),
            self.wf(*m),
        ensures
            r == self.spec_reader().spec_pixel_format(m@),
    {
        PixelFormat::from_u16(get_u16(m, self.c, 4))
    }

    /// Write the pixel format; every other field is untouched.
    pub fn set_pixel_format(&self, m: &mut Message, value: PixelFormat)
        requires
            old(m).wf(),
            self.wf(*old(m)),
        ensures
            final(m).wf(),
            self.wf(*final(m)),
            self.spec_reader().spec_pixel_format(final(m)@) == Ok::<PixelFormat, Error>(value),
            self.spec_reader().spec_width(final(m)@)
                == self.spec_reader().spec_width(old(m)@),
            self.spec_reader().spec_height(final(m)@) == self.spec_reader().spec_height(
                old(m)@,
            ),
            self.spec_reader().spec_stream_id(final(m)@) == self.spec_reader().spec_stream_id(
                old(m)@,
            ),
            forall|k: int|
                spec_ptr_word(final(m)@, self.c, k) == spec_ptr_word(old(m)@, self.c, k),
            final(m)@ == old(m)@.update(
                self.c.seg as int,
                update_bytes(
                    old(m)@[self.c.seg as int],
                    self.c.data_off + 8,
                    crate::message::spec_u16_bytes(0u16),
                ),
            ),
    {
        let raw = value.to_u16();
        set_u16(m, self.c, 4, raw);
        proof {
            crate::message::lemma_u16_bytes_roundtrip(raw);
            crate::message::lemma_update_bytes_facts(
                old(m)@[self.c.seg as int],
                self.c.data_off + 8,
                crate::message::spec_u16_bytes(raw),
            );
            self.lemma_data_write_frame(old(m)@, m@, self.c.data_off + 8, 2);
        }
    }

    /// Frame facts shared by the data-field setters: a write inside the
    /// data section leaves the other data fields and every pointer cell
    /// with their bytes.
    proof fn lemma_data_write_frame(self, mv1: Seq<Seq<u8>>, mv2: Seq<Seq<u8>>, wlo: int, n: int)
        requires
            scursor_wf(self.c, mv1),
            self.c.data_words == DATA_WORDS,
            self.c.ptr_count == PTR_COUNT,
            self.c.data_off <= wlo,
            0 <= n,
            wlo + n <= self.c.data_off + 16,
            mv2.len() == mv1.len(),
            mv2[self.c.seg as int].len() == mv1[self.c.seg as int].len(),
            forall|s: int| 0 <= s < mv1.len() && s != self.c.seg ==> mv2[s] == mv1[s],
            forall|j: int|
                0 <= j < mv1[self.c.seg as int].len() && !(wlo <= j < wlo + n) ==> mv2[
                    self.c.seg as int
                ][j] == mv1[self.c.seg as int][j],
        ensures
            forall|k: int| spec_ptr_word(mv2, self.c, k) == spec_ptr_word(mv1, self.c, k),
            wlo >= self.c.data_off + 4 ==> self.spec_reader().spec_width(mv2)
                == self.spec_reader().spec_width(mv1),
            (wlo + n <= self.c.data_off + 4 || wlo >= self.c.data_off + 8)
                ==> self.spec_reader().spec_height(mv2) == self.spec_reader().spec_height(mv1),
            (wlo + n <= self.c.data_off + 8 || wlo >= self.c.data_off + 10)
                ==> self.spec_reader().spec_pixel_format_raw(mv2)
                == self.spec_reader().spec_pixel_format_raw(mv1),
            (wlo + n <= self.c.data_off + 12 || wlo >= self.c.data_off + 16)
                ==> self.spec_reader().spec_stream_id(mv2) == self.spec_reader().spec_stream_id(
                mv1,
            ),
    {
        let c = self.c;
        let seg = c.seg as int;
        assert forall|k: int| spec_ptr_word(mv2, c, k) == spec_ptr_word(mv1, c, k) by {
            if 0 <= k < c.ptr_count {
                crate::message::lemma_le_at_preserved(
                    mv1,
                    mv2,
                    seg,
                    c.data_off + 8 * c.data_words + 8 * k,
                    8,
                );
            }
        }
        if wlo >= c.data_off + 4 {
            crate::message::lemma_le_at_preserved(mv1, mv2, seg, c.data_off as int, 4);
        }
        if wlo + n <= c.data_off + 4 || wlo >= c.data_off + 8 {
            crate::message::lemma_le_at_preserved(mv1, mv2, seg, c.data_off + 4, 4);
        }
        if wlo + n <= c.data_off + 8 || wlo >= c.data_off + 10 {
            crate::message::lemma_le_at_preserved(mv1, mv2, seg, c.data_off + 8, 2);
        }
        if wlo + n <= c.data_off + 12 || wlo >= c.data_off + 16 {
            crate::message::lemma_le_at_preserved(mv1, mv2, seg, c.data_off + 12, 4);
        }
    }

    /// Copy the sample bytes out; `None` when the pointer is null.
    pub fn get_data(&self, m: &Message) -> (r: Result<Option<Vec<u8>>, Error>)
        requires
            m.wf(),
            self.wf(*m),
        ensures
            (match r {
                Ok(Option::Some(v)) => self.spec_reader().spec_data(m@) == Ok::<
                    Option<Seq<u8>>,
                    Error,
                >(Some(v@)),
                Ok(Option::None) => self.spec_reader().spec_data(m@) == Ok::<
                    Option<Seq<u8>>,
                    Error,
                >(Option::None),
                Err(e) => self.spec_reader().spec_data(m@) == Err::<Option<Seq<u8>>, Error>(e),
            }),
    {
        self.as_reader().get_data(m)
    }

    /// Overwrite the sample bytes with `value`, allocating fresh storage
    /// for them.
    pub fn set_data(&self, m: &mut Message, value: &[u8])
        requires
            old(m).wf(),
            self.wf(*old(m)),
            value@.len() <= MAX_LIST_COUNT,
            old(m)@.len() < MAX_SEGMENTS,
        ensures
            final(m).wf(),
            self.wf(*final(m)),
            self.spec_reader().spec_data(final(m)@) == Ok::<Option<Seq<u8>>, Error>(
                Some(value@),
            ),
            final(m)@.len() <= old(m)@.len() + 1,
            self.spec_reader().spec_has_data(final(m)@),
            grows_except(old(m)@, final(m)@, self.c.seg as int, spec_cell_off(self.c, 0), 8),
            (spec_list_field(final(m)@, self.c, 0) matches Ok(o) && (o matches Some(lc) && {
                &&& lcursor_wf(lc, final(m)@)
                &&& lc.elem is One
                &&& lc.count == value@.len()
                &&& spec_list_bytes(final(m)@, lc) == value@
                &&& (lc.seg == self.c.seg ==> lc.off >= self.c.data_off + 32)
                &&& (dec_ptr(spec_ptr_word(final(m)@, self.c, 0)) matches Some(Pointer::Far {
                    seg: fs,
                    off,
                }) ==> fs == lc.seg && 8 * off + 8 == lc.off && lc.seg != self.c.seg)
            })),
    {
        let lc = init_byte_list_field(m, self.c, 0, value.len() as u32);
        let ghost mv1 = m@;
        list_write_bytes(m, lc, value);
        proof {
            crate::message::lemma_update_bytes_facts(
                mv1[lc.seg as int],
                lc.off as int,
                value@,
            );
            assert(grows_except(mv1, m@, lc.seg as int, lc.off as int, lc.count as int));
            assert(spec_list_field(m@, self.c, 0) == Ok::<Option<ListCursor>, Error>(Some(lc)));
            assert(spec_ptr_word(m@, self.c, 0) != 0);
            crate::message::lemma_le_at_preserved(
                mv1,
                m@,
                self.c.seg as int,
                spec_cell_off(self.c, 0),
                8,
            );
            assert(spec_ptr_word(m@, self.c, 0) == spec_ptr_word(mv1, self.c, 0));
        }
    }

    /// Allocate fresh zeroed storage of `size` sample bytes and hand back
    /// its list cursor for element writes.
    pub fn init_data(&self, m: &mut Message, size: u32) -> (r: ListCursor)
        requires
            old(m).wf(),
            self.wf(*old(m)),
            size <= MAX_LIST_COUNT,
            old(m)@.len() < MAX_SEGMENTS,
        ensures
            final(m).wf(),
            self.wf(*final(m)),
            lcursor_wf(r, final(m)@),
            r.elem is One,
            r.count == size as usize,
            spec_list_field(final(m)@, self.c, 0) == Ok::<Option<ListCursor>, Error>(Some(r)),
            self.spec_reader().spec_data(final(m)@) == Ok::<Option<Seq<u8>>, Error>(
                Some(Seq::new(size as nat, |j: int| 0u8)),
            ),
            grows_except(old(m)@, final(m)@, self.c.seg as int, spec_cell_off(self.c, 0), 8),
    {
        let lc = init_byte_list_field(m, self.c, 0, size);
        proof {
            assert(spec_list_bytes(m@, lc) =~= Seq::new(size as nat, |j: int| 0u8));
        }
        lc
    }

    /// Whether the sample-bytes pointer holds a value.
    pub fn has_data(&self, m: &Message) -> (r: bool)
        requires
            m.wf(),
            self.wf(*m),
        ensures
            r == self.spec_reader().spec_has_data(m@),
    {
        has_ptr_field(m, self.c, 0)
    }

    /// Resolve the timestamp for further mutation; `None` when the
    /// pointer is null or not a `rational`.
    pub fn get_pts(&self, m: &Message) -> (r: Result<Option<crate::rational::Builder>, Error>)
        requires
            m.wf(),
            self.wf(*m),
        ensures
            (match r {
                Ok(Option::Some(b)) => self.spec_reader().spec_pts(m@) matches Ok(Some(rd))
                    && rd.c == b.c,
                Ok(Option::None) => self.spec_reader().spec_pts(m@) matches Ok(o) && (
                o matches Option::Some(rd) ==> !(rd.c.data_words == crate::rational::DATA_WORDS
                    && rd.c.ptr_count == crate::rational::PTR_COUNT)),
                Err(e) => self.spec_reader().spec_pts(m@) == Err::<
                    Option<crate::rational::Reader>,
                    Error,
                >(e),
            }),
            r matches Ok(Some(b)) ==> b.wf(*m),
    {
        match get_struct_field(m, self.c, 1) {
            Err(e) => Err(e),
            Ok(None) => Ok(None),
            Ok(Some(sc)) => {
                if sc.data_words == crate::rational::DATA_WORDS as usize && sc.ptr_count
                    == crate::rational::PTR_COUNT as usize {
                    Ok(Some(crate::rational::Builder { c: sc }))
                } else {
                    Ok(None)
                }
            },
        }
    }

    /// Allocate a fresh zeroed timestamp and hand back its builder.
    pub fn init_pts(&self, m: &mut Message) -> (r: crate::rational::Builder)
        requires
            old(m).wf(),
            self.wf(*old(m)),
            old(m)@.len() < MAX_SEGMENTS,
        ensures
            final(m).wf(),
            self.wf(*final(m)),
            r.wf(*final(m)),
            self.spec_reader().spec_pts(final(m)@) == Ok::<Option<crate::rational::Reader>, Error>(
                Some(r.spec_reader()),
            ),
            r.spec_reader().spec_num(final(m)@) == 0,
            r.spec_reader().spec_den(final(m)@) == 0,
            final(m)@.len() <= old(m)@.len() + 1,
            grows_except(old(m)@, final(m)@, self.c.seg as int, spec_cell_off(self.c, 1), 8),
            r.c.seg < old(m)@.len() ==> r.c.data_off >= old(m)@[r.c.seg as int].len(),
            forall|mv2: Seq<Seq<u8>>|
                grows_except(final(m)@, mv2, r.c.seg as int, r.c.data_off as int, 8)
                    ==> self.spec_reader().spec_pts(mv2) == Ok::<
                    Option<crate::rational::Reader>,
                    Error,
                >(Some(r.spec_reader())),
    {
        let sc = init_struct_field(
            m,
            self.c,
            1,
            crate::rational::DATA_WORDS,
            crate::rational::PTR_COUNT,
        );
        proof {
            crate::message::lemma_le_zero(
                m@[sc.seg as int].subrange(sc.data_off as int, sc.data_off + 4),
            );
            crate::message::lemma_le_zero(
                m@[sc.seg as int].subrange(sc.data_off + 4, sc.data_off + 8),
            );
        }
        crate::rational::Builder { c: sc }
    }

    /// Copy the timestamp from `value`, read in `src`, into this frame.
    pub fn set_pts(&self, m: &mut Message, src: &Message, value: crate::rational::Reader)
        requires
            old(m).wf(),
            self.wf(*old(m)),
            src.wf(),
            value.wf(*src),
            old(m)@.len() < MAX_SEGMENTS,
        ensures
            final(m).wf(),
            self.wf(*final(m)),
            (self.spec_reader().spec_pts(final(m)@) matches Ok(Some(rd)) && rd.spec_num(final(m)@)
                == value.spec_num(src@) && rd.spec_den(final(m)@) == value.spec_den(src@)),
            final(m)@.len() <= old(m)@.len() + 1,
            grows_except(old(m)@, final(m)@, self.c.seg as int, spec_cell_off(self.c, 1), 8),
    {
        let num = value.get_num(src);
        let den = value.get_den(src);
        let rb = self.init_pts(m);
        let ghost mv1 = m@;
        rb.set_num(m, num);
        let ghost mv2 = m@;
        rb.set_den(m, den);
        proof {
            crate::message::lemma_u32_bytes_roundtrip(num);
            crate::message::lemma_u32_bytes_roundtrip(den);
            crate::message::lemma_update_bytes_facts(
                mv1[rb.c.seg as int],
                rb.c.data_off as int,
                crate::message::spec_u32_bytes(num),
            );
            crate::message::lemma_update_bytes_facts(
                mv2[rb.c.seg as int],
                rb.c.data_off + 4,
                crate::message::spec_u32_bytes(den),
            );
            assert(grows_except(mv1, m@, rb.c.seg as int, rb.c.data_off as int, 8));
            assert forall|s: int, j: int|
                0 <= s < old(m)@.len() && 0 <= j < old(m)@[s].len() && !(s == self.c.seg as int
                    && spec_cell_off(self.c, 1) <= j < spec_cell_off(self.c, 1) + 8) implies m@[
                s
            ][j] == old(m)@[s][j] by {
                assert(mv1[s][j] == old(m)@[s][j]);
                assert(old(m)@[s].len() <= mv1[s].len());
                if s == rb.c.seg as int {
                    assert(j < rb.c.data_off);
                }
            }
        }
    }

    /// Whether the timestamp pointer holds a value.
    pub fn has_pts(&self, m: &Message) -> (r: bool)
        requires
            m.wf(),
            self.wf(*m),
        ensures
            r == self.spec_reader().spec_has_pts(m@),
    {
        has_ptr_field(m, self.c, 1)
    }
}

/// Start a fresh `video_frame` as the root object of `m`.
pub fn build_root(m: &mut Message) -> (r: Builder)
    requires
        old(m).wf(),
        8 <= old(m)@[0].len(),
        old(m)@.len() < MAX_SEGMENTS,
    ensures
        final(m).wf(),
        r.wf(*final(m)),
        spec_root_field(final(m)@) == Ok::<Option<StructCursor>, Error>(Some(r.c)),
{
    let c = init_root(m, DATA_WORDS, PTR_COUNT);
    Builder { c }
}

/// The message's root object read as a `video_frame`.
pub fn read_root(m: &Message) -> (r: Result<Option<Reader>, Error>)
    requires
        m.wf(),
    ensures
        r matches Ok(Some(rd)) ==> rd.wf(*m) && spec_root_field(m@) == Ok::<
            Option<StructCursor>,
            Error,
        >(Some(rd.c)),
        r matches Ok(None) ==> spec_root_field(m@) matches Ok(o) && o is None,
        r matches Err(e) ==> spec_root_field(m@) == Err::<Option<StructCursor>, Error>(e),
{
    match get_root(m) {
        Ok(Some(c)) => Ok(Some(Reader { c })),
        Ok(None) => Ok(None),
        Err(e) => Err(e),
    }
}


/// A typed handle on the not-yet-arrived answer of question
/// `question`, whose root will be a value of this module's type:
/// further calls can be pipelined on it without waiting.
pub struct Pipeline {
    pub question: u32,
    pub path: Vec<u16>,
}

impl Pipeline {
    /// The pipeline for a whole answer of this type.
    pub fn new(question: u32) -> (r: Pipeline)
        ensures
            r.question == question,
            r.path@ == Seq::<u16>::empty(),
    {
        Pipeline { question, path: Vec::new() }
    }

    /// Pipeline into the timestamp field of the future value: the path
    /// grows by the timestamp's pointer slot; no round trip happens.
    pub fn get_pts(&self) -> (r: crate::rational::Pipeline)
        ensures
            r.question == self.question,
            r.path@ == self.path@.push(1u16),
    {
        let n = self.path.len();
        let mut p: Vec<u16> = Vec::new();
        let mut k: usize = 0;
        while k < n
            invariant
                k <= n,
                n == self.path@.len(),
                p@ == self.path@.subrange(0, k as int),
            decreases n - k,
        {
            let e = self.path[k];
            p.push(e);
            proof {
                assert(p@ =~= self.path@.subrange(0, k + 1));
            }
            k = k + 1;
        }
        proof {
            assert(p@ =~= self.path@);
        }
        p.push(1u16);
        crate::rational::Pipeline { question: self.question, path: p }
    }
}

} // verus!
