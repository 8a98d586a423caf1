//! Accessors for the `frames` schema type: the top-level container, one
//! pointer to a composite list of `frame` values.

use vstd::prelude::*;
use crate::error::Error;
use crate::layout::{
    get_list_field, get_root, grows_except, has_ptr_field, init_composite_list_field, init_root,
    lcursor_wf, list_struct_at, scursor_wf, spec_cell_off, spec_list_elem_cursor, spec_list_field,
    spec_ptr_word, spec_root_field, StructCursor, ListCursor,
};
use crate::message::{Message, MAX_SEGMENTS, MAX_SEGMENT_WORDS};
use crate::traverse::{spec_total_size, MessageSize, DEFAULT_TRAVERSAL_WORDS};

verus! {

/// Data words of the type's layout.
pub const DATA_WORDS: u16 = 0;

/// Pointer slots of the type's layout.
pub const PTR_COUNT: u16 = 1;

/// Marker for the schema type.
#[derive(Clone, Copy)]
pub struct Owned;

/// Read-only accessor for one stored `frames` value.
#[derive(Clone, Copy, Debug)]
pub struct Reader {
    pub c: StructCursor,
}

/// Mutable accessor for one stored `frames` value.
#[derive(Clone, Copy, Debug)]
pub struct Builder {
    pub c: StructCursor,
}

/// Read-only accessor for a stored list of `frame` values.
#[derive(Clone, Copy, Debug)]
pub struct ListReader {
    pub lc: ListCursor,
}

/// Mutable accessor for a stored list of `frame` values.
#[derive(Clone, Copy, Debug)]
pub struct ListBuilder {
    pub lc: ListCursor,
}

/// Whether a list cursor has the composite shape of a `frame` list.
pub open spec fn frame_list_wf(lc: ListCursor, mv: Seq<Seq<u8>>) -> bool {
    &&& lcursor_wf(lc, mv)
    &&& lc.elem is Composite
    &&& lc.data_words == crate::frame::DATA_WORDS
    &&& lc.ptr_count == crate::frame::PTR_COUNT
}

/// Whether the source frame at `j` of a list carries a resolvable
/// payload for its discriminant.
pub open spec fn spec_src_payload(srcv: Seq<Seq<u8>>, slc: ListCursor, j: int) -> bool {
    let sr = crate::frame::Reader { c: spec_list_elem_cursor(slc, j) };
    if sr.spec_disc(srcv) == crate::frame::AUDIO_DISCRIMINANT {
        sr.spec_audio(srcv) matches Ok(Some(a))
    } else if sr.spec_disc(srcv) == crate::frame::VIDEO_DISCRIMINANT {
        sr.spec_video(srcv) matches Ok(Some(v))
    } else {
        false
    }
}

impl ListReader {
    /// The accessor addresses a real `frame` list inside `m`.
    pub open spec fn wf(self, m: Message) -> bool {
        frame_list_wf(self.lc, m@)
    }

    /// Number of frames in the list.
    pub fn len(&self) -> (n: usize)
        ensures
            n == self.lc.count,
    {
        self.lc.count
    }

    /// Frame `k` of the list.
    pub fn get(&self, m: &Message, k: usize) -> (r: crate::frame::Reader)
        requires
            m.wf(),
            self.wf(*m),
            k < self.lc.count,
        ensures
            r.wf(*m),
            r.c == spec_list_elem_cursor(self.lc, k as int),
    {
        let c = list_struct_at(m, self.lc, k);
        crate::frame::Reader { c }
    }
}

impl ListBuilder {
    /// The accessor addresses a real `frame` list inside `m`.
    pub open spec fn wf(self, m: Message) -> bool {
        frame_list_wf(self.lc, m@)
    }

    /// The list seen read-only.
    pub open spec fn spec_reader(self) -> ListReader {
        ListReader { lc: self.lc }
    }

    /// The read-only view of this list.
    pub fn as_reader(&self) -> (r: ListReader)
        ensures
            r == self.spec_reader(),
    {
        ListReader { lc: self.lc }
    }

    /// Number of frames in the list.
    pub fn len(&self) -> (n: usize)
        ensures
            n == self.lc.count,
    {
        self.lc.count
    }

    /// Frame `k` of the list, for mutation.
    pub fn get(&self, m: &Message, k: usize) -> (r: crate::frame::Builder)
        requires
            m.wf(),
            self.wf(*m),
            k < self.lc.count,
        ensures
            r.wf(*m),
            r.c == spec_list_elem_cursor(self.lc, k as int),
    {
        let c = list_struct_at(m, self.lc, k);
        crate::frame::Builder { c }
    }
}

impl Reader {
    /// The accessor addresses a real struct inside `m`.
    pub open spec fn wf(self, m: Message) -> bool {
        scursor_wf(self.c, m@)
    }

    /// Whether the list pointer holds a value.
    pub open spec fn spec_has_frames(self, mv: Seq<Seq<u8>>) -> bool {
        spec_ptr_word(mv, self.c, 0) != 0
    }

    /// The stored frame list: absent for a null pointer, an error for a
    /// pointer that is not a composite list of the `frame` layout.
    pub open spec fn spec_frames(self, mv: Seq<Seq<u8>>) -> Result<Option<ListCursor>, Error> {
        match spec_list_field(mv, self.c, 0) {
            Err(e) => Err(e),
            Ok(Option::None) => Ok(Option::None),
            Ok(Option::Some(lc)) => if lc.elem is Composite && lc.data_words
                == crate::frame::DATA_WORDS && lc.ptr_count == crate::frame::PTR_COUNT {
                Ok(Option::Some(lc))
            } else {
                Err(Error::SchemaMismatch)
            },
        }
    }

    /// A copy of this accessor.
    pub fn reborrow(&self) -> (r: Reader)
        ensures
            r == *self,
    {
        Reader { c: self.c }
    }

    /// Words reachable from this value, under the default budget.
    pub fn total_size(&self, m: &Message) -> (r: Result<MessageSize, Error>)
        requires
            m.wf(),
            self.wf(*m),
        ensures
            r == spec_total_size(m@, self.c, DEFAULT_TRAVERSAL_WORDS),
    {
        crate::traverse::total_size(m, self.c, DEFAULT_TRAVERSAL_WORDS)
    }

    /// Resolve the frame list; `None` when the pointer is null.
    pub fn get_frames(&self, m: &Message) -> (r: Result<Option<ListReader>, Error>)
        requires
            m.wf(),
            self.wf(*m),
        ensures
            (match r {
                Ok(Option::Some(l)) => self.spec_frames(m@) == Ok::<Option<ListCursor>, Error>(
                    Some(l.lc),
                ) && l.wf(*m),
                Ok(Option::None) => self.spec_frames(m@) == Ok::<Option<ListCursor>, Error>(
                    Option::None,
                ),
                Err(e) => self.spec_frames(m@) == Err::<Option<ListCursor>, Error>(e),
            }),
    {
        match get_list_field(m, self.c, 0) {
            Err(e) => Err(e),
            Ok(None) => Ok(None),
            Ok(Some(lc)) => {
                match lc.elem {
                    crate::pointer::ElemSize::Composite => {
                        if lc.data_words == crate::frame::DATA_WORDS as usize && lc.ptr_count
                            == crate::frame::PTR_COUNT as usize {
                            Ok(Some(ListReader { lc }))
                        } else {
                            Err(Error::SchemaMismatch)
                        }
                    },
                    _ => Err(Error::SchemaMismatch),
                }
            },
        }
    }

    /// Whether the list pointer holds a value.
    pub fn has_frames(&self, m: &Message) -> (r: bool)
        requires
            m.wf(),
            self.wf(*m),
        ensures
            r == self.spec_has_frames(m@),
    {
        has_ptr_field(m, self.c, 0)
    }
}

impl Builder {
    /// The accessor addresses a real struct of this layout inside `m`.
    pub open spec fn wf(self, m: Message) -> bool {
        &&& scursor_wf(self.c, m@)
        &&& self.c.data_words == DATA_WORDS
        &&& self.c.ptr_count == PTR_COUNT
    }

    /// The builder seen read-only.
    pub open spec fn spec_reader(self) -> Reader {
        Reader { c: self.c }
    }

    /// The read-only view of this builder.
    pub fn as_reader(&self) -> (r: Reader)
        ensures
            r == self.spec_reader(),
    {
        Reader { c: self.c }
    }

    /// Consume the builder into its read-only view.
    pub fn into_reader(self) -> (r: Reader)
        ensures
            r == self.spec_reader(),
    {
        Reader { c: self.c }
    }

    /// A copy of this accessor.
    pub fn reborrow(&self) -> (r: Builder)
        ensures
            r == *self,
    {
        Builder { c: self.c }
    }

    /// The read-only view, without consuming the builder.
    pub fn reborrow_as_reader(&self) -> (r: Reader)
        ensures
            r == self.spec_reader(),
    {
        Reader { c: self.c }
    }

    /// Words reachable from this value, under the default budget.
    pub fn total_size(&self, m: &Message) -> (r: Result<MessageSize, Error>)
        requires
            m.wf(),
            self.wf(*m),
        ensures
            r == spec_total_size(m@, self.c, DEFAULT_TRAVERSAL_WORDS),
    {
        crate::traverse::total_size(m, self.c, DEFAULT_TRAVERSAL_WORDS)
    }

    /// Resolve the frame list for mutation; `None` when the pointer is
    /// null.
    pub fn get_frames(&self, m: &Message) -> (r: Result<Option<ListBuilder>, Error>)
        requires
            m.wf(),
            self.wf(*m),
        ensures
            (match r {
                Ok(Option::Some(l)) => self.spec_reader().spec_frames(m@) == Ok::<
                    Option<ListCursor>,
                    Error,
                >(Some(l.lc)) && l.wf(*m),
                Ok(Option::None) => self.spec_reader().spec_frames(m@) == Ok::<
                    Option<ListCursor>,
                    Error,
                >(Option::None),
                Err(e) => self.spec_reader().spec_frames(m@) == Err::<Option<ListCursor>, Error>(
                    e,
                ),
            }),
    {
        match self.as_reader().get_frames(m) {
            Err(e) => Err(e),
            Ok(None) => Ok(None),
            Ok(Some(l)) => Ok(Some(ListBuilder { lc: l.lc })),
        }
    }

    /// Allocate a fresh zeroed list of `size` frames, overwriting any
    /// previous list pointer.
    pub fn init_frames(&self, m: &mut Message, size: u32) -> (r: ListBuilder)
        requires
            old(m).wf(),
            self.wf(*old(m)),
            old(m)@.len() < MAX_SEGMENTS,
            2 * size + 2 <= MAX_SEGMENT_WORDS,
        ensures
            final(m).wf(),
            self.wf(*final(m)),
            r.wf(*final(m)),
            r.lc.count == size as usize,
            self.spec_reader().spec_frames(final(m)@) == Ok::<Option<ListCursor>, Error>(
                Some(r.lc),
            ),
            self.spec_reader().spec_has_frames(final(m)@),
            forall|j: int|
                0 <= j < size ==> crate::layout::spec_get_u16(
                    final(m)@,
                    spec_list_elem_cursor(r.lc, j),
                    0,
                ) == 0,
            forall|j: int|
                0 <= j < size ==> crate::layout::spec_ptr_word(
                    final(m)@,
                    spec_list_elem_cursor(r.lc, j),
                    0,
                ) == 0,
            final(m)@.len() <= old(m)@.len() + 1,
            grows_except(old(m)@, final(m)@, self.c.seg as int, spec_cell_off(self.c, 0), 8),
            forall|mv2: Seq<Seq<u8>>|
                grows_except(
                    final(m)@,
                    mv2,
                    r.lc.seg as int,
                    r.lc.off as int,
                    8 * (r.lc.count * (r.lc.data_words + r.lc.ptr_count)),
                ) ==> self.spec_reader().spec_frames(mv2) == Ok::<Option<ListCursor>, Error>(
                    Some(r.lc),
                ),
    {
        let lc = init_composite_list_field(
            m,
            self.c,
            0,
            size,
            crate::frame::DATA_WORDS,
            crate::frame::PTR_COUNT,
        );
        proof {
            assert(spec_ptr_word(m@, self.c, 0) != 0);
            assert forall|j: int| 0 <= j < size implies crate::layout::spec_get_u16(
                m@,
                spec_list_elem_cursor(lc, j),
                0,
            ) == 0 && crate::layout::spec_ptr_word(m@, spec_list_elem_cursor(lc, j), 0) == 0 by {
                let ec = spec_list_elem_cursor(lc, j);
                assert(ec.data_off == lc.off + 16 * j);
                assert((j as int) * 2 + 2 <= (lc.count as int) * 2) by (nonlinear_arith)
                    requires
                        (j as int) < (lc.count as int),
                ;
                crate::message::lemma_le_zero(
                    m@[lc.seg as int].subrange(ec.data_off as int, ec.data_off + 2),
                );
                crate::message::lemma_le_zero(
                    m@[lc.seg as int].subrange(ec.data_off + 8, ec.data_off + 16),
                );
            }
        }
        ListBuilder { lc }
    }

    /// Whether the list pointer holds a value.
    pub fn has_frames(&self, m: &Message) -> (r: bool)
        requires
            m.wf(),
            self.wf(*m),
        ensures
            r == self.spec_reader().spec_has_frames(m@),
    {
        has_ptr_field(m, self.c, 0)
    }

    /// Copy the whole frame list `value`, read in `src`, into this
    /// container: a fresh list of the same length is allocated and each
    /// frame is copied in order.
    pub fn set_frames(&self, m: &mut Message, src: &Message, value: ListReader) -> (r: Result<
        (),
        Error,
    >)
        requires
            old(m).wf(),
            self.wf(*old(m)),
            src.wf(),
            value.wf(*src),
            old(m)@.len() < MAX_SEGMENTS,
        ensures
            final(m).wf(),
            self.wf(*final(m)),
            r matches Ok(_) ==> (self.spec_reader().spec_frames(final(m)@) matches Ok(Some(lc))
                && lc.count == value.lc.count),
            r matches Ok(_) ==> (self.spec_reader().spec_frames(final(m)@) matches Ok(Some(lc))
                && (forall|j: int|
                0 <= j < lc.count ==> crate::layout::spec_get_u16(
                    final(m)@,
                    spec_list_elem_cursor(lc, j),
                    0,
                ) == crate::layout::spec_get_u16(src@, spec_list_elem_cursor(value.lc, j), 0))),
            r matches Ok(_) ==> (self.spec_reader().spec_frames(final(m)@) matches Ok(Some(lc))
                && (forall|j: int|
                0 <= j < lc.count ==> ((crate::layout::spec_ptr_word(
                    final(m)@,
                    spec_list_elem_cursor(lc, j),
                    0,
                ) != 0) == spec_src_payload(src@, value.lc, j)))),
    {
        let count = value.len();
        if count > 0x07FF_FFF0usize {
            return Err(Error::TraversalLimitExceeded);
        }
        let lb = self.init_frames(m, count as u32);
        let ghost mvl = m@;
        let ghost lc = lb.lc;
        let ghost content = 8 * (lc.count * (lc.data_words + lc.ptr_count));
        let mut k: usize = 0;
        while k < count
            invariant
                m.wf(),
                src.wf(),
                value.wf(*src),
                self.wf(*m),
                k <= count,
                frame_list_wf(lc, mvl),
                lc.count == count,
                lc == lb.lc,
                count == value.lc.count,
                count <= 0x07FF_FFF0usize,
                grows_except(mvl, m@, lc.seg as int, lc.off as int, content),
                content == 8 * (lc.count * (lc.data_words + lc.ptr_count)),
                forall|mv2: Seq<Seq<u8>>|
                    grows_except(mvl, mv2, lc.seg as int, lc.off as int, content)
                        ==> self.spec_reader().spec_frames(mv2) == Ok::<
                        Option<ListCursor>,
                        Error,
                    >(Some(lc)),
                forall|j: int|
                    0 <= j < k ==> crate::layout::spec_get_u16(
                        m@,
                        spec_list_elem_cursor(lc, j),
                        0,
                    ) == crate::layout::spec_get_u16(src@, spec_list_elem_cursor(value.lc, j), 0),
                forall|j: int|
                    0 <= j < k ==> ((#[trigger] crate::layout::spec_ptr_word(
                        m@,
                        spec_list_elem_cursor(lc, j),
                        0,
                    )) != 0) == spec_src_payload(src@, value.lc, j),
                forall|j: int|
                    k <= j < count ==> crate::layout::spec_get_u16(
                        m@,
                        spec_list_elem_cursor(lc, j),
                        0,
                    ) == 0 && crate::layout::spec_ptr_word(m@, spec_list_elem_cursor(lc, j), 0)
                        == 0,
            decreases count - k,
        {
            proof {
                assert(mvl[lc.seg as int].len() <= m@[lc.seg as int].len());
                assert(lc.off + 8 * (lc.count * (lc.data_words + lc.ptr_count)) <= m@[
                    lc.seg as int
                ].len());
                assert(frame_list_wf(lc, m@));
                assert((k as int) * 2 + 2 <= (lc.count as int) * 2) by (nonlinear_arith)
                    requires
                        (k as int) < (lc.count as int),
                ;
                assert(k < value.lc.count);
            }
            let fb = crate::frame::Builder { c: list_struct_at(m, lb.lc, k) };
            let sf = crate::frame::Reader { c: list_struct_at(src, value.lc, k) };
            let ghost mpre = m@;
            let disc_src = crate::layout::get_u16(src, sf.c, 0);
            if m.seg_count() + 3 > MAX_SEGMENTS {
                return Err(Error::TraversalLimitExceeded);
            }
            let copied: Result<(), Error> = if disc_src == crate::frame::AUDIO_DISCRIMINANT {
                match sf.which(src) {
                    Ok(crate::frame::Which::AudioFrame(Ok(Some(ar)))) => {
                        fb.set_audio_frame(m, src, ar)
                    },
                    Ok(crate::frame::Which::AudioFrame(Ok(None))) => {
                        crate::layout::set_u16(m, fb.c, 0, disc_src);
                        proof {
                            crate::message::lemma_u16_bytes_roundtrip(disc_src);
                            assert(!spec_src_payload(src@, value.lc, k as int));
                            crate::layout::lemma_update_grows(
                                mpre,
                                m@,
                                lc.seg as int,
                                fb.c.data_off as int,
                                crate::message::spec_u16_bytes(disc_src),
                            );
                            crate::layout::lemma_grows_except_step(
                                mpre,
                                mpre,
                                m@,
                                lc.seg as int,
                                fb.c.data_off as int,
                                16,
                                fb.c.data_off as int,
                                2,
                            );
                            crate::message::lemma_le_at_preserved(
                                mpre,
                                m@,
                                lc.seg as int,
                                fb.c.data_off + 8,
                                8,
                            );
                            assert(crate::layout::spec_ptr_word(m@, fb.c, 0) == 0);
                        }
                        Ok(())
                    },
                    Ok(crate::frame::Which::AudioFrame(Err(e))) => Err(e),
                    _ => Err(Error::SchemaMismatch),
                }
            } else if disc_src == crate::frame::VIDEO_DISCRIMINANT {
                match sf.which(src) {
                    Ok(crate::frame::Which::VideoFrame(Ok(Some(vr)))) => {
                        fb.set_video_frame(m, src, vr)
                    },
                    Ok(crate::frame::Which::VideoFrame(Ok(None))) => {
                        crate::layout::set_u16(m, fb.c, 0, disc_src);
                        proof {
                            crate::message::lemma_u16_bytes_roundtrip(disc_src);
                            assert(!spec_src_payload(src@, value.lc, k as int));
                            crate::layout::lemma_update_grows(
                                mpre,
                                m@,
                                lc.seg as int,
                                fb.c.data_off as int,
                                crate::message::spec_u16_bytes(disc_src),
                            );
                            crate::layout::lemma_grows_except_step(
                                mpre,
                                mpre,
                                m@,
                                lc.seg as int,
                                fb.c.data_off as int,
                                16,
                                fb.c.data_off as int,
                                2,
                            );
                            crate::message::lemma_le_at_preserved(
                                mpre,
                                m@,
                                lc.seg as int,
                                fb.c.data_off + 8,
                                8,
                            );
                            assert(crate::layout::spec_ptr_word(m@, fb.c, 0) == 0);
                        }
                        Ok(())
                    },
                    Ok(crate::frame::Which::VideoFrame(Err(e))) => Err(e),
                    _ => Err(Error::SchemaMismatch),
                }
            } else {
                crate::layout::set_u16(m, fb.c, 0, disc_src);
                proof {
                    crate::message::lemma_u16_bytes_roundtrip(disc_src);
                    assert(!spec_src_payload(src@, value.lc, k as int));
                    crate::layout::lemma_update_grows(
                        mpre,
                        m@,
                        lc.seg as int,
                        fb.c.data_off as int,
                        crate::message::spec_u16_bytes(disc_src),
                    );
                    crate::layout::lemma_grows_except_step(
                        mpre,
                        mpre,
                        m@,
                        lc.seg as int,
                        fb.c.data_off as int,
                        16,
                        fb.c.data_off as int,
                        2,
                    );
                    crate::message::lemma_le_at_preserved(
                        mpre,
                        m@,
                        lc.seg as int,
                        fb.c.data_off + 8,
                        8,
                    );
                    assert(crate::layout::spec_ptr_word(m@, fb.c, 0) == 0);
                }
                Ok(())
            };
            match copied {
                Ok(_) => {},
                Err(e) => {
                    return Err(e);
                },
            }
            proof {
                assert(grows_except(mpre, m@, lc.seg as int, fb.c.data_off as int, 16));
                crate::layout::lemma_grows_except_step(
                    mvl,
                    mpre,
                    m@,
                    lc.seg as int,
                    lc.off as int,
                    content,
                    fb.c.data_off as int,
                    16,
                );
                assert(crate::layout::spec_get_u16(m@, fb.c, 0) == crate::layout::spec_get_u16(
                    src@,
                    sf.c,
                    0,
                ));
                assert((crate::layout::spec_ptr_word(m@, fb.c, 0) != 0) == spec_src_payload(
                    src@,
                    value.lc,
                    k as int,
                ));
                lemma_set_frames_step(src@, mpre, m@, lc, value.lc, k as int, count as int);
            }
            k = k + 1;
        }
        proof {
            assert(self.spec_reader().spec_frames(m@) == Ok::<Option<ListCursor>, Error>(
                Some(lc),
            ));
        }
        Ok(())
    }
}

/// One copy step of `Builder::set_frames` keeps the already-copied
/// elements' discriminants and payload presence and the untouched
/// elements zeroed: every element's own words lie in its own slice of
/// the list content, disjoint from the slice the step wrote.
proof fn lemma_set_frames_step(
    srcv: Seq<Seq<u8>>,
    mpre: Seq<Seq<u8>>,
    mv2: Seq<Seq<u8>>,
    lc: ListCursor,
    slc: ListCursor,
    k: int,
    count: int,
)
    requires
        crate::message::view_wf(mpre),
        frame_list_wf(lc, mpre),
        lc.count == count,
        0 <= k < count,
        grows_except(mpre, mv2, lc.seg as int, lc.off + 16 * k, 16),
        forall|j: int|
            0 <= j < k ==> crate::layout::spec_get_u16(mpre, spec_list_elem_cursor(lc, j), 0)
                == crate::layout::spec_get_u16(srcv, spec_list_elem_cursor(slc, j), 0),
        forall|j: int|
            0 <= j < k ==> ((#[trigger] crate::layout::spec_ptr_word(
                mpre,
                spec_list_elem_cursor(lc, j),
                0,
            )) != 0) == spec_src_payload(srcv, slc, j),
        forall|j: int|
            k <= j < count ==> crate::layout::spec_get_u16(mpre, spec_list_elem_cursor(lc, j), 0)
                == 0 && crate::layout::spec_ptr_word(mpre, spec_list_elem_cursor(lc, j), 0) == 0,
        crate::layout::spec_get_u16(mv2, spec_list_elem_cursor(lc, k), 0)
            == crate::layout::spec_get_u16(srcv, spec_list_elem_cursor(slc, k), 0),
        ((crate::layout::spec_ptr_word(mv2, spec_list_elem_cursor(lc, k), 0) != 0)
            == spec_src_payload(srcv, slc, k)),
    ensures
        forall|j: int|
            0 <= j < k + 1 ==> crate::layout::spec_get_u16(mv2, spec_list_elem_cursor(lc, j), 0)
                == crate::layout::spec_get_u16(srcv, spec_list_elem_cursor(slc, j), 0),
        forall|j: int|
            0 <= j < k + 1 ==> ((#[trigger] crate::layout::spec_ptr_word(
                mv2,
                spec_list_elem_cursor(lc, j),
                0,
            )) != 0) == spec_src_payload(srcv, slc, j),
        forall|j: int|
            k + 1 <= j < count ==> crate::layout::spec_get_u16(mv2, spec_list_elem_cursor(lc, j), 0)
                == 0 && crate::layout::spec_ptr_word(mv2, spec_list_elem_cursor(lc, j), 0) == 0,
{
    assert forall|j: int| 0 <= j < count && j != k implies crate::layout::spec_get_u16(
        mv2,
        spec_list_elem_cursor(lc, j),
        0,
    ) == crate::layout::spec_get_u16(mpre, spec_list_elem_cursor(lc, j), 0)
        && crate::layout::spec_ptr_word(mv2, spec_list_elem_cursor(lc, j), 0)
        == crate::layout::spec_ptr_word(mpre, spec_list_elem_cursor(lc, j), 0) by {
        let ec = spec_list_elem_cursor(lc, j);
        assert(ec.data_off == lc.off + 16 * j);
        assert((j as int) * 2 + 2 <= (lc.count as int) * 2) by (nonlinear_arith)
            requires
                (j as int) < (lc.count as int),
        ;
        crate::message::lemma_le_at_preserved(mpre, mv2, lc.seg as int, ec.data_off as int, 2);
        crate::message::lemma_le_at_preserved(mpre, mv2, lc.seg as int, ec.data_off + 8, 8);
    }
}

/// Start a fresh `frames` container as the root object of `m`.
pub fn build_root(m: &mut Message) -> (r: Builder)
    requires
        old(m).wf(),
        8 <= old(m)@[0].len(),
        old(m)@.len() < MAX_SEGMENTS,
    ensures
        final(m).wf(),
        r.wf(*final(m)),
        spec_root_field(final(m)@) == Ok::<Option<StructCursor>, Error>(Some(r.c)),
{
    let c = init_root(m, DATA_WORDS, PTR_COUNT);
    Builder { c }
}

/// The message's root object read as a `frames` container.
pub fn read_root(m: &Message) -> (r: Result<Option<Reader>, Error>)
    requires
        m.wf(),
    ensures
        r matches Ok(Some(rd)) ==> rd.wf(*m) && spec_root_field(m@) == Ok::<
            Option<StructCursor>,
            Error,
        >(Some(rd.c)),
        r matches Ok(None) ==> spec_root_field(m@) matches Ok(o) && o is None,
        r matches Err(e) ==> spec_root_field(m@) == Err::<Option<StructCursor>, Error>(e),
{
    match get_root(m) {
        Ok(Some(c)) => Ok(Some(Reader { c })),
        Ok(None) => Ok(None),
        Err(e) => Err(e),
    }
}


/// A typed handle on the not-yet-arrived answer of question
/// `question`, whose root will be a value of this module's type:
/// further calls can be pipelined on it without waiting.
pub struct Pipeline {
    pub question: u32,
    pub path: Vec<u16>,
}

impl Pipeline {
    /// The pipeline for a whole answer of this type.
    pub fn new(question: u32) -> (r: Pipeline)
        ensures
            r.question == question,
            r.path@ == Seq::<u16>::empty(),
    {
        Pipeline { question, path: Vec::new() }
    }
}

} // verus!
