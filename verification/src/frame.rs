//! Accessors for the `frame` schema union: one data word holding the
//! 16-bit discriminant, one pointer to the active variant's struct.
//!
//! Switching the variant is a single operation that writes the
//! discriminant before handing out the variant's builder, so a reader
//! never sees a pointer whose discriminant is stale.

use vstd::prelude::*;
use crate::error::Error;
use crate::layout::{
    get_root, get_struct_field, get_u16, grows_except, has_ptr_field, init_root,
    init_struct_field, scursor_wf, set_u16, spec_cell_off, spec_get_u16, spec_ptr_word,
    spec_root_field, spec_struct_field, StructCursor,
};
use crate::message::{update_bytes, Message, MAX_SEGMENTS};
use crate::traverse::{spec_total_size, MessageSize, DEFAULT_TRAVERSAL_WORDS};

verus! {

/// Data words of the type's layout.
pub const DATA_WORDS: u16 = 1;

/// Pointer slots of the type's layout.
pub const PTR_COUNT: u16 = 1;

/// Discriminant of the audio variant.
pub const AUDIO_DISCRIMINANT: u16 = 0;

/// Discriminant of the video variant.
pub const VIDEO_DISCRIMINANT: u16 = 1;

/// Marker for the schema type.
#[derive(Clone, Copy)]
pub struct Owned;

/// The active variant of a `frame`, with that variant's payload.
pub enum Which<A0, A1> {
    /// The frame holds audio samples.
    AudioFrame(A0),
    /// The frame holds a video picture.
    VideoFrame(A1),
}

/// What `Reader::which` hands out for each variant.
pub type WhichReader = Which<
    Result<Option<crate::audio_frame::Reader>, Error>,
    Result<Option<crate::video_frame::Reader>, Error>,
>;

/// Read-only accessor for one stored `frame` value.
#[derive(Clone, Copy, Debug)]
pub struct Reader {
    pub c: StructCursor,
}

/// Mutable accessor for one stored `frame` value.
#[derive(Clone, Copy, Debug)]
pub struct Builder {
    pub c: StructCursor,
}

impl Reader {
    /// The accessor addresses a real struct inside `m`.
    pub open spec fn wf(self, m: Message) -> bool {
        scursor_wf(self.c, m@)
    }

    /// The stored discriminant.
    pub open spec fn spec_disc(self, mv: Seq<Seq<u8>>) -> u16 {
        spec_get_u16(mv, self.c, 0)
    }

    /// The variant pointer resolved as an `audio_frame`.
    pub open spec fn spec_audio(self, mv: Seq<Seq<u8>>) -> Result<
        Option<crate::audio_frame::Reader>,
        Error,
    > {
        match spec_struct_field(mv, self.c, 0) {
            Err(e) => Err(e),
            Ok(Option::None) => Ok(Option::None),
            Ok(Option::Some(sc)) => Ok(Option::Some(crate::audio_frame::Reader { c: sc })),
        }
    }

    /// The variant pointer resolved as a `video_frame`.
    pub open spec fn spec_video(self, mv: Seq<Seq<u8>>) -> Result<
        Option<crate::video_frame::Reader>,
        Error,
    > {
        match spec_struct_field(mv, self.c, 0) {
            Err(e) => Err(e),
            Ok(Option::None) => Ok(Option::None),
            Ok(Option::Some(sc)) => Ok(Option::Some(crate::video_frame::Reader { c: sc })),
        }
    }

    /// Whether the frame is the audio variant with a present payload.
    pub open spec fn spec_has_audio(self, mv: Seq<Seq<u8>>) -> bool {
        self.spec_disc(mv) == AUDIO_DISCRIMINANT && spec_ptr_word(mv, self.c, 0) != 0
    }

    /// Whether the frame is the video variant with a present payload.
    pub open spec fn spec_has_video(self, mv: Seq<Seq<u8>>) -> bool {
        self.spec_disc(mv) == VIDEO_DISCRIMINANT && spec_ptr_word(mv, self.c, 0) != 0
    }

    /// A copy of this accessor.
    pub fn reborrow(&self) -> (r: Reader)
        ensures
            r == *self,
    {
        Reader { c: self.c }
    }

    /// Words reachable from this value, under the default budget.
    pub fn total_size(&self, m: &Message) -> (r: Result<MessageSize, Error>)
        requires
            m.wf(),
            self.wf(*m),
        ensures
            r == spec_total_size(m@, self.c, DEFAULT_TRAVERSAL_WORDS),
    {
        crate::traverse::total_size(m, self.c, DEFAULT_TRAVERSAL_WORDS)
    }

    /// Whether the frame is the audio variant with a present payload.
    pub fn has_audio_frame(&self, m: &Message) -> (r: bool)
        requires
            m.wf(),
            self.wf(*m),
        ensures
            r == self.spec_has_audio(m@),
    {
        if get_u16(m, self.c, 0) != AUDIO_DISCRIMINANT {
            return false;
        }
        has_ptr_field(m, self.c, 0)
    }


    /// Whether the frame is the video variant with a present payload.
    pub fn has_video_frame(&self, m: &Message) -> (r: bool)
        requires
            m.wf(),
            self.wf(*m),
        ensures
            r == self.spec_has_video(m@),
    {
        if get_u16(m, self.c, 0) != VIDEO_DISCRIMINANT {
            return false;
        }
        has_ptr_field(m, self.c, 0)
    }

    /// The active variant, or `NotInSchema` for a discriminant this
    /// schema version does not know.  An absent payload surfaces as
    /// `Ok(None)` inside the variant, never as the other variant's bytes.
    pub fn which(&self, m: &Message) -> (r: Result<WhichReader, Error>)
        requires
            m.wf(),
            self.wf(*m),
        ensures
            self.spec_disc(m@) == AUDIO_DISCRIMINANT ==> (r matches Ok(
                Which::AudioFrame(a),
            ) && a == self.spec_audio(m@)),
            self.spec_disc(m@) == VIDEO_DISCRIMINANT ==> (r matches Ok(
                Which::VideoFrame(v),
            ) && v == self.spec_video(m@)),
            self.spec_disc(m@) != AUDIO_DISCRIMINANT && self.spec_disc(m@) != VIDEO_DISCRIMINANT
                ==> r == Err::<WhichReader, Error>(Error::NotInSchema(self.spec_disc(m@))),
    {
        let disc = get_u16(m, self.c, 0);
        if disc == AUDIO_DISCRIMINANT {
            let payload = match get_struct_field(m, self.c, 0) {
                Err(e) => Err(e),
                Ok(None) => Ok(None),
                Ok(Some(sc)) => Ok(Some(crate::audio_frame::Reader { c: sc })),
            };
            Ok(Which::AudioFrame(payload))
        } else if disc == VIDEO_DISCRIMINANT {
            let payload = match get_struct_field(m, self.c, 0) {
                Err(e) => Err(e),
                Ok(None) => Ok(None),
                Ok(Some(sc)) => Ok(Some(crate::video_frame::Reader { c: sc })),
            };
            Ok(Which::VideoFrame(payload))
        } else {
            Err(Error::NotInSchema(disc))
        }
    }
}

impl Builder {
    /// The accessor addresses a real struct of this layout inside `m`.
    pub open spec fn wf(self, m: Message) -> bool {
        &&& scursor_wf(self.c, m@)
        &&& self.c.data_words == DATA_WORDS
        &&& self.c.ptr_count == PTR_COUNT
    }

    /// The builder seen read-only.
    pub open spec fn spec_reader(self) -> Reader {
        Reader { c: self.c }
    }

    /// The variant pointer resolved for mutation as an `audio_frame`:
    /// absent also when the stored struct does not have that layout, so
    /// the builder's setters always stay inside their own footprint.
    pub open spec fn spec_audio_builder(self, mv: Seq<Seq<u8>>) -> Result<
        Option<crate::audio_frame::Builder>,
        Error,
    > {
        match spec_struct_field(mv, self.c, 0) {
            Err(e) => Err(e),
            Ok(Option::None) => Ok(Option::None),
            Ok(Option::Some(sc)) => if sc.data_words == crate::audio_frame::DATA_WORDS
                && sc.ptr_count == crate::audio_frame::PTR_COUNT {
                Ok(Option::Some(crate::audio_frame::Builder { c: sc }))
            } else {
                Ok(Option::None)
            },
        }
    }

    /// The variant pointer resolved for mutation as a `video_frame`.
    pub open spec fn spec_video_builder(self, mv: Seq<Seq<u8>>) -> Result<
        Option<crate::video_frame::Builder>,
        Error,
    > {
        match spec_struct_field(mv, self.c, 0) {
            Err(e) => Err(e),
            Ok(Option::None) => Ok(Option::None),
            Ok(Option::Some(sc)) => if sc.data_words == crate::video_frame::DATA_WORDS
                && sc.ptr_count == crate::video_frame::PTR_COUNT {
                Ok(Option::Some(crate::video_frame::Builder { c: sc }))
            } else {
                Ok(Option::None)
            },
        }
    }

    /// The read-only view of this builder.
    pub fn as_reader(&self) -> (r: Reader)
        ensures
            r == self.spec_reader(),
    {
        Reader { c: self.c }
    }

    /// Consume the builder into its read-only view.
    pub fn into_reader(self) -> (r: Reader)
        ensures
            r == self.spec_reader(),
    {
        Reader { c: self.c }
    }

    /// A copy of this accessor.
    pub fn reborrow(&self) -> (r: Builder)
        ensures
            r == *self,
    {
        Builder { c: self.c }
    }

    /// The read-only view, without consuming the builder.
    pub fn reborrow_as_reader(&self) -> (r: Reader)
        ensures
            r == self.spec_reader(),
    {
        Reader { c: self.c }
    }

    /// Words reachable from this value, under the default budget.
    pub fn total_size(&self, m: &Message) -> (r: Result<MessageSize, Error>)
        requires
            m.wf(),
            self.wf(*m),
        ensures
            r == spec_total_size(m@, self.c, DEFAULT_TRAVERSAL_WORDS),
    {
        crate::traverse::total_size(m, self.c, DEFAULT_TRAVERSAL_WORDS)
    }

    /// Switch to the audio variant and allocate its fresh zeroed struct:
    /// the discriminant is written before the builder is handed out.
    pub fn init_audio_frame(&self, m: &mut Message) -> (r: crate::audio_frame::Builder)
        requires
            old(m).wf(),
            self.wf(*old(m)),
            old(m)@.len() < MAX_SEGMENTS,
        ensures
            final(m).wf(),
            self.wf(*final(m)),
            r.wf(*final(m)),
            self.spec_reader().spec_disc(final(m)@) == AUDIO_DISCRIMINANT,
            self.spec_reader().spec_audio(final(m)@) == Ok::<
                Option<crate::audio_frame::Reader>,
                Error,
            >(Some(r.spec_reader())),
            self.spec_reader().spec_has_audio(final(m)@),
            final(m)@.len() <= old(m)@.len() + 1,
            grows_except(old(m)@, final(m)@, self.c.seg as int, self.c.data_off as int, 16),
            forall|j: int|
                r.c.data_off <= j < r.c.data_off + 32 ==> final(m)@[r.c.seg as int][j] == 0u8,
            r.c.seg < old(m)@.len() ==> r.c.data_off >= old(m)@[r.c.seg as int].len(),
            forall|mv2: Seq<Seq<u8>>|
                grows_except(final(m)@, mv2, r.c.seg as int, r.c.data_off as int, 32)
                    ==> self.spec_reader().spec_audio(mv2) == Ok::<
                    Option<crate::audio_frame::Reader>,
                    Error,
                >(Some(r.spec_reader())) && self.spec_reader().spec_disc(mv2)
                    == AUDIO_DISCRIMINANT,
    {
        set_u16(m, self.c, 0, AUDIO_DISCRIMINANT);
        let ghost mv1 = m@;
        let sc = init_struct_field(
            m,
            self.c,
            0,
            crate::audio_frame::DATA_WORDS,
            crate::audio_frame::PTR_COUNT,
        );
        proof {
            crate::message::lemma_u16_bytes_roundtrip(AUDIO_DISCRIMINANT);
            crate::message::lemma_update_bytes_facts(
                old(m)@[self.c.seg as int],
                self.c.data_off as int,
                crate::message::spec_u16_bytes(AUDIO_DISCRIMINANT),
            );
            crate::message::lemma_le_at_preserved(mv1, m@, self.c.seg as int, self.c.data_off as int, 2);
            crate::layout::lemma_update_grows(
                old(m)@,
                mv1,
                self.c.seg as int,
                self.c.data_off as int,
                crate::message::spec_u16_bytes(AUDIO_DISCRIMINANT),
            );
            crate::layout::lemma_grows_except_step(
                old(m)@,
                old(m)@,
                mv1,
                self.c.seg as int,
                self.c.data_off as int,
                16,
                self.c.data_off as int,
                2,
            );
            crate::layout::lemma_grows_except_step(
                old(m)@,
                mv1,
                m@,
                self.c.seg as int,
                self.c.data_off as int,
                16,
                spec_cell_off(self.c, 0),
                8,
            );
            assert forall|mv2: Seq<Seq<u8>>|
                grows_except(m@, mv2, sc.seg as int, sc.data_off as int, 32)
                    implies self.spec_reader().spec_audio(mv2) == Ok::<
                    Option<crate::audio_frame::Reader>,
                    Error,
                >(Some(crate::audio_frame::Reader { c: sc }))
                && self.spec_reader().spec_disc(mv2) == AUDIO_DISCRIMINANT by {
                crate::message::lemma_le_at_preserved(
                    m@,
                    mv2,
                    self.c.seg as int,
                    self.c.data_off as int,
                    2,
                );
            }
        }
        crate::audio_frame::Builder { c: sc }
    }


    /// Switch to the audio variant and copy `value`, read in `src`, into
    /// it: the scalar fields and the timestamp are copied exactly; the
    /// sample bytes are copied when present.
    pub fn set_audio_frame(&self, m: &mut Message, src: &Message, value: crate::audio_frame::Reader) -> (r:
        Result<(), Error>)
        requires
            old(m).wf(),
            self.wf(*old(m)),
            src.wf(),
            value.wf(*src),
            old(m)@.len() + 3 <= MAX_SEGMENTS,
        ensures
            final(m).wf(),
            self.wf(*final(m)),
            old(m)@.len() <= final(m)@.len(),
            forall|s: int|
                0 <= s < old(m)@.len() ==> old(m)@[s].len() <= (#[trigger] final(m)@[s]).len(),
            r matches Ok(_) ==> grows_except(
                old(m)@,
                final(m)@,
                self.c.seg as int,
                self.c.data_off as int,
                16,
            ),
            r matches Ok(_) ==> {
                &&& self.spec_reader().spec_disc(final(m)@) == AUDIO_DISCRIMINANT
                &&& (self.spec_reader().spec_audio(final(m)@) matches Ok(Some(rd)) && {
                    &&& rd.spec_num_samples(final(m)@) == value.spec_num_samples(src@)
                    &&& rd.spec_channels(final(m)@) == value.spec_channels(src@)
                    &&& rd.spec_stream_id(final(m)@) == value.spec_stream_id(src@)
                    &&& (match value.spec_data(src@) {
                        Ok(Option::Some(bts)) => rd.spec_data(final(m)@) == Ok::<
                            Option<Seq<u8>>,
                            Error,
                        >(Some(bts)),
                        Ok(Option::None) => !rd.spec_has_data(final(m)@),
                        Err(_) => true,
                    })
                    &&& (match value.spec_pts(src@) {
                        Ok(Option::Some(p)) => (rd.spec_pts(final(m)@) matches Ok(Some(pd))
                            && pd.spec_num(final(m)@) == p.spec_num(src@) && pd.spec_den(
                            final(m)@,
                        ) == p.spec_den(src@)),
                        Ok(Option::None) => !rd.spec_has_pts(final(m)@),
                        Err(_) => true,
                    })
                })
            },
    {
        let ab = self.init_audio_frame(m);
        let ghost mva = m@;
        let ghost aseg = ab.c.seg as int;
        let ghost alo = ab.c.data_off as int;
        let ns = value.get_num_samples(src);
        let ch = value.get_channels(src);
        let sid = value.get_stream_id(src);
        let ghost g0 = m@;
        ab.set_num_samples(m, ns);
        proof {
            crate::message::lemma_u32_bytes_roundtrip(ns);
            crate::layout::lemma_update_grows(
                g0,
                m@,
                aseg,
                alo,
                crate::message::spec_u32_bytes(ns),
            );
            crate::layout::lemma_grows_except_step(mva, g0, m@, aseg, alo, 32, alo, 4);
        }
        let ghost g1 = m@;
        ab.set_channels(m, ch);
        proof {
            crate::message::lemma_u16_bytes_roundtrip(ch);
            crate::layout::lemma_update_grows(
                g1,
                m@,
                aseg,
                alo + 4,
                crate::message::spec_u16_bytes(ch),
            );
            crate::layout::lemma_grows_except_step(mva, g1, m@, aseg, alo, 32, alo + 4, 2);
        }
        let ghost g2 = m@;
        ab.set_stream_id(m, sid);
        proof {
            crate::message::lemma_u32_bytes_roundtrip(sid);
            crate::layout::lemma_update_grows(
                g2,
                m@,
                aseg,
                alo + 8,
                crate::message::spec_u32_bytes(sid),
            );
            crate::layout::lemma_grows_except_step(mva, g2, m@, aseg, alo, 32, alo + 8, 4);
        }
        let ghost mv3 = m@;
        match value.get_data(src) {
            Err(e) => {
                return Err(e);
            },
            Ok(None) => {
                proof {
                    crate::message::lemma_le_zero(mva[aseg].subrange(alo + 16, alo + 24));
                    assert(spec_ptr_word(mva, ab.c, 0) == 0);
                    assert(spec_ptr_word(m@, ab.c, 0) == 0);
                }
            },
            Ok(Some(bytes)) => {
                if bytes.len() > crate::pointer::MAX_LIST_COUNT as usize {
                    return Err(Error::TraversalLimitExceeded);
                }
                ab.set_data(m, bytes.as_slice());
                proof {
                    self.lemma_audio_scalars_preserved(mv3, m@, ab);
                    crate::layout::lemma_grows_except_step(
                        mva,
                        mv3,
                        m@,
                        aseg,
                        alo,
                        32,
                        spec_cell_off(ab.c, 0),
                        8,
                    );
                    assert(spec_ptr_word(m@, ab.c, 0) != 0);
                }
            },
        }
        let ghost mv4 = m@;
        match value.get_pts(src) {
            Err(e) => {
                return Err(e);
            },
            Ok(None) => {
                proof {
                    crate::message::lemma_le_zero(mva[aseg].subrange(alo + 24, alo + 32));
                    assert(spec_ptr_word(mva, ab.c, 1) == 0);
                    crate::message::lemma_le_at_preserved(mv3, mv4, aseg, alo + 24, 8);
                    assert(spec_ptr_word(m@, ab.c, 1) == 0);
                }
            },
            Ok(Some(p)) => {
                ab.set_pts(m, src, p);
                proof {
                    self.lemma_audio_scalars_preserved(mv4, m@, ab);
                    crate::layout::lemma_grows_except_step(
                        mva,
                        mv4,
                        m@,
                        aseg,
                        alo,
                        32,
                        spec_cell_off(ab.c, 1),
                        8,
                    );
                    crate::message::lemma_le_at_preserved(mv4, m@, aseg, alo + 16, 8);
                    assert(spec_ptr_word(m@, ab.c, 0) == spec_ptr_word(mv4, ab.c, 0));
                    self.lemma_audio_data_preserved(mv4, m@, ab);
                }
            },
        }
        proof {
            self.lemma_frame_link_audio(old(m)@, mva, m@, ab);
            crate::layout::lemma_grows_disjoint_chain(
                old(m)@,
                mva,
                m@,
                self.c.seg as int,
                self.c.data_off as int,
                16,
                ab.c.seg as int,
                ab.c.data_off as int,
                32,
            );
        }
        Ok(())
    }

    /// A change confined to the timestamp cell and fresh storage keeps
    /// the sample-byte list: its own cell, any landing pad, and its
    /// contents all lie elsewhere.
    proof fn lemma_audio_data_preserved(
        self,
        mv1: Seq<Seq<u8>>,
        mv2: Seq<Seq<u8>>,
        ab: crate::audio_frame::Builder,
    )
        requires
            scursor_wf(ab.c, mv1),
            ab.c.data_words == 2,
            ab.c.ptr_count == 2,
            grows_except(mv1, mv2, ab.c.seg as int, spec_cell_off(ab.c, 1), 8),
            (crate::layout::spec_list_field(mv1, ab.c, 0) matches Ok(o) ==> (match o {
                Option::Some(lc) => crate::layout::lcursor_wf(lc, mv1) && lc.elem is One && (
                lc.seg == ab.c.seg ==> lc.off >= ab.c.data_off + 32) && (crate::pointer::dec_ptr(
                    spec_ptr_word(mv1, ab.c, 0),
                ) matches Some(crate::pointer::Pointer::Far { seg: fs, off }) ==> fs == lc.seg
                    && 8 * off + 8 == lc.off && lc.seg != ab.c.seg),
                Option::None => true,
            })),
        ensures
            crate::layout::spec_list_field(mv2, ab.c, 0) == crate::layout::spec_list_field(
                mv1,
                ab.c,
                0,
            ) || !(crate::layout::spec_list_field(mv1, ab.c, 0) matches Ok(Some(lc2))),
            (crate::layout::spec_list_field(mv1, ab.c, 0) matches Ok(Some(lc)) ==> (
            crate::layout::spec_list_field(mv2, ab.c, 0) == crate::layout::spec_list_field(
                mv1,
                ab.c,
                0,
            ) && crate::layout::spec_list_bytes(mv2, lc) == crate::layout::spec_list_bytes(
                mv1,
                lc,
            ))),
    {
        let seg = ab.c.seg as int;
        let cell0 = spec_cell_off(ab.c, 0);
        crate::message::lemma_le_at_preserved(mv1, mv2, seg, cell0, 8);
        match crate::layout::spec_list_field(mv1, ab.c, 0) {
            Ok(Option::Some(lc)) => {
                assert(mv2[seg].subrange(cell0, cell0 + 8) =~= mv1[seg].subrange(
                    cell0,
                    cell0 + 8,
                ));
                match crate::pointer::dec_ptr(spec_ptr_word(mv1, ab.c, 0)) {
                    Option::Some(crate::pointer::Pointer::Far { seg: fs, off }) => {
                        assert(8 * off + 8 == lc.off && fs == lc.seg && lc.seg != ab.c.seg);
                        assert(lc.off <= mv1[lc.seg as int].len());
                        assert(mv2[fs as int].subrange(8 * off, 8 * off + 8) =~= mv1[
                            fs as int
                        ].subrange(8 * off, 8 * off + 8));
                    },
                    _ => {},
                }
                assert(match crate::layout::spec_resolve(
                    mv1,
                    ab.c.seg as int,
                    spec_ptr_word(mv1, ab.c, 0),
                ) {
                    Ok((home, crate::pointer::Pointer::List {
                        off,
                        elem: crate::pointer::ElemSize::Composite,
                        count,
                    })) => {
                        8 * off + 8 <= mv1[home].len() ==> mv2[home].subrange(
                            8 * off,
                            8 * off + 8,
                        ) == mv1[home].subrange(8 * off, 8 * off + 8)
                    },
                    _ => true,
                });
                crate::layout::lemma_list_field_preserved(mv1, mv2, ab.c, 0);
                assert forall|j: int|
                    lc.off <= j < lc.off + lc.count implies mv2[lc.seg as int][j] == mv1[
                    lc.seg as int
                ][j] by {
                    assert(j < mv1[lc.seg as int].len());
                }
                assert(mv2[lc.seg as int].subrange(lc.off as int, lc.off + lc.count) =~= mv1[
                    lc.seg as int
                ].subrange(lc.off as int, lc.off + lc.count));
            },
            _ => {},
        }
    }

    /// A later builder step that only touches one of the audio struct's
    /// own pointer cells (and fresh bytes) keeps its scalar fields.
    proof fn lemma_audio_scalars_preserved(
        self,
        mv1: Seq<Seq<u8>>,
        mv2: Seq<Seq<u8>>,
        ab: crate::audio_frame::Builder,
    )
        requires
            scursor_wf(ab.c, mv1),
            ab.c.data_words == 2,
            ab.c.ptr_count == 2,
            grows_except(mv1, mv2, ab.c.seg as int, spec_cell_off(ab.c, 0), 8) || grows_except(
                mv1,
                mv2,
                ab.c.seg as int,
                spec_cell_off(ab.c, 1),
                8,
            ),
        ensures
            ab.spec_reader().spec_num_samples(mv2) == ab.spec_reader().spec_num_samples(mv1),
            ab.spec_reader().spec_channels(mv2) == ab.spec_reader().spec_channels(mv1),
            ab.spec_reader().spec_stream_id(mv2) == ab.spec_reader().spec_stream_id(mv1),
    {
        let seg = ab.c.seg as int;
        crate::message::lemma_le_at_preserved(mv1, mv2, seg, ab.c.data_off as int, 4);
        crate::message::lemma_le_at_preserved(mv1, mv2, seg, ab.c.data_off + 4, 2);
        crate::message::lemma_le_at_preserved(mv1, mv2, seg, ab.c.data_off + 8, 4);
    }

    /// Chain the copy steps' frame conditions back to the link made by
    /// the variant switch: everything after the switch stayed inside the
    /// audio struct's own footprint or fresh storage.
    proof fn lemma_frame_link_audio(
        self,
        mv0: Seq<Seq<u8>>,
        mva: Seq<Seq<u8>>,
        mvf: Seq<Seq<u8>>,
        ab: crate::audio_frame::Builder,
    )
        requires
            scursor_wf(ab.c, mva),
            ab.c.data_words == 2,
            ab.c.ptr_count == 2,
            mva.len() <= mvf.len(),
            forall|s: int| 0 <= s < mva.len() ==> mva[s].len() <= (#[trigger] mvf[s]).len(),
            forall|s: int, j: int|
                0 <= s < mva.len() && 0 <= j < mva[s].len() && !(s == ab.c.seg as int
                    && ab.c.data_off <= j < ab.c.data_off + 32) ==> #[trigger] mvf[s][j] == mva[
                    s
                ][j],
            forall|mv2: Seq<Seq<u8>>|
                grows_except(mva, mv2, ab.c.seg as int, ab.c.data_off as int, 32)
                    ==> self.spec_reader().spec_audio(mv2) == Ok::<
                    Option<crate::audio_frame::Reader>,
                    Error,
                >(Some(ab.spec_reader())) && self.spec_reader().spec_disc(mv2)
                    == AUDIO_DISCRIMINANT,
        ensures
            self.spec_reader().spec_audio(mvf) == Ok::<Option<crate::audio_frame::Reader>, Error>(
                Some(ab.spec_reader()),
            ),
            self.spec_reader().spec_disc(mvf) == AUDIO_DISCRIMINANT,
    {
        assert(grows_except(mva, mvf, ab.c.seg as int, ab.c.data_off as int, 32));
    }

    /// Whether the frame is the audio variant with a present payload.
    pub fn has_audio_frame(&self, m: &Message) -> (r: bool)
        requires
            m.wf(),
            self.wf(*m),
        ensures
            r == self.spec_reader().spec_has_audio(m@),
    {
        self.as_reader().has_audio_frame(m)
    }

    /// Switch to the video variant and allocate its fresh zeroed struct:
    /// the discriminant is written before the builder is handed out.
    pub fn init_video_frame(&self, m: &mut Message) -> (r: crate::video_frame::Builder)
        requires
            old(m).wf(),
            self.wf(*old(m)),
            old(m)@.len() < MAX_SEGMENTS,
        ensures
            final(m).wf(),
            self.wf(*final(m)),
            r.wf(*final(m)),
            self.spec_reader().spec_disc(final(m)@) == VIDEO_DISCRIMINANT,
            self.spec_reader().spec_video(final(m)@) == Ok::<
                Option<crate::video_frame::Reader>,
                Error,
            >(Some(r.spec_reader())),
            self.spec_reader().spec_has_video(final(m)@),
            final(m)@.len() <= old(m)@.len() + 1,
            grows_except(old(m)@, final(m)@, self.c.seg as int, self.c.data_off as int, 16),
            forall|j: int|
                r.c.data_off <= j < r.c.data_off + 32 ==> final(m)@[r.c.seg as int][j] == 0u8,
            r.c.seg < old(m)@.len() ==> r.c.data_off >= old(m)@[r.c.seg as int].len(),
            forall|mv2: Seq<Seq<u8>>|
                grows_except(final(m)@, mv2, r.c.seg as int, r.c.data_off as int, 32)
                    ==> self.spec_reader().spec_video(mv2) == Ok::<
                    Option<crate::video_frame::Reader>,
                    Error,
                >(Some(r.spec_reader())) && self.spec_reader().spec_disc(mv2)
                    == VIDEO_DISCRIMINANT,
    {
        set_u16(m, self.c, 0, VIDEO_DISCRIMINANT);
        let ghost mv1 = m@;
        let sc = init_struct_field(
            m,
            self.c,
            0,
            crate::video_frame::DATA_WORDS,
            crate::video_frame::PTR_COUNT,
        );
        proof {
            crate::message::lemma_u16_bytes_roundtrip(VIDEO_DISCRIMINANT);
            crate::message::lemma_update_bytes_facts(
                old(m)@[self.c.seg as int],
                self.c.data_off as int,
                crate::message::spec_u16_bytes(VIDEO_DISCRIMINANT),
            );
            crate::message::lemma_le_at_preserved(mv1, m@, self.c.seg as int, self.c.data_off as int, 2);
            crate::layout::lemma_update_grows(
                old(m)@,
                mv1,
                self.c.seg as int,
                self.c.data_off as int,
                crate::message::spec_u16_bytes(VIDEO_DISCRIMINANT),
            );
            crate::layout::lemma_grows_except_step(
                old(m)@,
                old(m)@,
                mv1,
                self.c.seg as int,
                self.c.data_off as int,
                16,
                self.c.data_off as int,
                2,
            );
            crate::layout::lemma_grows_except_step(
                old(m)@,
                mv1,
                m@,
                self.c.seg as int,
                self.c.data_off as int,
                16,
                spec_cell_off(self.c, 0),
                8,
            );
            assert forall|mv2: Seq<Seq<u8>>|
                grows_except(m@, mv2, sc.seg as int, sc.data_off as int, 32)
                    implies self.spec_reader().spec_video(mv2) == Ok::<
                    Option<crate::video_frame::Reader>,
                    Error,
                >(Some(crate::video_frame::Reader { c: sc }))
                && self.spec_reader().spec_disc(mv2) == VIDEO_DISCRIMINANT by {
                crate::message::lemma_le_at_preserved(
                    m@,
                    mv2,
                    self.c.seg as int,
                    self.c.data_off as int,
                    2,
                );
            }
        }
        crate::video_frame::Builder { c: sc }
    }


    /// Switch to the video variant and copy `value`, read in `src`, into
    /// it: the scalar fields and the timestamp are copied exactly; the
    /// sample bytes are copied when present.  An unknown pixel-format
    /// code in the source is reported as `NotInSchema`.
    pub fn set_video_frame(&self, m: &mut Message, src: &Message, value: crate::video_frame::Reader) -> (r:
        Result<(), Error>)
        requires
            old(m).wf(),
            self.wf(*old(m)),
            src.wf(),
            value.wf(*src),
            old(m)@.len() + 3 <= MAX_SEGMENTS,
        ensures
            final(m).wf(),
            self.wf(*final(m)),
            old(m)@.len() <= final(m)@.len(),
            forall|s: int|
                0 <= s < old(m)@.len() ==> old(m)@[s].len() <= (#[trigger] final(m)@[s]).len(),
            r matches Ok(_) ==> grows_except(
                old(m)@,
                final(m)@,
                self.c.seg as int,
                self.c.data_off as int,
                16,
            ),
            r matches Ok(_) ==> {
                &&& self.spec_reader().spec_disc(final(m)@) == VIDEO_DISCRIMINANT
                &&& (self.spec_reader().spec_video(final(m)@) matches Ok(Some(rd)) && {
                    &&& rd.spec_width(final(m)@) == value.spec_width(src@)
                    &&& rd.spec_height(final(m)@) == value.spec_height(src@)
                    &&& rd.spec_stream_id(final(m)@) == value.spec_stream_id(src@)
                    &&& rd.spec_pixel_format(final(m)@) == value.spec_pixel_format(src@)
                    &&& (match value.spec_data(src@) {
                        Ok(Option::Some(bts)) => rd.spec_data(final(m)@) == Ok::<
                            Option<Seq<u8>>,
                            Error,
                        >(Some(bts)),
                        Ok(Option::None) => !rd.spec_has_data(final(m)@),
                        Err(_) => true,
                    })
                    &&& (match value.spec_pts(src@) {
                        Ok(Option::Some(p)) => (rd.spec_pts(final(m)@) matches Ok(Some(pd))
                            && pd.spec_num(final(m)@) == p.spec_num(src@) && pd.spec_den(
                            final(m)@,
                        ) == p.spec_den(src@)),
                        Ok(Option::None) => !rd.spec_has_pts(final(m)@),
                        Err(_) => true,
                    })
                })
            },
    {
        let pf = match value.get_pixel_format(src) {
            Ok(pf) => pf,
            Err(e) => {
                return Err(e);
            },
        };
        let vb = self.init_video_frame(m);
        let ghost mva = m@;
        let ghost aseg = vb.c.seg as int;
        let ghost alo = vb.c.data_off as int;
        let w = value.get_width(src);
        let h = value.get_height(src);
        let sid = value.get_stream_id(src);
        let ghost g0 = m@;
        vb.set_width(m, w);
        proof {
            crate::message::lemma_u32_bytes_roundtrip(w);
            crate::layout::lemma_update_grows(
                g0,
                m@,
                aseg,
                alo,
                crate::message::spec_u32_bytes(w),
            );
            crate::layout::lemma_grows_except_step(mva, g0, m@, aseg, alo, 32, alo, 4);
        }
        let ghost g1 = m@;
        vb.set_height(m, h);
        proof {
            crate::message::lemma_u32_bytes_roundtrip(h);
            crate::layout::lemma_update_grows(
                g1,
                m@,
                aseg,
                alo + 4,
                crate::message::spec_u32_bytes(h),
            );
            crate::layout::lemma_grows_except_step(mva, g1, m@, aseg, alo, 32, alo + 4, 4);
        }
        let ghost g2 = m@;
        vb.set_pixel_format(m, pf);
        proof {
            let raw = 0u16;
            crate::message::lemma_u16_bytes_roundtrip(raw);
            crate::layout::lemma_update_grows(
                g2,
                m@,
                aseg,
                alo + 8,
                crate::message::spec_u16_bytes(raw),
            );
            crate::layout::lemma_grows_except_step(mva, g2, m@, aseg, alo, 32, alo + 8, 2);
        }
        let ghost g3 = m@;
        vb.set_stream_id(m, sid);
        proof {
            crate::message::lemma_u32_bytes_roundtrip(sid);
            crate::layout::lemma_update_grows(
                g3,
                m@,
                aseg,
                alo + 12,
                crate::message::spec_u32_bytes(sid),
            );
            crate::layout::lemma_grows_except_step(mva, g3, m@, aseg, alo, 32, alo + 12, 4);
        }
        let ghost mv3 = m@;
        match value.get_data(src) {
            Err(e) => {
                return Err(e);
            },
            Ok(None) => {
                proof {
                    crate::message::lemma_le_zero(mva[aseg].subrange(alo + 16, alo + 24));
                    assert(spec_ptr_word(mva, vb.c, 0) == 0);
                    assert(spec_ptr_word(m@, vb.c, 0) == 0);
                }
            },
            Ok(Some(bytes)) => {
                if bytes.len() > crate::pointer::MAX_LIST_COUNT as usize {
                    return Err(Error::TraversalLimitExceeded);
                }
                vb.set_data(m, bytes.as_slice());
                proof {
                    self.lemma_video_scalars_preserved(mv3, m@, vb);
                    crate::layout::lemma_grows_except_step(
                        mva,
                        mv3,
                        m@,
                        aseg,
                        alo,
                        32,
                        spec_cell_off(vb.c, 0),
                        8,
                    );
                    assert(spec_ptr_word(m@, vb.c, 0) != 0);
                }
            },
        }
        let ghost mv4 = m@;
        match value.get_pts(src) {
            Err(e) => {
                return Err(e);
            },
            Ok(None) => {
                proof {
                    crate::message::lemma_le_zero(mva[aseg].subrange(alo + 24, alo + 32));
                    assert(spec_ptr_word(mva, vb.c, 1) == 0);
                    crate::message::lemma_le_at_preserved(mv3, mv4, aseg, alo + 24, 8);
                    assert(spec_ptr_word(m@, vb.c, 1) == 0);
                }
            },
            Ok(Some(p)) => {
                vb.set_pts(m, src, p);
                proof {
                    self.lemma_video_scalars_preserved(mv4, m@, vb);
                    crate::layout::lemma_grows_except_step(
                        mva,
                        mv4,
                        m@,
                        aseg,
                        alo,
                        32,
                        spec_cell_off(vb.c, 1),
                        8,
                    );
                    crate::message::lemma_le_at_preserved(mv4, m@, aseg, alo + 16, 8);
                    assert(spec_ptr_word(m@, vb.c, 0) == spec_ptr_word(mv4, vb.c, 0));
                    self.lemma_video_data_preserved(mv4, m@, vb);
                }
            },
        }
        proof {
            self.lemma_frame_link_video(old(m)@, mva, m@, vb);
            crate::layout::lemma_grows_disjoint_chain(
                old(m)@,
                mva,
                m@,
                self.c.seg as int,
                self.c.data_off as int,
                16,
                vb.c.seg as int,
                vb.c.data_off as int,
                32,
            );
        }
        Ok(())
    }

    /// See `lemma_audio_data_preserved`.
    proof fn lemma_video_data_preserved(
        self,
        mv1: Seq<Seq<u8>>,
        mv2: Seq<Seq<u8>>,
        vb: crate::video_frame::Builder,
    )
        requires
            scursor_wf(vb.c, mv1),
            vb.c.data_words == 2,
            vb.c.ptr_count == 2,
            grows_except(mv1, mv2, vb.c.seg as int, spec_cell_off(vb.c, 1), 8),
            (crate::layout::spec_list_field(mv1, vb.c, 0) matches Ok(o) ==> (match o {
                Option::Some(lc) => crate::layout::lcursor_wf(lc, mv1) && lc.elem is One && (
                lc.seg == vb.c.seg ==> lc.off >= vb.c.data_off + 32) && (crate::pointer::dec_ptr(
                    spec_ptr_word(mv1, vb.c, 0),
                ) matches Some(crate::pointer::Pointer::Far { seg: fs, off }) ==> fs == lc.seg
                    && 8 * off + 8 == lc.off && lc.seg != vb.c.seg),
                Option::None => true,
            })),
        ensures
            (crate::layout::spec_list_field(mv1, vb.c, 0) matches Ok(Some(lc)) ==> (
            crate::layout::spec_list_field(mv2, vb.c, 0) == crate::layout::spec_list_field(
                mv1,
                vb.c,
                0,
            ) && crate::layout::spec_list_bytes(mv2, lc) == crate::layout::spec_list_bytes(
                mv1,
                lc,
            ))),
    {
        let seg = vb.c.seg as int;
        let cell0 = spec_cell_off(vb.c, 0);
        crate::message::lemma_le_at_preserved(mv1, mv2, seg, cell0, 8);
        match crate::layout::spec_list_field(mv1, vb.c, 0) {
            Ok(Option::Some(lc)) => {
                assert(mv2[seg].subrange(cell0, cell0 + 8) =~= mv1[seg].subrange(
                    cell0,
                    cell0 + 8,
                ));
                match crate::pointer::dec_ptr(spec_ptr_word(mv1, vb.c, 0)) {
                    Option::Some(crate::pointer::Pointer::Far { seg: fs, off }) => {
                        assert(8 * off + 8 == lc.off && fs == lc.seg && lc.seg != vb.c.seg);
                        assert(lc.off <= mv1[lc.seg as int].len());
                        assert(mv2[fs as int].subrange(8 * off, 8 * off + 8) =~= mv1[
                            fs as int
                        ].subrange(8 * off, 8 * off + 8));
                    },
                    _ => {},
                }
                assert(match crate::layout::spec_resolve(
                    mv1,
                    vb.c.seg as int,
                    spec_ptr_word(mv1, vb.c, 0),
                ) {
                    Ok((home, crate::pointer::Pointer::List {
                        off,
                        elem: crate::pointer::ElemSize::Composite,
                        count,
                    })) => {
                        8 * off + 8 <= mv1[home].len() ==> mv2[home].subrange(
                            8 * off,
                            8 * off + 8,
                        ) == mv1[home].subrange(8 * off, 8 * off + 8)
                    },
                    _ => true,
                });
                crate::layout::lemma_list_field_preserved(mv1, mv2, vb.c, 0);
                assert forall|j: int|
                    lc.off <= j < lc.off + lc.count implies mv2[lc.seg as int][j] == mv1[
                    lc.seg as int
                ][j] by {
                    assert(j < mv1[lc.seg as int].len());
                }
                assert(mv2[lc.seg as int].subrange(lc.off as int, lc.off + lc.count) =~= mv1[
                    lc.seg as int
                ].subrange(lc.off as int, lc.off + lc.count));
            },
            _ => {},
        }
    }

    /// See `lemma_audio_scalars_preserved`.
    proof fn lemma_video_scalars_preserved(
        self,
        mv1: Seq<Seq<u8>>,
        mv2: Seq<Seq<u8>>,
        vb: crate::video_frame::Builder,
    )
        requires
            scursor_wf(vb.c, mv1),
            vb.c.data_words == 2,
            vb.c.ptr_count == 2,
            grows_except(mv1, mv2, vb.c.seg as int, spec_cell_off(vb.c, 0), 8) || grows_except(
                mv1,
                mv2,
                vb.c.seg as int,
                spec_cell_off(vb.c, 1),
                8,
            ),
        ensures
            vb.spec_reader().spec_width(mv2) == vb.spec_reader().spec_width(mv1),
            vb.spec_reader().spec_height(mv2) == vb.spec_reader().spec_height(mv1),
            vb.spec_reader().spec_pixel_format_raw(mv2) == vb.spec_reader().spec_pixel_format_raw(
                mv1,
            ),
            vb.spec_reader().spec_stream_id(mv2) == vb.spec_reader().spec_stream_id(mv1),
    {
        let seg = vb.c.seg as int;
        crate::message::lemma_le_at_preserved(mv1, mv2, seg, vb.c.data_off as int, 4);
        crate::message::lemma_le_at_preserved(mv1, mv2, seg, vb.c.data_off + 4, 4);
        crate::message::lemma_le_at_preserved(mv1, mv2, seg, vb.c.data_off + 8, 2);
        crate::message::lemma_le_at_preserved(mv1, mv2, seg, vb.c.data_off + 12, 4);
    }

    /// See `lemma_frame_link_audio`.
    proof fn lemma_frame_link_video(
        self,
        mv0: Seq<Seq<u8>>,
        mva: Seq<Seq<u8>>,
        mvf: Seq<Seq<u8>>,
        vb: crate::video_frame::Builder,
    )
        requires
            scursor_wf(vb.c, mva),
            vb.c.data_words == 2,
            vb.c.ptr_count == 2,
            mva.len() <= mvf.len(),
            forall|s: int| 0 <= s < mva.len() ==> mva[s].len() <= (#[trigger] mvf[s]).len(),
            forall|s: int, j: int|
                0 <= s < mva.len() && 0 <= j < mva[s].len() && !(s == vb.c.seg as int
                    && vb.c.data_off <= j < vb.c.data_off + 32) ==> #[trigger] mvf[s][j] == mva[
                    s
                ][j],
            forall|mv2: Seq<Seq<u8>>|
                grows_except(mva, mv2, vb.c.seg as int, vb.c.data_off as int, 32)
                    ==> self.spec_reader().spec_video(mv2) == Ok::<
                    Option<crate::video_frame::Reader>,
                    Error,
                >(Some(vb.spec_reader())) && self.spec_reader().spec_disc(mv2)
                    == VIDEO_DISCRIMINANT,
        ensures
            self.spec_reader().spec_video(mvf) == Ok::<Option<crate::video_frame::Reader>, Error>(
                Some(vb.spec_reader()),
            ),
            self.spec_reader().spec_disc(mvf) == VIDEO_DISCRIMINANT,
    {
        assert(grows_except(mva, mvf, vb.c.seg as int, vb.c.data_off as int, 32));
    }

    /// Whether the frame is the video variant with a present payload.
    pub fn has_video_frame(&self, m: &Message) -> (r: bool)
        requires
            m.wf(),
            self.wf(*m),
        ensures
            r == self.spec_reader().spec_has_video(m@),
    {
        self.as_reader().has_video_frame(m)
    }

    /// The active variant, with builder payloads.
    pub fn which(&self, m: &Message) -> (r: Result<
        Which<
            Result<Option<crate::audio_frame::Builder>, Error>,
            Result<Option<crate::video_frame::Builder>, Error>,
        >,
        Error,
    >)
        requires
            m.wf(),
            self.wf(*m),
        ensures
            self.spec_reader().spec_disc(m@) != AUDIO_DISCRIMINANT && self.spec_reader().spec_disc(
                m@,
            ) != VIDEO_DISCRIMINANT ==> (r matches Err(e) && e == Error::NotInSchema(
                self.spec_reader().spec_disc(m@),
            )),
            self.spec_reader().spec_disc(m@) == AUDIO_DISCRIMINANT ==> (r matches Ok(
                Which::AudioFrame(p),
            ) && p == self.spec_audio_builder(m@)),
            self.spec_reader().spec_disc(m@) == VIDEO_DISCRIMINANT ==> (r matches Ok(
                Which::VideoFrame(p),
            ) && p == self.spec_video_builder(m@)),
    {
        let disc = get_u16(m, self.c, 0);
        if disc == AUDIO_DISCRIMINANT {
            let payload = match get_struct_field(m, self.c, 0) {
                Err(e) => Err(e),
                Ok(None) => Ok(None),
                Ok(Some(sc)) => {
                    if sc.data_words == crate::audio_frame::DATA_WORDS as usize && sc.ptr_count
                        == crate::audio_frame::PTR_COUNT as usize {
                        Ok(Some(crate::audio_frame::Builder { c: sc }))
                    } else {
                        Ok(None)
                    }
                },
            };
            Ok(Which::AudioFrame(payload))
        } else if disc == VIDEO_DISCRIMINANT {
            let payload = match get_struct_field(m, self.c, 0) {
                Err(e) => Err(e),
                Ok(None) => Ok(None),
                Ok(Some(sc)) => {
                    if sc.data_words == crate::video_frame::DATA_WORDS as usize && sc.ptr_count
                        == crate::video_frame::PTR_COUNT as usize {
                        Ok(Some(crate::video_frame::Builder { c: sc }))
                    } else {
                        Ok(None)
                    }
                },
            };
            Ok(Which::VideoFrame(payload))
        } else {
            Err(Error::NotInSchema(disc))
        }
    }
}

/// Start a fresh `frame` as the root object of `m`.
pub fn build_root(m: &mut Message) -> (r: Builder)
    requires
        old(m).wf(),
        8 <= old(m)@[0].len(),
        old(m)@.len() < MAX_SEGMENTS,
    ensures
        final(m).wf(),
        r.wf(*final(m)),
        spec_root_field(final(m)@) == Ok::<Option<StructCursor>, Error>(Some(r.c)),
{
    let c = init_root(m, DATA_WORDS, PTR_COUNT);
    Builder { c }
}

/// The message's root object read as a `frame`.
pub fn read_root(m: &Message) -> (r: Result<Option<Reader>, Error>)
    requires
        m.wf(),
    ensures
        r matches Ok(Some(rd)) ==> rd.wf(*m) && spec_root_field(m@) == Ok::<
            Option<StructCursor>,
            Error,
        >(Some(rd.c)),
        r matches Ok(None) ==> spec_root_field(m@) matches Ok(o) && o is None,
        r matches Err(e) ==> spec_root_field(m@) == Err::<Option<StructCursor>, Error>(e),
{
    match get_root(m) {
        Ok(Some(c)) => Ok(Some(Reader { c })),
        Ok(None) => Ok(None),
        Err(e) => Err(e),
    }
}


/// A typed handle on the not-yet-arrived answer of question
/// `question`, whose root will be a value of this module's type:
/// further calls can be pipelined on it without waiting.
pub struct Pipeline {
    pub question: u32,
    pub path: Vec<u16>,
}

impl Pipeline {
    /// The pipeline for a whole answer of this type.
    pub fn new(question: u32) -> (r: Pipeline)
        ensures
            r.question == question,
            r.path@ == Seq::<u16>::empty(),
    {
        Pipeline { question, path: Vec::new() }
    }
}

} // verus!
