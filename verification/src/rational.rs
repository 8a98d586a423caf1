//! Accessors for the `rational` schema type: one data word holding a
//! numerator and a denominator, no pointers.  Used as the presentation
//! timestamp of a frame.

use vstd::prelude::*;
use crate::error::Error;
use crate::layout::{
    get_root, get_u32, init_root, scursor_wf, set_u32, spec_get_u32, spec_root_field, spec_struct_field,
    StructCursor,
};
use crate::message::{update_bytes, Message, MAX_SEGMENTS};
use crate::traverse::{spec_total_size, MessageSize, DEFAULT_TRAVERSAL_WORDS};

verus! {

/// Data words of the type's layout.
pub const DATA_WORDS: u16 = 1;

/// Pointer slots of the type's layout.
pub const PTR_COUNT: u16 = 0;

/// Marker for the schema type.
#[derive(Clone, Copy)]
pub struct Owned;

/// Read-only accessor for one stored `rational` value.
#[derive(Clone, Copy, Debug)]
pub struct Reader {
    pub c: StructCursor,
}

/// Mutable accessor for one stored `rational` value.
#[derive(Clone, Copy, Debug)]
pub struct Builder {
    pub c: StructCursor,
}

impl Reader {
    /// The accessor addresses a real struct inside `m`.
    pub open spec fn wf(self, m: Message) -> bool {
        scursor_wf(self.c, m@)
    }

    /// The cursor this accessor wraps.
    pub open spec fn cursor(self) -> StructCursor {
        self.c
    }

    /// The stored numerator.
    pub open spec fn spec_num(self, mv: Seq<Seq<u8>>) -> u32 {
        spec_get_u32(mv, self.c, 0)
    }

    /// The stored denominator.
    pub open spec fn spec_den(self, mv: Seq<Seq<u8>>) -> u32 {
        spec_get_u32(mv, self.c, 1)
    }

    /// A copy of this accessor.
    pub fn reborrow(&self) -> (r: Reader)
        ensures
            r == *self,
    {
        Reader { c: self.c }
    }

    /// Words reachable from this value, under the default budget.
    pub fn total_size(&self, m: &Message) -> (r: Result<MessageSize, Error>)
        requires
            m.wf(),
            self.wf(*m),
        ensures
            r == spec_total_size(m@, self.c, DEFAULT_TRAVERSAL_WORDS),
    {
        crate::traverse::total_size(m, self.c, DEFAULT_TRAVERSAL_WORDS)
    }

    /// Read the numerator.
    pub fn get_num(&self, m: &Message) -> (r: u32)
        requires
            m.wf(),
            self.wf(*m),
        ensures
            r == self.spec_num(m@),
    {
        get_u32(m, self.c, 0)
    }

    /// Read the denominator.
    pub fn get_den(&self, m: &Message) -> (r: u32)
        requires
            m.wf(),
            self.wf(*m),
        ensures
            r == self.spec_den(m@),
    {
        get_u32(m, self.c, 1)
    }
}

impl Builder {
    /// The accessor addresses a real struct of this layout inside `m`.
    pub open spec fn wf(self, m: Message) -> bool {
        &&& scursor_wf(self.c, m@)
        &&& self.c.data_words == DATA_WORDS
        &&& self.c.ptr_count == PTR_COUNT
    }

    /// The cursor this accessor wraps.
    pub open spec fn cursor(self) -> StructCursor {
        self.c
    }

    /// The builder seen read-only.
    pub open spec fn spec_reader(self) -> Reader {
        Reader { c: self.c }
    }

    /// The read-only view of this builder.
    pub fn as_reader(&self) -> (r: Reader)
        ensures
            r == self.spec_reader(),
    {
        Reader { c: self.c }
    }

    /// Consume the builder into its read-only view.
    pub fn into_reader(self) -> (r: Reader)
        ensures
            r == self.spec_reader(),
    {
        Reader { c: self.c }
    }

    /// A copy of this accessor.
    pub fn reborrow(&self) -> (r: Builder)
        ensures
            r == *self,
    {
        Builder { c: self.c }
    }

    /// The read-only view, without consuming the builder.
    pub fn reborrow_as_reader(&self) -> (r: Reader)
        ensures
            r == self.spec_reader(),
    {
        Reader { c: self.c }
    }

    /// Words reachable from this value, under the default budget.
    pub fn total_size(&self, m: &Message) -> (r: Result<MessageSize, Error>)
        requires
            m.wf(),
            self.wf(*m),
        ensures
            r == spec_total_size(m@, self.c, DEFAULT_TRAVERSAL_WORDS),
    {
        crate::traverse::total_size(m, self.c, DEFAULT_TRAVERSAL_WORDS)
    }

    /// Read the numerator.
    pub fn get_num(&self, m: &Message) -> (r: u32)
        requires
            m.wf(),
            self.wf(*m),
        ensures
            r == self.spec_reader().spec_num(m@),
    {
        get_u32(m, self.c, 0)
    }

    /// Write the numerator; the denominator and everything else is
    /// untouched.
    pub fn set_num(&self, m: &mut Message, value: u32)
        requires
            old(m).wf(),
            self.wf(*old(m)),
        ensures
            final(m).wf(),
            self.wf(*final(m)),
            self.spec_reader().spec_num(final(m)@) == value,
            self.spec_reader().spec_den(final(m)@) == self.spec_reader().spec_den(old(m)@),
            final(m)@ == old(m)@.update(
                self.c.seg as int,
                update_bytes(
                    old(m)@[self.c.seg as int],
                    self.c.data_off as int,
                    crate::message::spec_u32_bytes(value),
                ),
            ),
    {
        set_u32(m, self.c, 0, value);
        proof {
            crate::message::lemma_u32_bytes_roundtrip(value);
            crate::message::lemma_update_bytes_disjoint(
                old(m)@[self.c.seg as int],
                self.c.data_off as int,
                crate::message::spec_u32_bytes(value),
                self.c.data_off + 4,
                self.c.data_off + 8,
            );
        }
    }

    /// Read the denominator.
    pub fn get_den(&self, m: &Message) -> (r: u32)
        requires
            m.wf(),
            self.wf(*m),
        ensures
            r == self.spec_reader().spec_den(m@),
    {
        get_u32(m, self.c, 1)
    }

    /// Write the denominator; the numerator and everything else is
    /// untouched.
    pub fn set_den(&self, m: &mut Message, value: u32)
        requires
            old(m).wf(),
            self.wf(*old(m)),
        ensures
            final(m).wf(),
            self.wf(*final(m)),
            self.spec_reader().spec_den(final(m)@) == value,
            self.spec_reader().spec_num(final(m)@) == self.spec_reader().spec_num(old(m)@),
            final(m)@ == old(m)@.update(
                self.c.seg as int,
                update_bytes(
                    old(m)@[self.c.seg as int],
                    self.c.data_off + 4,
                    crate::message::spec_u32_bytes(value),
                ),
            ),
    {
        set_u32(m, self.c, 1, value);
        proof {
            crate::message::lemma_u32_bytes_roundtrip(value);
            crate::message::lemma_update_bytes_disjoint(
                old(m)@[self.c.seg as int],
                self.c.data_off + 4,
                crate::message::spec_u32_bytes(value),
                self.c.data_off as int,
                self.c.data_off + 4,
            );
        }
    }
}

/// Start a fresh `rational` as the root object of `m`.
pub fn build_root(m: &mut Message) -> (r: Builder)
    requires
        old(m).wf(),
        8 <= old(m)@[0].len(),
        old(m)@.len() < MAX_SEGMENTS,
    ensures
        final(m).wf(),
        r.wf(*final(m)),
        spec_root_field(final(m)@) == Ok::<Option<StructCursor>, Error>(Some(r.c)),
        r.spec_reader().spec_num(final(m)@) == 0,
        r.spec_reader().spec_den(final(m)@) == 0,
{
    let c = init_root(m, DATA_WORDS, PTR_COUNT);
    proof {
        let mvf = m@;
        crate::message::lemma_le_zero(
            mvf[c.seg as int].subrange(c.data_off as int, c.data_off + 4),
        );
        crate::message::lemma_le_zero(
            mvf[c.seg as int].subrange(c.data_off + 4, c.data_off + 8),
        );
    }
    Builder { c }
}

/// The message's root object read as a `rational`.
pub fn read_root(m: &Message) -> (r: Result<Option<Reader>, Error>)
    requires
        m.wf(),
    ensures
        r matches Ok(Some(rd)) ==> rd.wf(*m) && spec_root_field(m@) == Ok::<
            Option<StructCursor>,
            Error,
        >(Some(rd.c)),
        r matches Ok(None) ==> spec_root_field(m@) matches Ok(o) && o is None,
        r matches Err(e) ==> spec_root_field(m@) == Err::<Option<StructCursor>, Error>(e),
{
    match get_root(m) {
        Ok(Some(c)) => Ok(Some(Reader { c })),
        Ok(None) => Ok(None),
        Err(e) => Err(e),
    }
}


/// A typed handle on the not-yet-arrived answer of question
/// `question`, whose root will be a value of this module's type:
/// further calls can be pipelined on it without waiting.
pub struct Pipeline {
    pub question: u32,
    pub path: Vec<u16>,
}

impl Pipeline {
    /// The pipeline for a whole answer of this type.
    pub fn new(question: u32) -> (r: Pipeline)
        ensures
            r.question == question,
            r.path@ == Seq::<u16>::empty(),
    {
        Pipeline { question, path: Vec::new() }
    }
}

} // verus!
