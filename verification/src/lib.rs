//! A zero-copy, schema-driven binary serialization format with an
//! accompanying capability-based RPC protocol.
//!
//! A message is a sequence of word-aligned segments; structured values live
//! inside the segments and refer to one another through tagged 8-byte
//! pointer cells.  The `message` module owns the segment buffers, `ptr`
//! defines the pointer cells, `layout` is the structured codec that reads
//! and writes typed fields, `wire` frames a whole message for a byte
//! stream, and `rpc` is the promise-pipelined call bookkeeping.  The
//! schema-facing accessor surface (readers and builders for the frame
//! types) sits on top of the codec in the remaining modules, and
//! `envelope` carries the protocol messages themselves through the
//! codec, so that every message on the stream is one framed message.

use vstd::prelude::*;

pub mod error;
pub mod message;
pub mod pointer;
pub mod layout;
pub mod traverse;
pub mod rational;
pub mod audio_frame;
pub mod video_frame;
pub mod frame;
pub mod frames;
pub mod wire;
pub mod rpc;
pub mod envelope;

verus! {

/// Round trip: decoding an encoded message reproduces the very same
/// segment view, so every accessor — a data field at any width, a
/// pointer cell, a resolved struct or list, the root — reads the same
/// value from the decoded message as from the original.
pub proof fn lemma_round_trip_preserves_accessors(
    m: message::Message,
    budget: u64,
    c: layout::StructCursor,
    idx: int,
    i: int,
)
    requires
        m.wf(),
        wire::spec_total_words(m@) <= budget,
    ensures
        wire::spec_decode(wire::spec_encode(m@), budget) == Ok::<Seq<Seq<u8>>, error::Error>(m@),
        (wire::spec_decode(wire::spec_encode(m@), budget) matches Ok(mv2) && {
            &&& layout::spec_get_u8(mv2, c, idx) == layout::spec_get_u8(m@, c, idx)
            &&& layout::spec_get_u16(mv2, c, idx) == layout::spec_get_u16(m@, c, idx)
            &&& layout::spec_get_u32(mv2, c, idx) == layout::spec_get_u32(m@, c, idx)
            &&& layout::spec_get_u64(mv2, c, idx) == layout::spec_get_u64(m@, c, idx)
            &&& layout::spec_ptr_word(mv2, c, i) == layout::spec_ptr_word(m@, c, i)
            &&& layout::spec_struct_field(mv2, c, i) == layout::spec_struct_field(m@, c, i)
            &&& layout::spec_list_field(mv2, c, i) == layout::spec_list_field(m@, c, i)
            &&& layout::spec_root_field(mv2) == layout::spec_root_field(m@)
        }),
{
    wire::lemma_encode_decode_roundtrip(m@, budget);
}

} // verus!
