//! Budgeted traversal of an object graph.
//!
//! The size of everything reachable from a struct, in words, computed
//! under a word budget: every visited object is charged against the
//! budget before it is entered, so a hostile message whose pointers form
//! a cycle or blow up combinatorially stops with
//! `TraversalLimitExceeded` after bounded work instead of running
//! forever.

use vstd::prelude::*;
use crate::error::Error;
use crate::layout::{
    get_list_field, get_ptr_word, get_struct_field, lcursor_wf, list_struct_at, resolve_ptr,
    scursor_wf, spec_list_elem_cursor, spec_list_field, spec_ptr_word, spec_resolve,
    spec_struct_field, ListCursor, StructCursor,
};
use crate::message::Message;
use crate::pointer::{ElemSize, Pointer};

verus! {

/// Default traversal budget in words, matching common practice for
/// untrusted messages.
pub const DEFAULT_TRAVERSAL_WORDS: u64 = 0x0080_0000;

/// Total words and capability pointers found by a completed traversal.
#[derive(Clone, Copy, Debug, PartialEq, Eq, Structural)]
pub struct MessageSize {
    /// Words occupied by the traversed objects.
    pub word_count: u64,
    /// Capability pointers encountered.
    pub cap_count: u64,
}

/// Walk the struct under `c`: charge its footprint — its data words
/// plus its pointer cells, exactly the words it occupies — then follow
/// its pointer slots.  Returns the remaining budget and the updated
/// capability count, or an error.
pub open spec fn spec_walk_struct(
    mv: Seq<Seq<u8>>,
    c: StructCursor,
    budget: u64,
    caps: u64,
) -> Result<(u64, u64), Error>
    decreases budget, 0int, 0int,
{
    let charge = c.data_words + c.ptr_count;
    if budget < charge {
        Err(Error::TraversalLimitExceeded)
    } else if c.ptr_count == 0 {
        Ok(((budget - charge) as u64, caps))
    } else {
        spec_walk_slots(mv, c, c.ptr_count as int, (budget - charge) as u64, caps)
    }
}

/// Walk the first `i` pointer slots of `c`.
pub open spec fn spec_walk_slots(
    mv: Seq<Seq<u8>>,
    c: StructCursor,
    i: int,
    budget: u64,
    caps: u64,
) -> Result<(u64, u64), Error>
    decreases budget, 2int, i,
{
    if i <= 0 {
        Ok((budget, caps))
    } else {
        match spec_walk_slot(mv, c, i - 1, budget, caps) {
            Err(e) => Err(e),
            Ok((b2, k2)) => {
                if b2 <= budget {
                    spec_walk_slots(mv, c, i - 1, b2, k2)
                } else {
                    Err(Error::TraversalLimitExceeded)
                }
            },
        }
    }
}

/// Walk whatever pointer slot `i` of `c` references.
pub open spec fn spec_walk_slot(
    mv: Seq<Seq<u8>>,
    c: StructCursor,
    i: int,
    budget: u64,
    caps: u64,
) -> Result<(u64, u64), Error>
    decreases budget, 1int, 0int,
{
    let v = spec_ptr_word(mv, c, i);
    if v == 0 {
        Ok((budget, caps))
    } else {
        match spec_resolve(mv, c.seg as int, v) {
            Err(e) => Err(e),
            Ok((home, p)) => match p {
                Pointer::Null => Ok((budget, caps)),
                Pointer::Struct { .. } => match spec_struct_field(mv, c, i) {
                    Err(e) => Err(e),
                    Ok(Option::None) => Ok((budget, caps)),
                    Ok(Option::Some(sc)) => spec_walk_struct(mv, sc, budget, caps),
                },
                Pointer::List { .. } => match spec_list_field(mv, c, i) {
                    Err(e) => Err(e),
                    Ok(Option::None) => Ok((budget, caps)),
                    Ok(Option::Some(lc)) => {
                        if lc.elem is Composite {
                            if budget < 1 {
                                Err(Error::TraversalLimitExceeded)
                            } else {
                                spec_walk_elems(mv, lc, lc.count as int, (budget - 1) as u64, caps)
                            }
                        } else {
                            let words = (lc.count * spec_elem_bytes_of(lc.elem) + 7) / 8;
                            if budget < words {
                                Err(Error::TraversalLimitExceeded)
                            } else {
                                Ok(((budget - words) as u64, caps))
                            }
                        }
                    },
                },
                Pointer::Far { .. } => Err(Error::SchemaMismatch),
                Pointer::Cap { .. } => {
                    if budget < 1 || caps == u64::MAX {
                        Err(Error::TraversalLimitExceeded)
                    } else {
                        Ok(((budget - 1) as u64, (caps + 1) as u64))
                    }
                },
            },
        }
    }
}

/// Walk the first `k` elements of a composite list.
pub open spec fn spec_walk_elems(
    mv: Seq<Seq<u8>>,
    lc: ListCursor,
    k: int,
    budget: u64,
    caps: u64,
) -> Result<(u64, u64), Error>
    decreases budget, 3int, k,
{
    if k <= 0 {
        Ok((budget, caps))
    } else {
        match spec_walk_struct(mv, spec_list_elem_cursor(lc, k - 1), budget, caps) {
            Err(e) => Err(e),
            Ok((b2, k2)) => {
                if b2 <= budget {
                    spec_walk_elems(mv, lc, k - 1, b2, k2)
                } else {
                    Err(Error::TraversalLimitExceeded)
                }
            },
        }
    }
}

/// Bytes per element, as an `int` helper for the word charge.
pub open spec fn spec_elem_bytes_of(e: ElemSize) -> int {
    crate::pointer::spec_elem_bytes(e)
}

/// The words reachable from `c` under `budget`; see `spec_walk_struct`.
pub open spec fn spec_total_size(mv: Seq<Seq<u8>>, c: StructCursor, budget: u64) -> Result<
    MessageSize,
    Error,
> {
    match spec_walk_struct(mv, c, budget, 0) {
        Err(e) => Err(e),
        Ok((left, caps)) => Ok(
            MessageSize { word_count: (budget - left) as u64, cap_count: caps },
        ),
    }
}

/// Exec mirror of `spec_walk_struct`.
fn walk_struct(m: &Message, c: StructCursor, budget: u64, caps: u64) -> (r: Result<
    (u64, u64),
    Error,
>)
    requires
        m.wf(),
        scursor_wf(c, m@),
    ensures
        r == spec_walk_struct(m@, c, budget, caps),
    decreases budget, 0int, 0int,
{
    let charge = (c.data_words as u64) + (c.ptr_count as u64);
    if budget < charge {
        Err(Error::TraversalLimitExceeded)
    } else if c.ptr_count == 0 {
        Ok((budget - charge, caps))
    } else {
        walk_slots(m, c, c.ptr_count, budget - charge, caps)
    }
}

/// Exec mirror of `spec_walk_slots`.
fn walk_slots(m: &Message, c: StructCursor, i: usize, budget: u64, caps: u64) -> (r: Result<
    (u64, u64),
    Error,
>)
    requires
        m.wf(),
        scursor_wf(c, m@),
        i <= c.ptr_count,
    ensures
        r == spec_walk_slots(m@, c, i as int, budget, caps),
    decreases budget, 2int, i as int,
{
    if i == 0 {
        Ok((budget, caps))
    } else {
        match walk_slot(m, c, i - 1, budget, caps) {
            Err(e) => Err(e),
            Ok((b2, k2)) => {
                if b2 <= budget {
                    walk_slots(m, c, i - 1, b2, k2)
                } else {
                    Err(Error::TraversalLimitExceeded)
                }
            },
        }
    }
}

/// Exec mirror of `spec_walk_slot`.
fn walk_slot(m: &Message, c: StructCursor, i: usize, budget: u64, caps: u64) -> (r: Result<
    (u64, u64),
    Error,
>)
    requires
        m.wf(),
        scursor_wf(c, m@),
        i < c.ptr_count,
    ensures
        r == spec_walk_slot(m@, c, i as int, budget, caps),
    decreases budget, 1int, 0int,
{
    let v = get_ptr_word(m, c, i);
    if v == 0 {
        return Ok((budget, caps));
    }
    let (home, p) = match resolve_ptr(m, c.seg, v) {
        Ok(hp) => hp,
        Err(e) => {
            return Err(e);
        },
    };
    match p {
        Pointer::Null => Ok((budget, caps)),
        Pointer::Struct { .. } => match get_struct_field(m, c, i) {
            Err(e) => Err(e),
            Ok(None) => Ok((budget, caps)),
            Ok(Some(sc)) => walk_struct(m, sc, budget, caps),
        },
        Pointer::List { .. } => match get_list_field(m, c, i) {
            Err(e) => Err(e),
            Ok(None) => Ok((budget, caps)),
            Ok(Some(lc)) => match lc.elem {
                ElemSize::Composite => {
                    if budget < 1 {
                        Err(Error::TraversalLimitExceeded)
                    } else {
                        walk_elems(m, lc, lc.count, budget - 1, caps)
                    }
                },
                _ => {
                    let eb = crate::pointer::elem_bytes(lc.elem);
                    proof {
                        assert((lc.count as u64) * (eb as u64) < 0x8000_0000_0000_0000u64)
                            by (nonlinear_arith)
                            requires
                                (lc.count as u64) <= 0x1FFF_FFFFu64,
                                (eb as u64) <= 8,
                        ;
                    }
                    let words = ((lc.count as u64) * (eb as u64) + 7) / 8;
                    if budget < words {
                        Err(Error::TraversalLimitExceeded)
                    } else {
                        Ok((budget - words, caps))
                    }
                },
            },
        },
        Pointer::Far { .. } => Err(Error::SchemaMismatch),
        Pointer::Cap { .. } => {
            if budget < 1 || caps == u64::MAX {
                Err(Error::TraversalLimitExceeded)
            } else {
                Ok((budget - 1, caps + 1))
            }
        },
    }
}

/// Exec mirror of `spec_walk_elems`.
fn walk_elems(m: &Message, lc: ListCursor, k: usize, budget: u64, caps: u64) -> (r: Result<
    (u64, u64),
    Error,
>)
    requires
        m.wf(),
        lcursor_wf(lc, m@),
        lc.elem is Composite,
        k <= lc.count,
    ensures
        r == spec_walk_elems(m@, lc, k as int, budget, caps),
    decreases budget, 3int, k as int,
{
    if k == 0 {
        Ok((budget, caps))
    } else {
        let sc = list_struct_at(m, lc, k - 1);
        match walk_struct(m, sc, budget, caps) {
            Err(e) => Err(e),
            Ok((b2, k2)) => {
                if b2 <= budget {
                    walk_elems(m, lc, k - 1, b2, k2)
                } else {
                    Err(Error::TraversalLimitExceeded)
                }
            },
        }
    }
}


/// A traversal never returns more budget than it was given.
pub proof fn lemma_walk_struct_budget(mv: Seq<Seq<u8>>, c: StructCursor, budget: u64, caps: u64)
    ensures
        spec_walk_struct(mv, c, budget, caps) matches Ok(p) ==> p.0 <= budget,
    decreases budget, 0int, 0int,
{
    let charge = c.data_words + c.ptr_count;
    if budget >= charge && c.ptr_count > 0 {
        lemma_walk_slots_budget(mv, c, c.ptr_count as int, (budget - charge) as u64, caps);
    }
}

/// See `lemma_walk_struct_budget`.
pub proof fn lemma_walk_slots_budget(
    mv: Seq<Seq<u8>>,
    c: StructCursor,
    i: int,
    budget: u64,
    caps: u64,
)
    ensures
        spec_walk_slots(mv, c, i, budget, caps) matches Ok(p) ==> p.0 <= budget,
    decreases budget, 2int, i,
{
    if i > 0 {
        lemma_walk_slot_budget(mv, c, i - 1, budget, caps);
        match spec_walk_slot(mv, c, i - 1, budget, caps) {
            Ok((b2, k2)) => {
                if b2 <= budget {
                    lemma_walk_slots_budget(mv, c, i - 1, b2, k2);
                }
            },
            Err(_) => {},
        }
    }
}

/// See `lemma_walk_struct_budget`.
pub proof fn lemma_walk_slot_budget(
    mv: Seq<Seq<u8>>,
    c: StructCursor,
    i: int,
    budget: u64,
    caps: u64,
)
    ensures
        spec_walk_slot(mv, c, i, budget, caps) matches Ok(p) ==> p.0 <= budget,
    decreases budget, 1int, 0int,
{
    let v = spec_ptr_word(mv, c, i);
    if v != 0 {
        match spec_resolve(mv, c.seg as int, v) {
            Ok((home, p)) => match p {
                Pointer::Struct { .. } => match spec_struct_field(mv, c, i) {
                    Ok(Option::Some(sc)) => {
                        lemma_walk_struct_budget(mv, sc, budget, caps);
                    },
                    _ => {},
                },
                Pointer::List { .. } => match spec_list_field(mv, c, i) {
                    Ok(Option::Some(lc)) => {
                        if lc.elem is Composite {
                            if budget >= 1 {
                                lemma_walk_elems_budget(
                                    mv,
                                    lc,
                                    lc.count as int,
                                    (budget - 1) as u64,
                                    caps,
                                );
                            }
                        }
                    },
                    _ => {},
                },
                _ => {},
            },
            Err(_) => {},
        }
    }
}

/// See `lemma_walk_struct_budget`.
pub proof fn lemma_walk_elems_budget(
    mv: Seq<Seq<u8>>,
    lc: ListCursor,
    k: int,
    budget: u64,
    caps: u64,
)
    ensures
        spec_walk_elems(mv, lc, k, budget, caps) matches Ok(p) ==> p.0 <= budget,
    decreases budget, 3int, k,
{
    if k > 0 {
        lemma_walk_struct_budget(mv, spec_list_elem_cursor(lc, k - 1), budget, caps);
        match spec_walk_struct(mv, spec_list_elem_cursor(lc, k - 1), budget, caps) {
            Ok((b2, k2)) => {
                if b2 <= budget {
                    lemma_walk_elems_budget(mv, lc, k - 1, b2, k2);
                }
            },
            Err(_) => {},
        }
    }
}

/// The words and capabilities reachable from `c`, within `budget` words;
/// `TraversalLimitExceeded` when the graph is larger (or cyclic).
pub fn total_size(m: &Message, c: StructCursor, budget: u64) -> (r: Result<MessageSize, Error>)
    requires
        m.wf(),
        scursor_wf(c, m@),
    ensures
        r == spec_total_size(m@, c, budget),
    {
    proof {
        lemma_walk_struct_budget(m@, c, budget, 0);
    }
    match walk_struct(m, c, budget, 0) {
        Err(e) => Err(e),
        Ok((left, caps)) => Ok(MessageSize { word_count: budget - left, cap_count: caps }),
    }
}

} // verus!
