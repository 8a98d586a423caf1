//! Byte encoding of RPC messages.
//!
//! Every protocol message crosses the stream as a framed message of the
//! codec itself: a small envelope struct at the root holds the message
//! kind, the ids and the method, and two pointer slots carry the
//! variable parts — the promise path of a pipelined call, and the
//! capability list of an answer — as byte lists.  Decoding an encoded
//! envelope gives back the very message.

use vstd::prelude::*;
use crate::error::Error;
use crate::layout::{
    get_list_field, get_root, get_u16, get_u32, grows_except, init_byte_list_field, init_root,
    list_write_bytes, list_read_bytes, set_u16, set_u32, spec_cell_off, spec_get_u16, spec_get_u32,
    spec_list_bytes, spec_list_field, spec_root_field, StructCursor,
};
use crate::message::Message;
use crate::rpc::{CapRef, Outcome, RpcMessage};

verus! {

/// Data words of the envelope struct.
pub const ENV_DATA_WORDS: u16 = 3;

/// Pointer slots of the envelope struct.
pub const ENV_PTR_COUNT: u16 = 2;

/// The spec-level value of a call target.
pub enum CapRefView {
    Imported { index: u32 },
    Promised { question: u32, path: Seq<u16> },
}

/// The spec-level value of an outcome.
pub enum OutcomeView {
    Results { caps: Seq<u32> },
    Exception { code: u32 },
    Canceled,
}

/// The spec-level value of a protocol message.
pub enum RpcMessageView {
    Call { question: u32, target: CapRefView, method: u16 },
    Return { question: u32, outcome: OutcomeView },
    Finish { question: u32 },
    Resolve { promise: u32, cap: u32 },
    Release { index: u32, count: u32 },
    Disembargo { context: u32 },
    Abort { code: u32 },
}

/// The value a target stands for.
pub open spec fn view_of_target(t: CapRef) -> CapRefView {
    match t {
        CapRef::Imported { index } => CapRefView::Imported { index },
        CapRef::Promised { question, path } => CapRefView::Promised { question, path: path@ },
    }
}

/// The value an outcome stands for.
pub open spec fn view_of_outcome(o: Outcome) -> OutcomeView {
    match o {
        Outcome::Results { caps } => OutcomeView::Results { caps: caps@ },
        Outcome::Exception { code } => OutcomeView::Exception { code },
        Outcome::Canceled => OutcomeView::Canceled,
    }
}

/// The value a protocol message stands for.
pub open spec fn view_of_message(m: RpcMessage) -> RpcMessageView {
    match m {
        RpcMessage::Call { question, target, method } => RpcMessageView::Call {
            question,
            target: view_of_target(target),
            method,
        },
        RpcMessage::Return { question, outcome } => RpcMessageView::Return {
            question,
            outcome: view_of_outcome(outcome),
        },
        RpcMessage::Finish { question } => RpcMessageView::Finish { question },
        RpcMessage::Resolve { promise, cap } => RpcMessageView::Resolve { promise, cap },
        RpcMessage::Release { index, count } => RpcMessageView::Release { index, count },
        RpcMessage::Disembargo { context } => RpcMessageView::Disembargo { context },
        RpcMessage::Abort { code } => RpcMessageView::Abort { code },
    }
}

/// 16-bit values flattened to little-endian byte pairs.
pub open spec fn spec_u16s_bytes(p: Seq<u16>) -> Seq<u8> {
    Seq::new(
        2 * p.len(),
        |j: int|
            if j % 2 == 0 {
                ((p[j / 2] as int) % 0x100) as u8
            } else {
                ((p[j / 2] as int) / 0x100) as u8
            },
    )
}

/// Little-endian byte pairs read back as 16-bit values.
pub open spec fn spec_bytes_u16s(b: Seq<u8>) -> Seq<u16> {
    Seq::new((b.len() / 2) as nat, |i: int| ((b[2 * i] as int) + 0x100 * (b[2 * i + 1] as int)) as u16)
}

/// 32-bit values flattened to little-endian byte quadruples.
pub open spec fn spec_u32s_bytes(p: Seq<u32>) -> Seq<u8> {
    Seq::new(
        4 * p.len(),
        |j: int|
            if j % 4 == 0 {
                ((p[j / 4] as int) % 0x100) as u8
            } else if j % 4 == 1 {
                ((p[j / 4] as int) / 0x100 % 0x100) as u8
            } else if j % 4 == 2 {
                ((p[j / 4] as int) / 0x1_0000 % 0x100) as u8
            } else {
                ((p[j / 4] as int) / 0x100_0000) as u8
            },
    )
}

/// Little-endian byte quadruples read back as 32-bit values.
pub open spec fn spec_bytes_u32s(b: Seq<u8>) -> Seq<u32> {
    Seq::new(
        (b.len() / 4) as nat,
        |i: int|
            ((b[4 * i] as int) + 0x100 * (b[4 * i + 1] as int) + 0x1_0000 * (b[4 * i + 2] as int)
                + 0x100_0000 * (b[4 * i + 3] as int)) as u32,
    )
}

/// Flattening and reading back 16-bit values is the identity.
pub proof fn lemma_u16s_roundtrip(p: Seq<u16>)
    ensures
        spec_u16s_bytes(p).len() == 2 * p.len(),
        spec_bytes_u16s(spec_u16s_bytes(p)) == p,
{
    let b = spec_u16s_bytes(p);
    assert forall|i: int| 0 <= i < p.len() implies spec_bytes_u16s(b)[i] == p[i] by {
        vstd::arithmetic::div_mod::lemma_fundamental_div_mod(p[i] as int, 0x100);
    }
    assert(spec_bytes_u16s(b) =~= p);
}

/// Flattening and reading back 32-bit values is the identity.
pub proof fn lemma_u32s_roundtrip(p: Seq<u32>)
    ensures
        spec_u32s_bytes(p).len() == 4 * p.len(),
        spec_bytes_u32s(spec_u32s_bytes(p)) == p,
{
    let b = spec_u32s_bytes(p);
    assert forall|i: int| 0 <= i < p.len() implies spec_bytes_u32s(b)[i] == p[i] by {
        assert(b[4 * i] == ((p[i] as int) % 0x100) as u8);
        assert(b[4 * i + 1] == ((p[i] as int) / 0x100 % 0x100) as u8);
        assert(b[4 * i + 2] == ((p[i] as int) / 0x1_0000 % 0x100) as u8);
        assert(b[4 * i + 3] == ((p[i] as int) / 0x100_0000) as u8);
        crate::message::lemma_u32_le_identity(p[i]);
    }
    assert(spec_bytes_u32s(b) =~= p);
}

/// The decoded form of an envelope message; see the module
/// documentation for the layout.
pub open spec fn spec_envelope(mv: Seq<Seq<u8>>) -> Result<RpcMessageView, Error> {
    match spec_root_field(mv) {
        Err(e) => Err(e),
        Ok(Option::None) => Err(Error::SchemaMismatch),
        Ok(Option::Some(c)) => {
            let kind = spec_get_u16(mv, c, 0);
            let tkind = spec_get_u16(mv, c, 1);
            let question = spec_get_u32(mv, c, 1);
            let a = spec_get_u32(mv, c, 2);
            let b = spec_get_u32(mv, c, 3);
            let method = spec_get_u16(mv, c, 8);
            if kind == 0 {
                if tkind == 0 {
                    Ok(
                        RpcMessageView::Call {
                            question,
                            target: CapRefView::Imported { index: a },
                            method,
                        },
                    )
                } else if tkind == 1 {
                    match spec_list_field(mv, c, 0) {
                        Err(e) => Err(e),
                        Ok(Option::None) => Err(Error::SchemaMismatch),
                        Ok(Option::Some(lc)) => if lc.elem is One && lc.count % 2 == 0 {
                            Ok(
                                RpcMessageView::Call {
                                    question,
                                    target: CapRefView::Promised {
                                        question: a,
                                        path: spec_bytes_u16s(spec_list_bytes(mv, lc)),
                                    },
                                    method,
                                },
                            )
                        } else {
                            Err(Error::SchemaMismatch)
                        },
                    }
                } else {
                    Err(Error::SchemaMismatch)
                }
            } else if kind == 1 {
                if tkind == 0 {
                    match spec_list_field(mv, c, 1) {
                        Err(e) => Err(e),
                        Ok(Option::None) => Err(Error::SchemaMismatch),
                        Ok(Option::Some(lc)) => if lc.elem is One && lc.count % 4 == 0 {
                            Ok(
                                RpcMessageView::Return {
                                    question,
                                    outcome: OutcomeView::Results {
                                        caps: spec_bytes_u32s(spec_list_bytes(mv, lc)),
                                    },
                                },
                            )
                        } else {
                            Err(Error::SchemaMismatch)
                        },
                    }
                } else if tkind == 1 {
                    Ok(
                        RpcMessageView::Return {
                            question,
                            outcome: OutcomeView::Exception { code: a },
                        },
                    )
                } else if tkind == 2 {
                    Ok(RpcMessageView::Return { question, outcome: OutcomeView::Canceled })
                } else {
                    Err(Error::SchemaMismatch)
                }
            } else if kind == 2 {
                Ok(RpcMessageView::Finish { question })
            } else if kind == 3 {
                Ok(RpcMessageView::Resolve { promise: a, cap: b })
            } else if kind == 4 {
                Ok(RpcMessageView::Release { index: a, count: b })
            } else if kind == 5 {
                Ok(RpcMessageView::Disembargo { context: a })
            } else if kind == 6 {
                Ok(RpcMessageView::Abort { code: a })
            } else {
                Err(Error::NotInSchema(kind))
            }
        },
    }
}

/// Writes outside a field's byte window keep that field; the window
/// `[wlo, wlo + n)` of segment `c.seg` is the only place old bytes may
/// have changed, and segments only grow.
proof fn lemma_env_scalars(
    c: StructCursor,
    mv1: Seq<Seq<u8>>,
    mv2: Seq<Seq<u8>>,
    wseg: int,
    wlo: int,
    n: int,
)
    requires
        crate::layout::scursor_wf(c, mv1),
        c.data_words == ENV_DATA_WORDS,
        c.ptr_count == ENV_PTR_COUNT,
        mv1.len() <= mv2.len(),
        forall|s: int| 0 <= s < mv1.len() ==> mv1[s].len() <= (#[trigger] mv2[s]).len(),
        forall|s: int, j: int|
            0 <= s < mv1.len() && 0 <= j < mv1[s].len() && !(s == wseg && wlo <= j < wlo + n)
                ==> #[trigger] mv2[s][j] == mv1[s][j],
        0 <= n,
    ensures
        (wseg != c.seg || wlo + n <= c.data_off || wlo >= c.data_off + 2) ==> spec_get_u16(
            mv2,
            c,
            0,
        ) == spec_get_u16(mv1, c, 0),
        (wseg != c.seg || wlo + n <= c.data_off + 2 || wlo >= c.data_off + 4) ==> spec_get_u16(
            mv2,
            c,
            1,
        ) == spec_get_u16(mv1, c, 1),
        (wseg != c.seg || wlo + n <= c.data_off + 4 || wlo >= c.data_off + 8) ==> spec_get_u32(
            mv2,
            c,
            1,
        ) == spec_get_u32(mv1, c, 1),
        (wseg != c.seg || wlo + n <= c.data_off + 8 || wlo >= c.data_off + 12) ==> spec_get_u32(
            mv2,
            c,
            2,
        ) == spec_get_u32(mv1, c, 2),
        (wseg != c.seg || wlo + n <= c.data_off + 12 || wlo >= c.data_off + 16) ==> spec_get_u32(
            mv2,
            c,
            3,
        ) == spec_get_u32(mv1, c, 3),
        (wseg != c.seg || wlo + n <= c.data_off + 16 || wlo >= c.data_off + 18) ==> spec_get_u16(
            mv2,
            c,
            8,
        ) == spec_get_u16(mv1, c, 8),
{
    let seg = c.seg as int;
    if wseg != c.seg || wlo + n <= c.data_off || wlo >= c.data_off + 2 {
        crate::message::lemma_le_at_preserved(mv1, mv2, seg, c.data_off as int, 2);
    }
    if wseg != c.seg || wlo + n <= c.data_off + 2 || wlo >= c.data_off + 4 {
        crate::message::lemma_le_at_preserved(mv1, mv2, seg, c.data_off + 2, 2);
    }
    if wseg != c.seg || wlo + n <= c.data_off + 4 || wlo >= c.data_off + 8 {
        crate::message::lemma_le_at_preserved(mv1, mv2, seg, c.data_off + 4, 4);
    }
    if wseg != c.seg || wlo + n <= c.data_off + 8 || wlo >= c.data_off + 12 {
        crate::message::lemma_le_at_preserved(mv1, mv2, seg, c.data_off + 8, 4);
    }
    if wseg != c.seg || wlo + n <= c.data_off + 12 || wlo >= c.data_off + 16 {
        crate::message::lemma_le_at_preserved(mv1, mv2, seg, c.data_off + 12, 4);
    }
    if wseg != c.seg || wlo + n <= c.data_off + 16 || wlo >= c.data_off + 18 {
        crate::message::lemma_le_at_preserved(mv1, mv2, seg, c.data_off + 16, 2);
    }
}

/// The little-endian byte pairs of a 16-bit vector.
fn u16s_to_bytes(p: &Vec<u16>) -> (r: Vec<u8>)
    ensures
        r@ == spec_u16s_bytes(p@),
{
    let n = p.len();
    let mut r: Vec<u8> = Vec::new();
    let mut k: usize = 0;
    while k < n
        invariant
            k <= n,
            n == p@.len(),
            r@.len() == 2 * k,
            forall|j: int| 0 <= j < 2 * k ==> r@[j] == spec_u16s_bytes(p@)[j],
        decreases n - k,
    {
        let v = p[k];
        r.push((v % 0x100) as u8);
        r.push((v / 0x100) as u8);
        k = k + 1;
    }
    proof {
        assert(r@ =~= spec_u16s_bytes(p@));
    }
    r
}

/// The little-endian byte quadruples of a 32-bit vector.
fn u32s_to_bytes(p: &Vec<u32>) -> (r: Vec<u8>)
    ensures
        r@ == spec_u32s_bytes(p@),
{
    let n = p.len();
    let mut r: Vec<u8> = Vec::new();
    let mut k: usize = 0;
    while k < n
        invariant
            k <= n,
            n == p@.len(),
            r@.len() == 4 * k,
            forall|j: int| 0 <= j < 4 * k ==> r@[j] == spec_u32s_bytes(p@)[j],
        decreases n - k,
    {
        let v = p[k];
        r.push((v % 0x100) as u8);
        r.push(((v / 0x100) % 0x100) as u8);
        r.push(((v / 0x1_0000) % 0x100) as u8);
        r.push((v / 0x100_0000) as u8);
        k = k + 1;
    }
    proof {
        assert(r@ =~= spec_u32s_bytes(p@));
    }
    r
}

/// The 16-bit vector behind little-endian byte pairs.
fn bytes_to_u16s(b: &Vec<u8>) -> (r: Vec<u16>)
    requires
        b@.len() % 2 == 0,
    ensures
        r@ == spec_bytes_u16s(b@),
{
    let bl = b.len();
    let n = bl / 2;
    let mut r: Vec<u16> = Vec::new();
    let mut k: usize = 0;
    while k < n
        invariant
            k <= n,
            bl == b@.len(),
            2 * n == b@.len(),
            r@.len() == k,
            forall|i: int| 0 <= i < k ==> r@[i] == spec_bytes_u16s(b@)[i],
        decreases n - k,
    {
        let lo = b[2 * k];
        let hi = b[2 * k + 1];
        r.push((lo as u16) + (hi as u16) * 0x100);
        k = k + 1;
    }
    proof {
        assert(r@ =~= spec_bytes_u16s(b@));
    }
    r
}

/// The 32-bit vector behind little-endian byte quadruples.
fn bytes_to_u32s(b: &Vec<u8>) -> (r: Vec<u32>)
    requires
        b@.len() % 4 == 0,
    ensures
        r@ == spec_bytes_u32s(b@),
{
    let bl = b.len();
    let n = bl / 4;
    let mut r: Vec<u32> = Vec::new();
    let mut k: usize = 0;
    while k < n
        invariant
            k <= n,
            bl == b@.len(),
            4 * n == b@.len(),
            r@.len() == k,
            forall|i: int| 0 <= i < k ==> r@[i] == spec_bytes_u32s(b@)[i],
        decreases n - k,
    {
        let b0 = b[4 * k];
        let b1 = b[4 * k + 1];
        let b2 = b[4 * k + 2];
        let b3 = b[4 * k + 3];
        r.push((b0 as u32) + (b1 as u32) * 0x100 + (b2 as u32) * 0x1_0000 + (b3 as u32) * 0x100_0000);
        k = k + 1;
    }
    proof {
        assert(r@ =~= spec_bytes_u32s(b@));
    }
    r
}

/// Encode a protocol message as a framed-ready envelope message.
#[verifier::rlimit(100)]
#[verifier::spinoff_prover]
pub fn encode(msg: &RpcMessage) -> (m: Message)
    requires
        (match msg {
            RpcMessage::Call { target: CapRef::Promised { path, .. }, .. } => path@.len()
                <= 0x07FF_FFFF,
            _ => true,
        }),
        (match msg {
            RpcMessage::Return { outcome: Outcome::Results { caps }, .. } => caps@.len()
                <= 0x03FF_FFFF,
            _ => true,
        }),
    ensures
        m.wf(),
        spec_envelope(m@) == Ok::<RpcMessageView, Error>(view_of_message(*msg)),
{
    let (kind, tkind, question, a, b, method): (u16, u16, u32, u32, u32, u16) = match msg {
        RpcMessage::Call { question, target: CapRef::Imported { index }, method } => (
            0,
            0,
            *question,
            *index,
            0,
            *method,
        ),
        RpcMessage::Call { question, target: CapRef::Promised { question: pq, .. }, method } => (
            0,
            1,
            *question,
            *pq,
            0,
            *method,
        ),
        RpcMessage::Return { question, outcome: Outcome::Results { .. } } => (
            1,
            0,
            *question,
            0,
            0,
            0,
        ),
        RpcMessage::Return { question, outcome: Outcome::Exception { code } } => (
            1,
            1,
            *question,
            *code,
            0,
            0,
        ),
        RpcMessage::Return { question, outcome: Outcome::Canceled } => (1, 2, *question, 0, 0, 0),
        RpcMessage::Finish { question } => (2, 0, *question, 0, 0, 0),
        RpcMessage::Resolve { promise, cap } => (3, 0, 0, *promise, *cap, 0),
        RpcMessage::Release { index, count } => (4, 0, 0, *index, *count, 0),
        RpcMessage::Disembargo { context } => (5, 0, 0, *context, 0, 0),
        RpcMessage::Abort { code } => (6, 0, 0, *code, 0, 0),
    };
    let mut m = Message::new();
    let c = init_root(&mut m, ENV_DATA_WORDS, ENV_PTR_COUNT);
    let ghost mv0 = m@;
    let ghost seg = c.seg as int;
    let ghost dof = c.data_off as int;
    let ghost g0 = m@;
    set_u16(&mut m, c, 0, kind);
    proof {
        crate::message::lemma_u16_bytes_roundtrip(kind);
        crate::layout::lemma_update_grows(
            g0,
            m@,
            seg,
            dof,
            crate::message::spec_u16_bytes(kind),
        );
        crate::layout::lemma_grows_except_step(mv0, g0, m@, seg, dof, 40, dof, 2);
    }
    let ghost g1 = m@;
    set_u16(&mut m, c, 1, tkind);
    proof {
        crate::message::lemma_u16_bytes_roundtrip(tkind);
        crate::layout::lemma_update_grows(
            g1,
            m@,
            seg,
            dof + 2,
            crate::message::spec_u16_bytes(tkind),
        );
        crate::layout::lemma_grows_except_step(mv0, g1, m@, seg, dof, 40, dof + 2, 2);
        lemma_env_scalars(c, g1, m@, seg, dof + 2, 2);
    }
    let ghost g2 = m@;
    set_u32(&mut m, c, 1, question);
    proof {
        crate::message::lemma_u32_bytes_roundtrip(question);
        crate::layout::lemma_update_grows(
            g2,
            m@,
            seg,
            dof + 4,
            crate::message::spec_u32_bytes(question),
        );
        crate::layout::lemma_grows_except_step(mv0, g2, m@, seg, dof, 40, dof + 4, 4);
        lemma_env_scalars(c, g2, m@, seg, dof + 4, 4);
    }
    let ghost g3 = m@;
    set_u32(&mut m, c, 2, a);
    proof {
        crate::message::lemma_u32_bytes_roundtrip(a);
        crate::layout::lemma_update_grows(
            g3,
            m@,
            seg,
            dof + 8,
            crate::message::spec_u32_bytes(a),
        );
        crate::layout::lemma_grows_except_step(mv0, g3, m@, seg, dof, 40, dof + 8, 4);
        lemma_env_scalars(c, g3, m@, seg, dof + 8, 4);
    }
    let ghost g4 = m@;
    set_u32(&mut m, c, 3, b);
    proof {
        crate::message::lemma_u32_bytes_roundtrip(b);
        crate::layout::lemma_update_grows(
            g4,
            m@,
            seg,
            dof + 12,
            crate::message::spec_u32_bytes(b),
        );
        crate::layout::lemma_grows_except_step(mv0, g4, m@, seg, dof, 40, dof + 12, 4);
        lemma_env_scalars(c, g4, m@, seg, dof + 12, 4);
    }
    let ghost g5 = m@;
    set_u16(&mut m, c, 8, method);
    proof {
        crate::message::lemma_u16_bytes_roundtrip(method);
        crate::layout::lemma_update_grows(
            g5,
            m@,
            seg,
            dof + 16,
            crate::message::spec_u16_bytes(method),
        );
        crate::layout::lemma_grows_except_step(mv0, g5, m@, seg, dof, 40, dof + 16, 2);
        lemma_env_scalars(c, g5, m@, seg, dof + 16, 2);
        assert(spec_get_u16(m@, c, 0) == kind);
        assert(spec_get_u16(m@, c, 1) == tkind);
        assert(spec_get_u32(m@, c, 1) == question);
        assert(spec_get_u32(m@, c, 2) == a);
        assert(spec_get_u32(m@, c, 3) == b);
        assert(spec_get_u16(m@, c, 8) == method);
    }
    match msg {
        RpcMessage::Call { target: CapRef::Promised { path, .. }, .. } => {
            let bytes = u16s_to_bytes(path);
            let ghost g6 = m@;
            let lc = init_byte_list_field(&mut m, c, 0, bytes.len() as u32);
            let ghost g7 = m@;
            list_write_bytes(&mut m, lc, bytes.as_slice());
            proof {
                crate::message::lemma_update_bytes_facts(
                    g7[lc.seg as int],
                    lc.off as int,
                    bytes@,
                );
                crate::layout::lemma_update_grows(g7, m@, lc.seg as int, lc.off as int, bytes@);
                assert(spec_list_field(m@, c, 0) == Ok::<
                    Option<crate::layout::ListCursor>,
                    Error,
                >(Some(lc)));
                crate::layout::lemma_grows_except_step(
                    mv0,
                    g6,
                    g7,
                    seg,
                    dof,
                    40,
                    spec_cell_off(c, 0),
                    8,
                );
                crate::layout::lemma_grows_disjoint_chain(
                    mv0,
                    g7,
                    m@,
                    seg,
                    dof,
                    40,
                    lc.seg as int,
                    lc.off as int,
                    lc.count as int,
                );
                lemma_env_scalars(c, g6, g7, seg, spec_cell_off(c, 0), 8);
                lemma_env_scalars(c, g7, m@, lc.seg as int, lc.off as int, lc.count as int);
                lemma_u16s_roundtrip(path@);
                vstd::arithmetic::div_mod::lemma_mod_multiples_basic(path@.len() as int, 2);
                assert(spec_bytes_u16s(spec_list_bytes(m@, lc)) == path@);
                assert(spec_root_field(m@) == Ok::<Option<StructCursor>, Error>(Some(c)));
                assert(spec_envelope(m@) == Ok::<RpcMessageView, Error>(view_of_message(*msg)));
            }
        },
        RpcMessage::Return { outcome: Outcome::Results { caps }, .. } => {
            let bytes = u32s_to_bytes(caps);
            let ghost g6 = m@;
            let lc = init_byte_list_field(&mut m, c, 1, bytes.len() as u32);
            let ghost g7 = m@;
            list_write_bytes(&mut m, lc, bytes.as_slice());
            proof {
                crate::message::lemma_update_bytes_facts(
                    g7[lc.seg as int],
                    lc.off as int,
                    bytes@,
                );
                crate::layout::lemma_update_grows(g7, m@, lc.seg as int, lc.off as int, bytes@);
                assert(spec_list_field(m@, c, 1) == Ok::<
                    Option<crate::layout::ListCursor>,
                    Error,
                >(Some(lc)));
                crate::layout::lemma_grows_except_step(
                    mv0,
                    g6,
                    g7,
                    seg,
                    dof,
                    40,
                    spec_cell_off(c, 1),
                    8,
                );
                crate::layout::lemma_grows_disjoint_chain(
                    mv0,
                    g7,
                    m@,
                    seg,
                    dof,
                    40,
                    lc.seg as int,
                    lc.off as int,
                    lc.count as int,
                );
                lemma_env_scalars(c, g6, g7, seg, spec_cell_off(c, 1), 8);
                lemma_env_scalars(c, g7, m@, lc.seg as int, lc.off as int, lc.count as int);
                lemma_u32s_roundtrip(caps@);
                vstd::arithmetic::div_mod::lemma_mod_multiples_basic(caps@.len() as int, 4);
                assert(spec_bytes_u32s(spec_list_bytes(m@, lc)) == caps@);
                assert(spec_root_field(m@) == Ok::<Option<StructCursor>, Error>(Some(c)));
                assert(spec_envelope(m@) == Ok::<RpcMessageView, Error>(view_of_message(*msg)));
            }
        },
        _ => {
            proof {
                assert(spec_root_field(m@) == Ok::<Option<StructCursor>, Error>(Some(c)));
                assert(spec_envelope(m@) == Ok::<RpcMessageView, Error>(view_of_message(*msg)));
            }
        },
    }
    m
}

/// Decode an envelope message back into the protocol message it
/// carries; exec mirror of `spec_envelope`.
pub fn decode(m: &Message) -> (r: Result<RpcMessage, Error>)
    requires
        m.wf(),
    ensures
        (match spec_envelope(m@) {
            Ok(v) => (r matches Ok(msg) && view_of_message(msg) == v),
            Err(e) => r == Err::<RpcMessage, Error>(e),
        }),
{
    let c = match get_root(m) {
        Err(e) => {
            return Err(e);
        },
        Ok(None) => {
            return Err(Error::SchemaMismatch);
        },
        Ok(Some(c)) => c,
    };
    let kind = get_u16(m, c, 0);
    let tkind = get_u16(m, c, 1);
    let question = get_u32(m, c, 1);
    let a = get_u32(m, c, 2);
    let b = get_u32(m, c, 3);
    let method = get_u16(m, c, 8);
    if kind == 0 {
        if tkind == 0 {
            Ok(RpcMessage::Call { question, target: CapRef::Imported { index: a }, method })
        } else if tkind == 1 {
            match get_list_field(m, c, 0) {
                Err(e) => Err(e),
                Ok(None) => Err(Error::SchemaMismatch),
                Ok(Some(lc)) => match lc.elem {
                    crate::pointer::ElemSize::One => {
                        if lc.count % 2 == 0 {
                            let bytes = list_read_bytes(m, lc);
                            let path = bytes_to_u16s(&bytes);
                            Ok(
                                RpcMessage::Call {
                                    question,
                                    target: CapRef::Promised { question: a, path },
                                    method,
                                },
                            )
                        } else {
                            Err(Error::SchemaMismatch)
                        }
                    },
                    _ => Err(Error::SchemaMismatch),
                },
            }
        } else {
            Err(Error::SchemaMismatch)
        }
    } else if kind == 1 {
        if tkind == 0 {
            match get_list_field(m, c, 1) {
                Err(e) => Err(e),
                Ok(None) => Err(Error::SchemaMismatch),
                Ok(Some(lc)) => match lc.elem {
                    crate::pointer::ElemSize::One => {
                        if lc.count % 4 == 0 {
                            let bytes = list_read_bytes(m, lc);
                            let caps = bytes_to_u32s(&bytes);
                            Ok(
                                RpcMessage::Return {
                                    question,
                                    outcome: Outcome::Results { caps },
                                },
                            )
                        } else {
                            Err(Error::SchemaMismatch)
                        }
                    },
                    _ => Err(Error::SchemaMismatch),
                },
            }
        } else if tkind == 1 {
            Ok(RpcMessage::Return { question, outcome: Outcome::Exception { code: a } })
        } else if tkind == 2 {
            Ok(RpcMessage::Return { question, outcome: Outcome::Canceled })
        } else {
            Err(Error::SchemaMismatch)
        }
    } else if kind == 2 {
        Ok(RpcMessage::Finish { question })
    } else if kind == 3 {
        Ok(RpcMessage::Resolve { promise: a, cap: b })
    } else if kind == 4 {
        Ok(RpcMessage::Release { index: a, count: b })
    } else if kind == 5 {
        Ok(RpcMessage::Disembargo { context: a })
    } else if kind == 6 {
        Ok(RpcMessage::Abort { code: a })
    } else {
        Err(Error::NotInSchema(kind))
    }
}

} // verus!
