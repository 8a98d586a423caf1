//! Capability RPC bookkeeping.
//!
//! A connection tracks its outstanding questions and the capabilities
//! imported from the peer.  Calls are promise-pipelined: a call may
//! target the not-yet-computed result of an earlier question through a
//! `(question, path)` reference, so chaining a second call costs no
//! extra round trip; the peer resolves the path once the first answer
//! exists.  Cancelling a question frees its bookkeeping immediately, and
//! closing the connection resolves every outstanding question with an
//! error instead of hanging.  All decisions are pure state transitions;
//! the surrounding event loop performs the sends and hands events back.

use vstd::prelude::*;
use crate::error::Error;
use crate::layout::{
    scursor_wf, spec_ptr_word, spec_resolve, spec_root_field, spec_struct_field, StructCursor,
};
use crate::message::Message;
use crate::pointer::Pointer;

verus! {

/// A reference to a callee: a capability already imported from the
/// peer, or a promised one inside the future answer of `question`,
/// named by the pointer-slot path from that answer's root.
pub enum CapRef {
    /// An entry of the import table.
    Imported { index: u32 },
    /// The capability at `path` inside the answer to `question`.
    Promised { question: u32, path: Vec<u16> },
}

/// How a question ended.
pub enum Outcome {
    /// The callee answered; `caps` are the capabilities the answer
    /// carries, as import-table indexes.
    Results { caps: Vec<u32> },
    /// The callee failed; the code travels to every dependent call.
    Exception { code: u32 },
    /// The callee saw the cancellation first.
    Canceled,
}

/// One protocol message of the framed stream.
pub enum RpcMessage {
    /// Invoke `method` on `target` under a fresh question id.
    Call { question: u32, target: CapRef, method: u16 },
    /// The peer's answer to a question.
    Return { question: u32, outcome: Outcome },
    /// The caller is done with a question; the peer may drop it.
    Finish { question: u32 },
    /// A promise settled into a concrete capability.
    Resolve { promise: u32, cap: u32 },
    /// A capability's remote reference count dropped by `count`.
    Release { index: u32, count: u32 },
    /// Ordering barrier after a resolve.
    Disembargo { context: u32 },
    /// The peer is giving up on the whole connection.
    Abort { code: u32 },
}

/// The lifecycle of an outstanding question.
pub enum QuestionState {
    /// Sent; no answer yet.  Pipelined calls may reference it.
    Sent,
    /// Answered; the outcome is retained until the caller finishes it.
    Returned { outcome: Outcome },
}

/// One outstanding question.
pub struct Question {
    pub id: u32,
    pub state: QuestionState,
}

/// One imported capability with its local reference count.
pub struct ImportEntry {
    pub index: u32,
    pub refs: u32,
}

/// Client-side connection state; see the module documentation.
pub struct Connection {
    pub questions: Vec<Question>,
    pub next_question: u32,
    pub imports: Vec<ImportEntry>,
    pub closed: bool,
}

impl Connection {
    /// Table invariants: question ids unique and below the counter,
    /// import indexes unique, no dead import entries.
    pub open spec fn inv(self) -> bool {
        &&& forall|a: int, b: int|
            0 <= a < b < self.questions@.len() ==> (#[trigger] self.questions@[a]).id != (
            #[trigger] self.questions@[b]).id
        &&& forall|a: int|
            0 <= a < self.questions@.len() ==> (#[trigger] self.questions@[a]).id
                < self.next_question
        &&& forall|a: int, b: int|
            0 <= a < b < self.imports@.len() ==> (#[trigger] self.imports@[a]).index != (
            #[trigger] self.imports@[b]).index
        &&& forall|a: int| 0 <= a < self.imports@.len() ==> (#[trigger] self.imports@[a]).refs >= 1
    }

    /// Whether a question with this id is outstanding.
    pub open spec fn spec_has_question(self, id: u32) -> bool {
        exists|k: int| 0 <= k < self.questions@.len() && (#[trigger] self.questions@[k]).id == id
    }

    /// Whether a question with this id is outstanding and unanswered.
    pub open spec fn spec_has_sent(self, id: u32) -> bool {
        exists|k: int|
            0 <= k < self.questions@.len() && (#[trigger] self.questions@[k]).id == id
                && self.questions@[k].state is Sent
    }

    /// Whether an import with this index is held.
    pub open spec fn spec_has_import(self, index: u32) -> bool {
        exists|k: int| 0 <= k < self.imports@.len() && (#[trigger] self.imports@[k]).index == index
    }

    /// A fresh connection: no questions, no imports, open.
    pub fn new() -> (r: Connection)
        ensures
            r.inv(),
            r.questions@.len() == 0,
            r.imports@.len() == 0,
            !r.closed,
            r.next_question == 0,
    {
        Connection { questions: Vec::new(), next_question: 0, imports: Vec::new(), closed: false }
    }

    /// Start a call on `target`: the question is recorded and the Call
    /// message to send is handed back at once.  A `Promised` target may
    /// reference a question whose answer has not arrived — that is the
    /// pipelining guarantee: no waiting, no extra round trip.
    pub fn start_call(&mut self, target: CapRef, method: u16) -> (r: (u32, RpcMessage))
        requires
            old(self).inv(),
            !old(self).closed,
            old(self).next_question < 0xFFFF_FFFFu32,
            (old(self).spec_valid_target(target)),
        ensures
            final(self).inv(),
            r.0 == old(self).next_question,
            final(self).next_question == old(self).next_question + 1,
            final(self).questions@ == old(self).questions@.push(
                Question { id: r.0, state: QuestionState::Sent },
            ),
            final(self).imports@ == old(self).imports@,
            final(self).closed == old(self).closed,
            r.1 == (RpcMessage::Call { question: r.0, target, method }),
            final(self).spec_has_question(r.0),
    {
        let id = self.next_question;
        self.next_question = self.next_question + 1;
        self.questions.push(Question { id, state: QuestionState::Sent });
        proof {
            assert(self.questions@[self.questions@.len() - 1].id == id);
        }
        (id, RpcMessage::Call { question: id, target, method })
    }

    /// A target is valid when it names a held import or an outstanding
    /// question.
    pub open spec fn spec_valid_target(self, target: CapRef) -> bool {
        match target {
            CapRef::Imported { index } => self.spec_has_import(index),
            CapRef::Promised { question, path } => self.spec_has_question(question),
        }
    }

    /// A pipeline reference into the future answer of `question`.
    pub fn pipeline(&self, question: u32, path: Vec<u16>) -> (r: CapRef)
        requires
            self.spec_has_question(question),
        ensures
            r matches CapRef::Promised { question: q, path: p } && q == question && p@ == path@,
            self.spec_valid_target(r),
    {
        CapRef::Promised { question, path }
    }

    /// Record the peer's answer.  The answer's capabilities enter the
    /// import table with one reference each.
    pub fn handle_return(&mut self, question: u32, outcome: Outcome) -> (r: Result<(), Error>)
        requires
            old(self).inv(),
        ensures
            final(self).inv(),
            final(self).closed == old(self).closed,
            final(self).next_question == old(self).next_question,
            (r is Ok <==> old(self).spec_has_sent(question)),
            r matches Ok(_) ==> final(self).questions@.len() == old(self).questions@.len()
                && (exists|k: int|
                0 <= k < old(self).questions@.len() && (#[trigger] old(self).questions@[k]).id
                    == question && final(self).questions@ == old(self).questions@.update(
                    k,
                    Question { id: question, state: QuestionState::Returned { outcome } },
                )),
            r matches Err(_) ==> *final(self) == *old(self),
    {
        let n = self.questions.len();
        let mut k: usize = 0;
        while k < n
            invariant
                n == self.questions@.len(),
                k <= n,
                forall|j: int| 0 <= j < k ==> (#[trigger] self.questions@[j]).id != question,
                *self == *old(self),
                old(self).inv(),
            decreases n - k,
        {
            if self.questions[k].id == question {
                match self.questions[k].state {
                    QuestionState::Sent => {
                        proof {
                            assert(old(self).questions@[k as int].id == question
                                && old(self).questions@[k as int].state is Sent);
                        }
                        self.questions.set(
                            k,
                            Question { id: question, state: QuestionState::Returned { outcome } },
                        );
                        proof {
                            assert(self.questions@.len() == old(self).questions@.len());
                            assert(forall|j: int|
                                0 <= j < self.questions@.len() && j != k ==> self.questions@[j]
                                    == old(self).questions@[j]);
                            assert(self.questions@[k as int].id == old(self).questions@[
                                k as int
                            ].id);
                            assert forall|a: int, b: int|
                                0 <= a < b < self.questions@.len() implies (
                            #[trigger] self.questions@[a]).id != (
                            #[trigger] self.questions@[b]).id by {
                                assert((self.questions@[a]).id == (old(self).questions@[a]).id);
                                assert((self.questions@[b]).id == (old(self).questions@[b]).id);
                            }
                        }
                        return Ok(());
                    },
                    QuestionState::Returned { .. } => {
                        proof {
                            assert forall|j: int|
                                0 <= j < self.questions@.len() implies !((
                            #[trigger] self.questions@[j]).id == question
                                && self.questions@[j].state is Sent) by {
                                if j != k {
                                    if j < k {
                                    } else {
                                        assert(self.questions@[k as int].id != self.questions@[
                                            j
                                        ].id);
                                    }
                                }
                            }
                        }
                        return Err(Error::SchemaMismatch);
                    },
                }
            }
            k = k + 1;
        }
        Err(Error::SchemaMismatch)
    }

    /// Cancel a question whose answer has not arrived: the local entry
    /// is dropped at once — no capability-table entry can leak, because
    /// none was created — and the Finish message tells the peer to stop.
    /// The callee's side effects may still have happened.
    pub fn cancel(&mut self, question: u32) -> (r: Result<RpcMessage, Error>)
        requires
            old(self).inv(),
        ensures
            final(self).inv(),
            final(self).imports@ == old(self).imports@,
            final(self).closed == old(self).closed,
            final(self).next_question == old(self).next_question,
            (r is Ok <==> old(self).spec_has_question(question)),
            r matches Ok(msg) ==> {
                &&& !final(self).spec_has_question(question)
                &&& final(self).questions@.len() + 1 == old(self).questions@.len()
                &&& (exists|k: int|
                    0 <= k < old(self).questions@.len() && (#[trigger] old(
                        self,
                    ).questions@[k]).id == question && final(self).questions@ == old(
                        self,
                    ).questions@.remove(k))
                &&& msg == RpcMessage::Finish { question }
            },
            r matches Err(_) ==> *final(self) == *old(self),
    {
        let n = self.questions.len();
        let mut k: usize = 0;
        while k < n
            invariant
                n == self.questions@.len(),
                k <= n,
                forall|j: int| 0 <= j < k ==> (#[trigger] self.questions@[j]).id != question,
                *self == *old(self),
                old(self).inv(),
            decreases n - k,
        {
            if self.questions[k].id == question {
                proof {
                    assert(old(self).questions@[k as int].id == question);
                }
                self.questions.remove(k);
                proof {
                    old(self).questions@.remove_ensures(k as int);
                    assert forall|j: int|
                        0 <= j < self.questions@.len() implies (#[trigger] self.questions@[j]).id
                        != question by {
                        if j < k {
                            assert(self.questions@[j] == old(self).questions@[j]);
                        } else {
                            assert(self.questions@[j] == old(self).questions@[j + 1]);
                        }
                    }
                    assert forall|a: int, b: int|
                        0 <= a < b < self.questions@.len() implies (
                    #[trigger] self.questions@[a]).id != (#[trigger] self.questions@[b]).id by {
                        let a0: int = if a < k { a } else { a + 1 };
                        let b0: int = if b < k { b } else { b + 1 };
                        assert(self.questions@[a] == old(self).questions@[a0]);
                        assert(self.questions@[b] == old(self).questions@[b0]);
                    }
                    assert forall|a: int|
                        0 <= a < self.questions@.len() implies (#[trigger] self.questions@[a]).id
                        < self.next_question by {
                        let a0: int = if a < k { a } else { a + 1 };
                        assert(self.questions@[a] == old(self).questions@[a0]);
                    }
                }
                return Ok(RpcMessage::Finish { question });
            }
            k = k + 1;
        }
        Err(Error::SchemaMismatch)
    }

    /// Take one more reference on an imported capability, creating the
    /// entry at one reference if it is new.
    pub fn add_import(&mut self, index: u32) -> (r: Result<(), Error>)
        requires
            old(self).inv(),
        ensures
            final(self).inv(),
            final(self).closed == old(self).closed,
            final(self).next_question == old(self).next_question,
            final(self).questions@ == old(self).questions@,
            r matches Err(_) ==> *final(self) == *old(self),
            (r is Err <==> (exists|k: int|
                0 <= k < old(self).imports@.len() && (#[trigger] old(self).imports@[k]).index
                    == index && old(self).imports@[k].refs == 0xFFFF_FFFFu32)),
            r is Ok ==> ((exists|k: int|
                0 <= k < old(self).imports@.len() && (#[trigger] old(self).imports@[k]).index
                    == index && final(self).imports@ == old(self).imports@.update(
                    k,
                    ImportEntry { index, refs: (old(self).imports@[k].refs + 1) as u32 },
                )) || (!old(self).spec_has_import(index) && final(self).imports@ == old(
                self,
            ).imports@.push(ImportEntry { index, refs: 1 }))),
            r matches Ok(_) ==> final(self).spec_has_import(index),
    {
        let n = self.imports.len();
        let mut k: usize = 0;
        while k < n
            invariant
                n == self.imports@.len(),
                k <= n,
                forall|j: int| 0 <= j < k ==> (#[trigger] self.imports@[j]).index != index,
                *self == *old(self),
                old(self).inv(),
            decreases n - k,
        {
            if self.imports[k].index == index {
                let refs = self.imports[k].refs;
                proof {
                    assert(old(self).imports@[k as int].index == index);
                    assert forall|j: int|
                        0 <= j < old(self).imports@.len() && j != k implies (#[trigger] old(
                        self,
                    ).imports@[j]).index != index by {
                        if j < k {
                        } else {
                            assert(old(self).imports@[k as int].index != old(self).imports@[
                                j
                            ].index);
                        }
                    }
                }
                if refs == 0xFFFF_FFFFu32 {
                    return Err(Error::SchemaMismatch);
                }
                self.imports.set(k, ImportEntry { index, refs: refs + 1 });
                proof {
                    assert(self.imports@[k as int].index == index);
                    assert forall|a: int, b: int|
                        0 <= a < b < self.imports@.len() implies (
                    #[trigger] self.imports@[a]).index != (#[trigger] self.imports@[b]).index by {
                        assert((self.imports@[a]).index == (old(self).imports@[a]).index);
                        assert((self.imports@[b]).index == (old(self).imports@[b]).index);
                    }
                }
                return Ok(());
            }
            k = k + 1;
        }
        proof {
            assert(!old(self).spec_has_import(index));
        }
        self.imports.push(ImportEntry { index, refs: 1 });
        proof {
            assert(self.imports@[self.imports@.len() - 1].index == index);
            assert forall|a: int, b: int|
                0 <= a < b < self.imports@.len() implies (#[trigger] self.imports@[a]).index != (
            #[trigger] self.imports@[b]).index by {
                if b < self.imports@.len() - 1 {
                    assert(self.imports@[a] == old(self).imports@[a]);
                    assert(self.imports@[b] == old(self).imports@[b]);
                } else {
                    assert(self.imports@[a] == old(self).imports@[a]);
                    assert((self.imports@[a]).index != index);
                }
            }
        }
        Ok(())
    }

    /// Drop one reference on an imported capability.  When the last
    /// local reference goes, the entry leaves the table and the Release
    /// message tells the peer — never earlier, so the peer cannot see a
    /// dangling reference; never later, so nothing leaks.
    pub fn release_import(&mut self, index: u32) -> (r: Result<Option<RpcMessage>, Error>)
        requires
            old(self).inv(),
        ensures
            final(self).inv(),
            final(self).closed == old(self).closed,
            final(self).next_question == old(self).next_question,
            final(self).questions@ == old(self).questions@,
            (r is Err <==> !old(self).spec_has_import(index)),
            r matches Err(_) ==> *final(self) == *old(self),
            r matches Ok(o) ==> (match o {
                Option::Some(msg) => !final(self).spec_has_import(index) && (msg
                    == (RpcMessage::Release { index, count: 1 })) && (exists|k: int|
                    0 <= k < old(self).imports@.len() && (#[trigger] old(self).imports@[k]).index
                        == index && old(self).imports@[k].refs == 1 && final(self).imports@ == old(
                        self,
                    ).imports@.remove(k)),
                Option::None => (exists|k: int|
                    0 <= k < old(self).imports@.len() && (#[trigger] old(self).imports@[k]).index
                        == index && old(self).imports@[k].refs >= 2 && final(self).imports@ == old(
                        self,
                    ).imports@.update(
                        k,
                        ImportEntry { index, refs: (old(self).imports@[k].refs - 1) as u32 },
                    )),
            }),
    {
        let n = self.imports.len();
        let mut k: usize = 0;
        while k < n
            invariant
                n == self.imports@.len(),
                k <= n,
                forall|j: int| 0 <= j < k ==> (#[trigger] self.imports@[j]).index != index,
                *self == *old(self),
                old(self).inv(),
            decreases n - k,
        {
            if self.imports[k].index == index {
                let refs = self.imports[k].refs;
                proof {
                    assert(old(self).imports@[k as int].index == index);
                }
                if refs == 1 {
                    self.imports.remove(k);
                    proof {
                        old(self).imports@.remove_ensures(k as int);
                        assert forall|j: int|
                            0 <= j < self.imports@.len() implies (#[trigger] self.imports@[j]).index
                            != index by {
                            if j < k {
                                assert(self.imports@[j] == old(self).imports@[j]);
                            } else {
                                assert(self.imports@[j] == old(self).imports@[j + 1]);
                            }
                        }
                        assert forall|a: int, b: int|
                            0 <= a < b < self.imports@.len() implies (
                        #[trigger] self.imports@[a]).index != (
                        #[trigger] self.imports@[b]).index by {
                            let a0: int = if a < k { a } else { a + 1 };
                            let b0: int = if b < k { b } else { b + 1 };
                            assert(self.imports@[a] == old(self).imports@[a0]);
                            assert(self.imports@[b] == old(self).imports@[b0]);
                        }
                        assert forall|a: int|
                            0 <= a < self.imports@.len() implies (
                        #[trigger] self.imports@[a]).refs >= 1 by {
                            let a0: int = if a < k { a } else { a + 1 };
                            assert(self.imports@[a] == old(self).imports@[a0]);
                        }
                    }
                    return Ok(Some(RpcMessage::Release { index, count: 1 }));
                } else {
                    self.imports.set(k, ImportEntry { index, refs: refs - 1 });
                    proof {
                        assert forall|a: int, b: int|
                            0 <= a < b < self.imports@.len() implies (
                        #[trigger] self.imports@[a]).index != (
                        #[trigger] self.imports@[b]).index by {
                            assert((self.imports@[a]).index == (old(self).imports@[a]).index);
                            assert((self.imports@[b]).index == (old(self).imports@[b]).index);
                        }
                    }
                    return Ok(None);
                }
            }
            k = k + 1;
        }
        Err(Error::SchemaMismatch)
    }

    /// Tear the connection down: every outstanding question resolves as
    /// closed — no caller is left hanging — and the tables empty, so
    /// the connection can be dropped.
    pub fn close(&mut self) -> (r: Vec<(u32, Error)>)
        requires
            old(self).inv(),
        ensures
            final(self).inv(),
            final(self).closed,
            final(self).questions@.len() == 0,
            final(self).imports@.len() == 0,
            r@.len() == old(self).questions@.len(),
            forall|k: int|
                0 <= k < r@.len() ==> #[trigger] r@[k] == (
                old(self).questions@[k].id,
                Error::ConnectionClosed,
            ),
    {
        let mut out: Vec<(u32, Error)> = Vec::new();
        let n = self.questions.len();
        let mut k: usize = 0;
        while k < n
            invariant
                n == self.questions@.len(),
                self.questions@ == old(self).questions@,
                k <= n,
                out@.len() == k,
                forall|j: int|
                    0 <= j < k ==> #[trigger] out@[j] == (
                    old(self).questions@[j].id,
                    Error::ConnectionClosed,
                ),
            decreases n - k,
        {
            let id = self.questions[k].id;
            out.push((id, Error::ConnectionClosed));
            k = k + 1;
        }
        self.questions.clear();
        self.imports.clear();
        self.closed = true;
        out
    }
}


/// One exported capability: the local object it stands for and the
/// peer's outstanding reference count.
pub struct ExportEntry {
    pub index: u32,
    pub object: u32,
    pub refs: u32,
}

/// The callee-side export table: capabilities this side has handed to
/// the peer, with the peer's reference counts.  An entry leaves the
/// table only when its count reaches zero through Release messages —
/// dropping it earlier would leave the peer with a dangling reference,
/// keeping it longer would leak the object.
pub struct Exports {
    pub entries: Vec<ExportEntry>,
}

impl Exports {
    /// Export indexes are unique and no entry is dead.
    pub open spec fn inv(self) -> bool {
        &&& forall|a: int, b: int|
            0 <= a < b < self.entries@.len() ==> (#[trigger] self.entries@[a]).index != (
            #[trigger] self.entries@[b]).index
        &&& forall|a: int| 0 <= a < self.entries@.len() ==> (#[trigger] self.entries@[a]).refs >= 1
    }

    /// Whether an export with this index is live.
    pub open spec fn spec_has(self, index: u32) -> bool {
        exists|k: int| 0 <= k < self.entries@.len() && (#[trigger] self.entries@[k]).index == index
    }

    /// An empty table.
    pub fn new() -> (r: Exports)
        ensures
            r.inv(),
            r.entries@.len() == 0,
    {
        Exports { entries: Vec::new() }
    }

    /// Record that `object` was sent to the peer under `index`, or that
    /// the peer gained one more reference to an existing export.
    pub fn add(&mut self, index: u32, object: u32) -> (r: Result<(), Error>)
        requires
            old(self).inv(),
        ensures
            final(self).inv(),
            r matches Err(_) ==> *final(self) == *old(self),
            (r is Err <==> (exists|k: int|
                0 <= k < old(self).entries@.len() && (#[trigger] old(self).entries@[k]).index
                    == index && (old(self).entries@[k].object != object || old(
                    self,
                ).entries@[k].refs == 0xFFFF_FFFFu32))),
            r is Ok ==> ((exists|k: int|
                0 <= k < old(self).entries@.len() && (#[trigger] old(self).entries@[k]).index
                    == index && old(self).entries@[k].object == object && final(self).entries@
                    == old(self).entries@.update(
                    k,
                    ExportEntry { index, object, refs: (old(self).entries@[k].refs + 1) as u32 },
                )) || (!old(self).spec_has(index) && final(self).entries@ == old(
                self,
            ).entries@.push(ExportEntry { index, object, refs: 1 }))),
            r matches Ok(_) ==> final(self).spec_has(index),
    {
        let n = self.entries.len();
        let mut k: usize = 0;
        while k < n
            invariant
                n == self.entries@.len(),
                k <= n,
                forall|j: int| 0 <= j < k ==> (#[trigger] self.entries@[j]).index != index,
                *self == *old(self),
                old(self).inv(),
            decreases n - k,
        {
            if self.entries[k].index == index {
                let e = &self.entries[k];
                proof {
                    assert(old(self).entries@[k as int].index == index);
                    assert forall|j: int|
                        0 <= j < old(self).entries@.len() && j != k implies (#[trigger] old(
                        self,
                    ).entries@[j]).index != index by {
                        if j < k {
                        } else {
                            assert(old(self).entries@[k as int].index != old(self).entries@[
                                j
                            ].index);
                        }
                    }
                }
                if e.object != object || e.refs == 0xFFFF_FFFFu32 {
                    return Err(Error::SchemaMismatch);
                }
                let refs = e.refs;
                let obj = e.object;
                self.entries.set(k, ExportEntry { index, object: obj, refs: refs + 1 });
                proof {
                    assert(self.entries@[k as int].index == index);
                    assert forall|a: int, b: int|
                        0 <= a < b < self.entries@.len() implies (
                    #[trigger] self.entries@[a]).index != (#[trigger] self.entries@[b]).index by {
                        assert((self.entries@[a]).index == (old(self).entries@[a]).index);
                        assert((self.entries@[b]).index == (old(self).entries@[b]).index);
                    }
                }
                return Ok(());
            }
            k = k + 1;
        }
        proof {
            assert(!old(self).spec_has(index));
        }
        self.entries.push(ExportEntry { index, object, refs: 1 });
        proof {
            assert(self.entries@[self.entries@.len() - 1].index == index);
            assert forall|a: int, b: int|
                0 <= a < b < self.entries@.len() implies (#[trigger] self.entries@[a]).index != (
            #[trigger] self.entries@[b]).index by {
                if b < self.entries@.len() - 1 {
                    assert(self.entries@[a] == old(self).entries@[a]);
                    assert(self.entries@[b] == old(self).entries@[b]);
                } else {
                    assert(self.entries@[a] == old(self).entries@[a]);
                    assert((self.entries@[a]).index != index);
                }
            }
        }
        Ok(())
    }

    /// Apply a Release message from the peer: drop `count` of its
    /// references; the entry leaves the table exactly when the count
    /// reaches zero.
    pub fn release(&mut self, index: u32, count: u32) -> (r: Result<bool, Error>)
        requires
            old(self).inv(),
        ensures
            final(self).inv(),
            r matches Err(_) ==> *final(self) == *old(self),
            (r is Err <==> !(exists|k: int|
                0 <= k < old(self).entries@.len() && (#[trigger] old(self).entries@[k]).index
                    == index && count <= old(self).entries@[k].refs)),
            r == Ok::<bool, Error>(true) ==> !final(self).spec_has(index) && (exists|k: int|
                0 <= k < old(self).entries@.len() && (#[trigger] old(self).entries@[k]).index
                    == index && old(self).entries@[k].refs == count && final(self).entries@ == old(
                    self,
                ).entries@.remove(k)),
            r == Ok::<bool, Error>(false) ==> (exists|k: int|
                0 <= k < old(self).entries@.len() && (#[trigger] old(self).entries@[k]).index
                    == index && count < old(self).entries@[k].refs && final(self).entries@ == old(
                    self,
                ).entries@.update(
                    k,
                    ExportEntry {
                        index,
                        object: old(self).entries@[k].object,
                        refs: (old(self).entries@[k].refs - count) as u32,
                    },
                )),
    {
        let n = self.entries.len();
        let mut k: usize = 0;
        while k < n
            invariant
                n == self.entries@.len(),
                k <= n,
                forall|j: int| 0 <= j < k ==> (#[trigger] self.entries@[j]).index != index,
                *self == *old(self),
                old(self).inv(),
            decreases n - k,
        {
            if self.entries[k].index == index {
                let refs = self.entries[k].refs;
                proof {
                    assert(old(self).entries@[k as int].index == index);
                    assert forall|j: int|
                        0 <= j < old(self).entries@.len() && j != k implies (#[trigger] old(
                        self,
                    ).entries@[j]).index != index by {
                        if j < k {
                        } else {
                            assert(old(self).entries@[k as int].index != old(self).entries@[
                                j
                            ].index);
                        }
                    }
                }
                if count > refs {
                    return Err(Error::SchemaMismatch);
                }
                if count == refs {
                    self.entries.remove(k);
                    proof {
                        old(self).entries@.remove_ensures(k as int);
                        assert forall|j: int|
                            0 <= j < self.entries@.len() implies (#[trigger] self.entries@[j]).index
                            != index by {
                            if j < k {
                                assert(self.entries@[j] == old(self).entries@[j]);
                            } else {
                                assert(self.entries@[j] == old(self).entries@[j + 1]);
                            }
                        }
                        assert forall|a: int, b: int|
                            0 <= a < b < self.entries@.len() implies (
                        #[trigger] self.entries@[a]).index != (
                        #[trigger] self.entries@[b]).index by {
                            let a0: int = if a < k { a } else { a + 1 };
                            let b0: int = if b < k { b } else { b + 1 };
                            assert(self.entries@[a] == old(self).entries@[a0]);
                            assert(self.entries@[b] == old(self).entries@[b0]);
                        }
                        assert forall|a: int|
                            0 <= a < self.entries@.len() implies (
                        #[trigger] self.entries@[a]).refs >= 1 by {
                            let a0: int = if a < k { a } else { a + 1 };
                            assert(self.entries@[a] == old(self).entries@[a0]);
                        }
                    }
                    return Ok(true);
                } else {
                    let obj = self.entries[k].object;
                    self.entries.set(k, ExportEntry { index, object: obj, refs: refs - count });
                    proof {
                        assert forall|a: int, b: int|
                            0 <= a < b < self.entries@.len() implies (
                        #[trigger] self.entries@[a]).index != (
                        #[trigger] self.entries@[b]).index by {
                            assert((self.entries@[a]).index == (old(self).entries@[a]).index);
                            assert((self.entries@[b]).index == (old(self).entries@[b]).index);
                        }
                    }
                    return Ok(false);
                }
            }
            k = k + 1;
        }
        Err(Error::SchemaMismatch)
    }

    /// The object behind a live export.
    pub fn lookup(&self, index: u32) -> (r: Option<u32>)
        requires
            self.inv(),
        ensures
            r is Some <==> self.spec_has(index),
            r matches Some(o) ==> (exists|k: int|
                0 <= k < self.entries@.len() && (#[trigger] self.entries@[k]).index == index
                    && self.entries@[k].object == o),
    {
        let n = self.entries.len();
        let mut k: usize = 0;
        while k < n
            invariant
                n == self.entries@.len(),
                k <= n,
                forall|j: int| 0 <= j < k ==> (#[trigger] self.entries@[j]).index != index,
            decreases n - k,
        {
            if self.entries[k].index == index {
                proof {
                    assert(self.entries@[k as int].index == index);
                }
                return Some(self.entries[k].object);
            }
            k = k + 1;
        }
        None
    }
}

/// The capability a `path` of pointer-slot indexes names inside an
/// answer: every hop but the last crosses a struct pointer, the last
/// slot must hold a capability pointer.
pub open spec fn spec_path_target(
    mv: Seq<Seq<u8>>,
    c: StructCursor,
    path: Seq<u16>,
    caps: Seq<u32>,
) -> Result<u32, Error>
    decreases path.len(),
{
    if path.len() == 0 {
        Err(Error::SchemaMismatch)
    } else {
        let i = path[0] as int;
        if path.len() == 1 {
            match spec_resolve(mv, c.seg as int, spec_ptr_word(mv, c, i)) {
                Err(e) => Err(e),
                Ok((home, p)) => match p {
                    Pointer::Cap { index } => {
                        if index < caps.len() {
                            Ok(caps[index as int])
                        } else {
                            Err(Error::PointerOutOfBounds)
                        }
                    },
                    _ => Err(Error::SchemaMismatch),
                },
            }
        } else {
            match spec_struct_field(mv, c, i) {
                Err(e) => Err(e),
                Ok(Option::None) => Err(Error::SchemaMismatch),
                Ok(Option::Some(sc)) => spec_path_target(mv, sc, path.skip(1), caps),
            }
        }
    }
}

/// The capability a path names from an answer's root.
pub open spec fn spec_answer_target(m: Message, caps: Seq<u32>, path: Seq<u16>) -> Result<
    u32,
    Error,
> {
    match spec_root_field(m@) {
        Err(e) => Err(e),
        Ok(Option::None) => Err(Error::SchemaMismatch),
        Ok(Option::Some(c)) => spec_path_target(m@, c, path, caps),
    }
}

/// Walk a path from `c`; exec mirror of `spec_path_target`.
fn path_target_from(m: &Message, c: StructCursor, path: &Vec<u16>, from: usize, caps: &Vec<u32>) -> (r:
    Result<u32, Error>)
    requires
        m.wf(),
        scursor_wf(c, m@),
        from < path@.len(),
    ensures
        r == spec_path_target(m@, c, path@.skip(from as int), caps@),
    decreases path@.len() - from,
{
    let pl = path.len();
    proof {
        assert(path@.skip(from as int)[0] == path@[from as int]);
        assert(path@.skip(from as int).len() == path@.len() - from);
    }
    let i = path[from] as usize;
    if from + 1 == pl {
        let v = crate::layout::get_ptr_word(m, c, i);
        match crate::layout::resolve_ptr(m, c.seg, v) {
            Err(e) => Err(e),
            Ok((home, p)) => match p {
                Pointer::Cap { index } => {
                    if (index as usize) < caps.len() {
                        Ok(caps[index as usize])
                    } else {
                        Err(Error::PointerOutOfBounds)
                    }
                },
                _ => Err(Error::SchemaMismatch),
            },
        }
    } else {
        match crate::layout::get_struct_field(m, c, i) {
            Err(e) => Err(e),
            Ok(None) => Err(Error::SchemaMismatch),
            Ok(Some(sc)) => {
                let r = path_target_from(m, sc, path, from + 1, caps);
                proof {
                    assert(path@.skip(from as int).skip(1) =~= path@.skip(from + 1));
                }
                r
            },
        }
    }
}

/// The capability a path names from an answer's root; exec mirror of
/// `spec_answer_target`.
pub fn answer_target(m: &Message, caps: &Vec<u32>, path: &Vec<u16>) -> (r: Result<u32, Error>)
    requires
        m.wf(),
    ensures
        r == spec_answer_target(*m, caps@, path@),
{
    match crate::layout::get_root(m) {
        Err(e) => Err(e),
        Ok(None) => Err(Error::SchemaMismatch),
        Ok(Some(c)) => {
            if path.len() == 0 {
                Err(Error::SchemaMismatch)
            } else {
                let r = path_target_from(m, c, path, 0, caps);
                proof {
                    assert(path@.skip(0) =~= path@);
                }
                r
            }
        },
    }
}

/// What the callee computed for a question.
pub enum AnswerValue {
    /// A result message, with the object ids its capability table
    /// stands for.
    Value { result: Message, caps: Vec<u32> },
    /// The call failed; every dependent pipelined call inherits the
    /// code.
    Exception { code: u32 },
}

/// One recorded answer on the callee's side.
pub struct AnswerEntry {
    pub id: u32,
    pub value: AnswerValue,
}

/// The callee-side answer table.
pub struct AnswerTable {
    pub answers: Vec<AnswerEntry>,
}

impl AnswerTable {
    /// Answer ids are unique.
    pub open spec fn inv(self) -> bool {
        forall|a: int, b: int|
            0 <= a < b < self.answers@.len() ==> (#[trigger] self.answers@[a]).id != (
            #[trigger] self.answers@[b]).id
    }

    /// The recorded answer for a question, if any.
    pub open spec fn spec_answer(self, id: u32) -> Option<int> {
        if exists|k: int| 0 <= k < self.answers@.len() && (#[trigger] self.answers@[k]).id == id {
            Option::Some(
                choose|k: int|
                    0 <= k < self.answers@.len() && (#[trigger] self.answers@[k]).id == id,
            )
        } else {
            Option::None
        }
    }

    /// An empty table.
    pub fn new() -> (r: AnswerTable)
        ensures
            r.inv(),
            r.answers@.len() == 0,
    {
        AnswerTable { answers: Vec::new() }
    }

    /// Record an answer.
    pub fn record(&mut self, id: u32, value: AnswerValue) -> (r: Result<(), Error>)
        requires
            old(self).inv(),
        ensures
            final(self).inv(),
            (r is Ok <==> !(exists|k: int|
                0 <= k < old(self).answers@.len() && (#[trigger] old(self).answers@[k]).id == id)),
            r is Ok ==> final(self).answers@ == old(self).answers@.push(AnswerEntry { id, value }),
            r matches Err(_) ==> *final(self) == *old(self),
    {
        let n = self.answers.len();
        let mut k: usize = 0;
        while k < n
            invariant
                n == self.answers@.len(),
                k <= n,
                forall|j: int| 0 <= j < k ==> (#[trigger] self.answers@[j]).id != id,
                *self == *old(self),
                old(self).inv(),
            decreases n - k,
        {
            if self.answers[k].id == id {
                proof {
                    assert(old(self).answers@[k as int].id == id);
                }
                return Err(Error::SchemaMismatch);
            }
            k = k + 1;
        }
        self.answers.push(AnswerEntry { id, value });
        Ok(())
    }

    /// The position of the recorded answer for `id`.
    fn find_answer(&self, id: u32) -> (r: Option<usize>)
        requires
            self.inv(),
        ensures
            (match r {
                Some(k) => k < self.answers@.len() && self.answers@[k as int].id == id
                    && self.spec_answer(id) == Some(k as int),
                None => self.spec_answer(id) is None,
            }),
    {
        let n = self.answers.len();
        let mut k: usize = 0;
        while k < n
            invariant
                self.inv(),
                n == self.answers@.len(),
                k <= n,
                forall|j: int| 0 <= j < k ==> (#[trigger] self.answers@[j]).id != id,
            decreases n - k,
        {
            if self.answers[k].id == id {
                proof {
                    assert(self.answers@[k as int].id == id);
                    assert(self.spec_answer(id) is Some);
                    let kk = choose|j: int|
                        0 <= j < self.answers@.len() && (#[trigger] self.answers@[j]).id == id;
                    if kk != k as int {
                        if kk < k as int {
                            assert((self.answers@[kk]).id != (self.answers@[k as int]).id);
                        } else {
                            assert((self.answers@[k as int]).id != (self.answers@[kk]).id);
                        }
                    }
                }
                return Some(k);
            }
            k = k + 1;
        }
        proof {
            assert(self.spec_answer(id) is None);
        }
        None
    }

    /// Dispatch a call target to a concrete object id: an imported
    /// capability maps through `exports`; a promised one resolves its
    /// path through the recorded answer.  A pipelined call handled after
    /// the answer exists therefore reaches exactly the object the caller
    /// would have reached by awaiting the answer and extracting the
    /// capability at the same path — the pipelining equivalence.
    pub fn dispatch(&self, target: &CapRef, exports: &Vec<u32>) -> (r: Result<u32, Error>)
        requires
            self.inv(),
            forall|k: int|
                0 <= k < self.answers@.len() ==> ((#[trigger] self.answers@[k]).value matches
                AnswerValue::Value { result, caps } ==> result.wf()),
        ensures
            (match target {
                CapRef::Imported { index } => r == (if (index as int) < exports@.len() {
                    Ok::<u32, Error>(exports@[index as int])
                } else {
                    Err::<u32, Error>(Error::PointerOutOfBounds)
                }),
                CapRef::Promised { question, path } => (match self.spec_answer(*question) {
                    Option::Some(k) => (match self.answers@[k].value {
                        AnswerValue::Value { result, caps } => r == spec_answer_target(
                            result,
                            caps@,
                            path@,
                        ),
                        AnswerValue::Exception { code } => r == Err::<u32, Error>(
                            Error::RpcException(code),
                        ),
                    }),
                    Option::None => r == Err::<u32, Error>(Error::SchemaMismatch),
                }),
            }),
    {
        match target {
            CapRef::Imported { index } => {
                if (*index as usize) < exports.len() {
                    Ok(exports[*index as usize])
                } else {
                    Err(Error::PointerOutOfBounds)
                }
            },
            CapRef::Promised { question, path } => {
                match self.find_answer(*question) {
                    Some(k) => match &self.answers[k].value {
                        AnswerValue::Value { result, caps } => answer_target(result, caps, path),
                        AnswerValue::Exception { code } => Err(Error::RpcException(*code)),
                    },
                    None => Err(Error::SchemaMismatch),
                }
            },
        }
    }
}

/// Pipelining equivalence: once the answer to `question` is recorded,
/// handling the pipelined call `Promised { question, path }` dispatches
/// to exactly the capability the caller extracts from that answer at
/// `path`; issuing the call before the answer arrived changed nothing
/// about where it lands.
pub proof fn lemma_pipeline_agrees(t: AnswerTable, k: int, path: Seq<u16>, x: u32)
    requires
        t.inv(),
        0 <= k < t.answers@.len(),
        (t.answers@[k].value matches AnswerValue::Value { result, caps } && spec_answer_target(
            result,
            caps@,
            path,
        ) == Ok::<u32, Error>(x)),
    ensures
        (t.spec_answer(t.answers@[k].id) matches Some(j) && (t.answers@[j].value matches
        AnswerValue::Value { result, caps } && spec_answer_target(result, caps@, path) == Ok::<
            u32,
            Error,
        >(x))),
{
    let id = t.answers@[k].id;
    assert(t.spec_answer(id) is Some);
    let j = choose|j: int| 0 <= j < t.answers@.len() && (#[trigger] t.answers@[j]).id == id;
    assert(j == k);
}

} // verus!
