use framewire::envelope;
use framewire::layout;
use framewire::message::Message;
use framewire::rpc;

#[test]
fn pipelined_call_needs_no_extra_round_trip() {
    let mut c = rpc::Connection::new();
    c.add_import(0).unwrap();
    let (qa, ma) = c.start_call(rpc::CapRef::Imported { index: 0 }, 1);
    match ma {
        rpc::RpcMessage::Call { question, method, .. } => {
            assert_eq!(question, qa);
            assert_eq!(method, 1);
        },
        _ => panic!("start_call must produce a Call message"),
    }
    // Call B on the promised result of A, before any Return arrived:
    // two Call messages, zero waits.
    let pref = c.pipeline(qa, vec![1u16]);
    let (qb, mb) = c.start_call(pref, 2);
    assert_ne!(qa, qb);
    match mb {
        rpc::RpcMessage::Call { target: rpc::CapRef::Promised { question, path }, .. } => {
            assert_eq!(question, qa);
            assert_eq!(path, vec![1u16]);
        },
        _ => panic!("the pipelined call must reference the promise"),
    }
    assert_eq!(c.questions.len(), 2);
}

#[test]
fn pipelined_dispatch_agrees_with_awaited_dispatch() {
    // The callee records an answer whose pointer slot 1 holds the
    // capability entry 0, standing for object 77.
    let mut am = Message::new();
    let root = layout::init_root(&mut am, 0, 2);
    layout::set_cap_field(&mut am, root, 1, 0);
    let mut table = rpc::AnswerTable::new();
    table.record(5, rpc::AnswerValue::Value { result: am, caps: vec![77] }).unwrap();
    let exports: Vec<u32> = vec![];

    // The pipelined call lands on the same object that a caller finds
    // by awaiting the answer and extracting the capability at the path.
    let pipelined = table
        .dispatch(&rpc::CapRef::Promised { question: 5, path: vec![1u16] }, &exports)
        .unwrap();
    let awaited = match &table.answers[0].value {
        rpc::AnswerValue::Value { result, caps } => {
            rpc::answer_target(result, caps, &vec![1u16]).unwrap()
        }
        rpc::AnswerValue::Exception { .. } => panic!("the answer should hold a value"),
    };
    assert_eq!(pipelined, awaited);
    assert_eq!(pipelined, 77);
}

#[test]
fn exception_reaches_pipelined_dependents() {
    let mut table = rpc::AnswerTable::new();
    table.record(9, rpc::AnswerValue::Exception { code: 13 }).unwrap();
    let exports: Vec<u32> = vec![];
    let got = table.dispatch(&rpc::CapRef::Promised { question: 9, path: vec![0u16] }, &exports);
    assert_eq!(got, Err(framewire::error::Error::RpcException(13)));
}

#[test]
fn export_reference_counting() {
    let mut e = rpc::Exports::new();
    e.add(2, 55).unwrap();
    e.add(2, 55).unwrap();
    assert_eq!(e.lookup(2), Some(55));
    // Releasing fewer references than the peer holds keeps the entry.
    assert_eq!(e.release(2, 1), Ok(false));
    assert_eq!(e.lookup(2), Some(55));
    assert_eq!(e.release(2, 1), Ok(true));
    assert_eq!(e.lookup(2), None);
    assert!(e.release(2, 1).is_err());
}

#[test]
fn imported_dispatch_uses_export_table() {
    let table = rpc::AnswerTable::new();
    let exports: Vec<u32> = vec![40, 41];
    let got = table.dispatch(&rpc::CapRef::Imported { index: 1 }, &exports).unwrap();
    assert_eq!(got, 41);
    assert!(table.dispatch(&rpc::CapRef::Imported { index: 9 }, &exports).is_err());
}

#[test]
fn cancel_leaves_no_table_entries() {
    let mut c = rpc::Connection::new();
    c.add_import(3).unwrap();
    let (q, _) = c.start_call(rpc::CapRef::Imported { index: 3 }, 0);
    assert_eq!(c.questions.len(), 1);
    let fin = c.cancel(q).unwrap();
    match fin {
        rpc::RpcMessage::Finish { question } => assert_eq!(question, q),
        _ => panic!("cancel must produce a Finish message"),
    }
    assert_eq!(c.questions.len(), 0);
    // Release the call target's import: nothing is left, teardown can
    // proceed.
    let rel = c.release_import(3).unwrap();
    assert!(matches!(rel, Some(rpc::RpcMessage::Release { index: 3, count: 1 })));
    assert_eq!(c.imports.len(), 0);
    let resolved = c.close();
    assert_eq!(resolved.len(), 0);
}

#[test]
fn close_resolves_outstanding_questions() {
    let mut c = rpc::Connection::new();
    c.add_import(0).unwrap();
    let (qa, _) = c.start_call(rpc::CapRef::Imported { index: 0 }, 0);
    let (qb, _) = c.start_call(rpc::CapRef::Imported { index: 0 }, 1);
    let resolved = c.close();
    assert_eq!(resolved.len(), 2);
    assert_eq!(resolved[0], (qa, framewire::error::Error::ConnectionClosed));
    assert_eq!(resolved[1], (qb, framewire::error::Error::ConnectionClosed));
    assert_eq!(c.questions.len(), 0);
    assert_eq!(c.imports.len(), 0);
}

#[test]
fn return_then_finish() {
    let mut c = rpc::Connection::new();
    c.add_import(0).unwrap();
    let (q, _) = c.start_call(rpc::CapRef::Imported { index: 0 }, 0);
    c.handle_return(q, rpc::Outcome::Results { caps: vec![] }).unwrap();
    // A second Return for the same question is a protocol violation.
    assert!(c.handle_return(q, rpc::Outcome::Canceled).is_err());
    c.cancel(q).unwrap();
    assert_eq!(c.questions.len(), 0);
}

#[test]
fn import_reference_counting() {
    let mut c = rpc::Connection::new();
    c.add_import(8).unwrap();
    c.add_import(8).unwrap();
    assert_eq!(c.imports.len(), 1);
    // The first drop keeps the entry; only the last one releases it to
    // the peer.
    assert!(matches!(c.release_import(8), Ok(None)));
    assert!(matches!(c.release_import(8), Ok(Some(rpc::RpcMessage::Release { index: 8, count: 1 }))));
    assert_eq!(c.imports.len(), 0);
    assert!(c.release_import(8).is_err());
}

#[test]
fn typed_pipelines_compose_paths() {
    let af = framewire::audio_frame::Pipeline::new(9);
    let p = af.get_pts();
    assert_eq!(p.question, 9);
    assert_eq!(p.path, vec![1u16]);
    let vf = framewire::video_frame::Pipeline::new(4);
    let q = vf.get_pts();
    assert_eq!(q.question, 4);
    assert_eq!(q.path, vec![1u16]);
}

#[test]
fn envelope_round_trip_all_kinds() {
    let msgs = vec![
        rpc::RpcMessage::Call {
            question: 1,
            target: rpc::CapRef::Imported { index: 4 },
            method: 2,
        },
        rpc::RpcMessage::Call {
            question: 3,
            target: rpc::CapRef::Promised { question: 1, path: vec![1u16, 0u16] },
            method: 9,
        },
        rpc::RpcMessage::Return {
            question: 3,
            outcome: rpc::Outcome::Results { caps: vec![7, 8, 9] },
        },
        rpc::RpcMessage::Return { question: 4, outcome: rpc::Outcome::Exception { code: 99 } },
        rpc::RpcMessage::Return { question: 5, outcome: rpc::Outcome::Canceled },
        rpc::RpcMessage::Finish { question: 6 },
        rpc::RpcMessage::Resolve { promise: 10, cap: 11 },
        rpc::RpcMessage::Release { index: 12, count: 2 },
        rpc::RpcMessage::Disembargo { context: 13 },
        rpc::RpcMessage::Abort { code: 14 },
    ];
    for msg in msgs {
        let m = envelope::encode(&msg);
        // Each protocol message is itself a framed message.
        let framed = framewire::wire::encode(&m);
        let dm = framewire::wire::decode(framed.as_slice(), 1 << 20).unwrap();
        let back = envelope::decode(&dm).unwrap();
        match (&msg, &back) {
            (
                rpc::RpcMessage::Call { question: q1, target: t1, method: m1 },
                rpc::RpcMessage::Call { question: q2, target: t2, method: m2 },
            ) => {
                assert_eq!(q1, q2);
                assert_eq!(m1, m2);
                match (t1, t2) {
                    (
                        rpc::CapRef::Imported { index: a },
                        rpc::CapRef::Imported { index: b },
                    ) => assert_eq!(a, b),
                    (
                        rpc::CapRef::Promised { question: a, path: p },
                        rpc::CapRef::Promised { question: b, path: q },
                    ) => {
                        assert_eq!(a, b);
                        assert_eq!(p, q);
                    }
                    _ => panic!("target kind changed across the round trip"),
                }
            }
            (
                rpc::RpcMessage::Return { question: q1, outcome: o1 },
                rpc::RpcMessage::Return { question: q2, outcome: o2 },
            ) => {
                assert_eq!(q1, q2);
                match (o1, o2) {
                    (
                        rpc::Outcome::Results { caps: a },
                        rpc::Outcome::Results { caps: b },
                    ) => assert_eq!(a, b),
                    (
                        rpc::Outcome::Exception { code: a },
                        rpc::Outcome::Exception { code: b },
                    ) => assert_eq!(a, b),
                    (rpc::Outcome::Canceled, rpc::Outcome::Canceled) => {}
                    _ => panic!("outcome kind changed across the round trip"),
                }
            }
            (
                rpc::RpcMessage::Finish { question: a },
                rpc::RpcMessage::Finish { question: b },
            ) => assert_eq!(a, b),
            (
                rpc::RpcMessage::Resolve { promise: a, cap: c1 },
                rpc::RpcMessage::Resolve { promise: b, cap: c2 },
            ) => {
                assert_eq!(a, b);
                assert_eq!(c1, c2);
            }
            (
                rpc::RpcMessage::Release { index: a, count: c1 },
                rpc::RpcMessage::Release { index: b, count: c2 },
            ) => {
                assert_eq!(a, b);
                assert_eq!(c1, c2);
            }
            (
                rpc::RpcMessage::Disembargo { context: a },
                rpc::RpcMessage::Disembargo { context: b },
            ) => assert_eq!(a, b),
            (rpc::RpcMessage::Abort { code: a }, rpc::RpcMessage::Abort { code: b }) => {
                assert_eq!(a, b)
            }
            _ => panic!("message kind changed across the round trip"),
        }
    }
}

#[test]
fn envelope_rejects_foreign_root() {
    // A message whose root is not an envelope: unknown kind code.
    let mut m = Message::new();
    let c = layout::init_root(&mut m, 3, 2);
    layout::set_u16(&mut m, c, 0, 250);
    assert_eq!(
        envelope::decode(&m).map(|_| ()),
        Err(framewire::error::Error::NotInSchema(250)),
    );
}
