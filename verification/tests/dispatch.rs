use parcel_watcher::EventType;
use parcel_watcher::backend::BackendKind;
use parcel_watcher::backend::BruteForceBackend;
use parcel_watcher::backend::make_subscribe_request;
use parcel_watcher::backend::make_watch_request;
use parcel_watcher::bser::Value;
use parcel_watcher::bser::decode;
use parcel_watcher::bser::encode;
use parcel_watcher::dirtree::DirEntry;
use parcel_watcher::dirtree::DirSnapshot;
use parcel_watcher::dirtree::EntryKind;
use parcel_watcher::watcher::Registry;
use parcel_watcher::backend::interpret_frame;
use parcel_watcher::backend::DaemonMsg;
use parcel_watcher::backend::RESP_ACK;
use parcel_watcher::backend::RESP_ERROR;
use parcel_watcher::backend::RESP_NOTIFY;

fn snapshot_of(entries: &[(&str, u64)]) -> DirSnapshot {
    DirSnapshot {
        entries: entries
            .iter()
            .map(|(p, m)| DirEntry {
                path: p.as_bytes().to_vec(),
                kind: EntryKind::File,
                mtime: *m,
                identity: *m,
            })
            .collect(),
    }
}

#[test]
fn two_subscriptions_share_one_backend() {
    let mut reg = Registry::new();
    let root = b"/watched/root".to_vec();

    let (t1, started1) = reg.subscribe(&root, BackendKind::BruteForce);
    assert!(started1, "the first subscription starts the backend");
    let (t2, started2) = reg.subscribe(&root, BackendKind::BruteForce);
    assert!(!started2, "the second joins the running backend");
    assert_ne!(t1, t2);

    let stopped1 = reg.unsubscribe(&root, t1);
    assert!(!stopped1, "one subscriber remains");

    let batch = vec![parcel_watcher::Event { path: b"f".to_vec(), ty: EventType::Created }];
    let fanout = reg.deliver(&root, &batch);
    assert_eq!(fanout.len(), 1, "the remaining subscriber still receives");
    assert_eq!(fanout[0].0, t2);

    let stopped2 = reg.unsubscribe(&root, t2);
    assert!(stopped2, "removing the last subscriber stops the backend");
    let stopped_again = reg.unsubscribe(&root, t2);
    assert!(!stopped_again, "a second unsubscription is harmless");
    assert!(reg.deliver(&root, &batch).is_empty());
}

#[test]
fn fanout_copies_batch_to_each_subscriber_in_order() {
    let mut reg = Registry::new();
    let root = b"/r".to_vec();
    let (t1, _) = reg.subscribe(&root, BackendKind::FsEvents);
    let (t2, _) = reg.subscribe(&root, BackendKind::FsEvents);
    let batch = vec![
        parcel_watcher::Event { path: b"a".to_vec(), ty: EventType::Created },
        parcel_watcher::Event { path: b"b".to_vec(), ty: EventType::Deleted },
    ];
    let fanout = reg.deliver(&root, &batch);
    assert_eq!(fanout.len(), 2);
    assert_eq!(fanout[0].0, t1);
    assert_eq!(fanout[1].0, t2);
    for (_, copy) in &fanout {
        assert_eq!(copy.len(), 2);
        assert_eq!(copy[0].path, b"a".to_vec());
        assert!(matches!(copy[0].ty, EventType::Created));
        assert_eq!(copy[1].path, b"b".to_vec());
        assert!(matches!(copy[1].ty, EventType::Deleted));
    }
}

#[test]
fn distinct_roots_do_not_share() {
    let mut reg = Registry::new();
    let (_, s1) = reg.subscribe(&b"/one".to_vec(), BackendKind::BruteForce);
    let (_, s2) = reg.subscribe(&b"/two".to_vec(), BackendKind::BruteForce);
    assert!(s1 && s2, "each distinct root starts its own backend");
}

#[test]
fn watch_lifecycle_create_update_delete_then_silence() {
    // subscribe to an empty root
    let mut reg = Registry::new();
    let root = b"/r".to_vec();
    let (token, started) = reg.subscribe(&root, BackendKind::BruteForce);
    assert!(started);
    let mut backend = BruteForceBackend::new();
    assert!(backend.tick(snapshot_of(&[])).is_empty());

    // create R/a.txt
    let raw = backend.tick(snapshot_of(&[("a.txt", 1)]));
    for ev in &raw {
        reg.note_event(&root, &ev.path, ev.ty);
    }
    let batch = reg.flush_root(&root);
    let fanout = reg.deliver(&root, &batch);
    assert_eq!(fanout.len(), 1);
    assert_eq!(fanout[0].1.len(), 1);
    assert_eq!(fanout[0].1[0].path, b"a.txt".to_vec());
    assert!(matches!(fanout[0].1[0].ty, EventType::Created));

    // write to a.txt
    let raw = backend.tick(snapshot_of(&[("a.txt", 2)]));
    for ev in &raw {
        reg.note_event(&root, &ev.path, ev.ty);
    }
    let batch = reg.flush_root(&root);
    let fanout = reg.deliver(&root, &batch);
    assert_eq!(fanout[0].1.len(), 1);
    assert!(matches!(fanout[0].1[0].ty, EventType::Updated));

    // delete it
    let raw = backend.tick(snapshot_of(&[]));
    for ev in &raw {
        reg.note_event(&root, &ev.path, ev.ty);
    }
    let batch = reg.flush_root(&root);
    let fanout = reg.deliver(&root, &batch);
    assert_eq!(fanout[0].1.len(), 1);
    assert!(matches!(fanout[0].1[0].ty, EventType::Deleted));

    // unsubscribe: later batches reach nobody even if the root fills up again
    let stopped = reg.unsubscribe(&root, token);
    assert!(stopped);
    let raw = backend.tick(snapshot_of(&[("a.txt", 3)]));
    for ev in &raw {
        reg.note_event(&root, &ev.path, ev.ty);
    }
    let batch = reg.flush_root(&root);
    assert!(batch.is_empty(), "an unwatched root holds no pending state");
    assert!(reg.deliver(&root, &batch).is_empty());
}

#[test]
fn daemon_requests_travel_as_frames() {
    let req = make_watch_request(&b"/project".to_vec());
    let bytes = encode(&req);
    let (back, used) = decode(&bytes).expect("request frame decodes");
    assert_eq!(used, bytes.len());
    match back {
        Value::Array(items) => {
            assert_eq!(items.len(), 2);
            assert!(matches!(items[0], Value::Int(op) if op == parcel_watcher::backend::OP_WATCH));
            assert!(matches!(&items[1], Value::Str(s) if s == &b"/project".to_vec()));
        }
        _ => panic!("a request frame is an array"),
    }

    let sub = make_subscribe_request(&b"/project".to_vec(), &b"mysub".to_vec());
    let bytes = encode(&sub);
    let (back, _) = decode(&bytes).expect("subscribe frame decodes");
    match back {
        Value::Array(items) => {
            assert_eq!(items.len(), 3);
            assert!(
                matches!(items[0], Value::Int(op) if op == parcel_watcher::backend::OP_SUBSCRIBE)
            );
            assert!(matches!(&items[2], Value::Str(s) if s == &b"mysub".to_vec()));
        }
        _ => panic!("a request frame is an array"),
    }
}

#[test]
fn daemon_responses_interpret_by_shape() {
    let ack = Value::Array(vec![Value::Int(RESP_ACK)]);
    assert!(matches!(interpret_frame(&ack), Some(DaemonMsg::Ack)));

    let err = Value::Array(vec![Value::Int(RESP_ERROR), Value::Str(b"watch failed".to_vec())]);
    match interpret_frame(&err) {
        Some(DaemonMsg::ErrorText(s)) => assert_eq!(s, b"watch failed".to_vec()),
        _ => panic!("an error frame carries its message"),
    }

    let note = Value::Array(vec![
        Value::Int(RESP_NOTIFY),
        Value::Array(vec![Value::Array(vec![
            Value::Str(b"a.txt".to_vec()),
            Value::Bool(true),
            Value::Int(123),
        ])]),
    ]);
    // a pushed frame survives the wire and still interprets
    let bytes = encode(&note);
    let (decoded, _) = decode(&bytes).expect("push frame decodes");
    match interpret_frame(&decoded) {
        Some(DaemonMsg::Notification(recs)) => {
            assert_eq!(recs.len(), 1);
            assert_eq!(recs[0].path, b"a.txt".to_vec());
            assert!(recs[0].exists);
            assert_eq!(recs[0].mtime, 123);
        }
        _ => panic!("a notify frame carries its records"),
    }

    // malformed shapes are protocol errors
    assert!(interpret_frame(&Value::Null).is_none());
    assert!(interpret_frame(&Value::Array(vec![Value::Int(99)])).is_none());
    let bad = Value::Array(vec![
        Value::Int(RESP_NOTIFY),
        Value::Array(vec![Value::Array(vec![Value::Str(b"p".to_vec()), Value::Bool(true)])]),
    ]);
    assert!(interpret_frame(&bad).is_none());
}

#[test]
fn teardown_flushes_pending_events() {
    let mut reg = Registry::new();
    let root = b"/r".to_vec();
    let (token, _) = reg.subscribe(&root, BackendKind::BruteForce);
    reg.note_event(&root, &b"late.txt".to_vec(), EventType::Created);
    let (stopped, batch) = reg.unsubscribe_flushing(&root, token);
    assert!(stopped);
    assert_eq!(batch.len(), 1, "the pending event is not dropped at teardown");
    assert_eq!(batch[0].path, b"late.txt".to_vec());
    assert!(matches!(batch[0].ty, EventType::Created));
}
