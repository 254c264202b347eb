use parcel_watcher::EventType;
use parcel_watcher::kind_code;
use parcel_watcher::kind_from_code;
use parcel_watcher::backend::BackendKind;
use parcel_watcher::backend::absolutize;
use parcel_watcher::backend::BruteForceBackend;
use parcel_watcher::backend::DaemonRecord;
use parcel_watcher::backend::DaemonState;
use parcel_watcher::backend::NativeChange;
use parcel_watcher::backend::fallback_after;
use parcel_watcher::backend::first_backend;
use parcel_watcher::backend::synthetic_created;
use parcel_watcher::backend::translate_changes;
use parcel_watcher::debounce::Debouncer;
use parcel_watcher::dirtree::DirEntry;
use parcel_watcher::dirtree::DirSnapshot;
use parcel_watcher::dirtree::EntryKind;
use parcel_watcher::dirtree::diff;

fn entry(path: &str, kind: EntryKind, mtime: u64, identity: u64) -> DirEntry {
    DirEntry { path: path.as_bytes().to_vec(), kind, mtime, identity }
}

fn snap(entries: Vec<DirEntry>) -> DirSnapshot {
    DirSnapshot { entries }
}

#[test]
fn diff_classifies_create_update_delete() {
    let old_snap = snap(vec![
        entry("kept.txt", EntryKind::File, 10, 1),
        entry("touched.txt", EntryKind::File, 10, 2),
        entry("gone.txt", EntryKind::File, 10, 3),
    ]);
    let new_snap = snap(vec![
        entry("kept.txt", EntryKind::File, 10, 1),
        entry("touched.txt", EntryKind::File, 20, 2),
        entry("fresh.txt", EntryKind::File, 30, 4),
    ]);
    let out = diff(&old_snap, &new_snap);
    assert_eq!(out.len(), 3);
    assert_eq!(out[0].path, b"touched.txt".to_vec());
    assert!(matches!(out[0].ty, EventType::Updated));
    assert_eq!(out[1].path, b"fresh.txt".to_vec());
    assert!(matches!(out[1].ty, EventType::Created));
    assert_eq!(out[2].path, b"gone.txt".to_vec());
    assert!(matches!(out[2].ty, EventType::Deleted));
}

#[test]
fn diff_sees_identity_and_kind_changes() {
    let old_snap = snap(vec![entry("a", EntryKind::File, 5, 1)]);
    let new_snap = snap(vec![entry("a", EntryKind::Dir, 5, 1)]);
    let out = diff(&old_snap, &new_snap);
    assert_eq!(out.len(), 1);
    assert!(matches!(out[0].ty, EventType::Updated));

    let replaced = snap(vec![entry("a", EntryKind::File, 5, 9)]);
    let out2 = diff(&old_snap, &replaced);
    assert_eq!(out2.len(), 1);
    assert!(matches!(out2[0].ty, EventType::Updated));
}

#[test]
fn first_snapshot_is_baseline_only() {
    let mut backend = BruteForceBackend::new();
    let first = snap(vec![entry("a.txt", EntryKind::File, 1, 1)]);
    let out = backend.tick(first);
    assert!(out.is_empty());
    let second = snap(vec![
        entry("a.txt", EntryKind::File, 1, 1),
        entry("b.txt", EntryKind::File, 2, 2),
    ]);
    let out2 = backend.tick(second);
    assert_eq!(out2.len(), 1);
    assert_eq!(out2[0].path, b"b.txt".to_vec());
    assert!(matches!(out2[0].ty, EventType::Created));
}

#[test]
fn debounce_created_then_updated_is_created() {
    let mut d = Debouncer::new();
    let p = b"a.txt".to_vec();
    d.record(&p, EventType::Created);
    d.record(&p, EventType::Updated);
    let batch = d.flush();
    assert_eq!(batch.len(), 1);
    assert_eq!(batch[0].path, p);
    assert!(matches!(batch[0].ty, EventType::Created));
}

#[test]
fn debounce_created_then_deleted_is_deleted() {
    let mut d = Debouncer::new();
    let p = b"a.txt".to_vec();
    d.record(&p, EventType::Created);
    d.record(&p, EventType::Deleted);
    let batch = d.flush();
    assert_eq!(batch.len(), 1);
    assert!(matches!(batch[0].ty, EventType::Deleted));
}

#[test]
fn debounce_updated_twice_emits_once() {
    let mut d = Debouncer::new();
    let p = b"a.txt".to_vec();
    d.record(&p, EventType::Updated);
    d.record(&p, EventType::Updated);
    let batch = d.flush();
    assert_eq!(batch.len(), 1);
    assert!(matches!(batch[0].ty, EventType::Updated));
}

#[test]
fn debounce_flush_clears_state() {
    let mut d = Debouncer::new();
    d.record(&b"a".to_vec(), EventType::Created);
    let first = d.flush();
    assert_eq!(first.len(), 1);
    let second = d.flush();
    assert!(second.is_empty());
}

#[test]
fn debounce_keeps_distinct_paths_in_order() {
    let mut d = Debouncer::new();
    d.record(&b"one".to_vec(), EventType::Created);
    d.record(&b"two".to_vec(), EventType::Deleted);
    let batch = d.flush();
    assert_eq!(batch.len(), 2);
    assert_eq!(batch[0].path, b"one".to_vec());
    assert_eq!(batch[1].path, b"two".to_vec());
}

#[test]
fn translate_decomposes_renames_and_swallows_ghosts() {
    let changes = vec![
        NativeChange { path: b"old_name".to_vec(), existed_before: true, exists_now: false },
        NativeChange { path: b"new_name".to_vec(), existed_before: false, exists_now: true },
        NativeChange { path: b"stable".to_vec(), existed_before: true, exists_now: true },
        NativeChange { path: b"ghost".to_vec(), existed_before: false, exists_now: false },
    ];
    let out = translate_changes(&changes);
    assert_eq!(out.len(), 4);
    assert!(matches!(out[0].ty, EventType::Deleted));
    assert!(matches!(out[1].ty, EventType::Created));
    assert!(matches!(out[2].ty, EventType::Updated));
    assert!(matches!(out[3].ty, EventType::Deleted));
}

#[test]
fn rescan_reports_everything_created() {
    let scan = snap(vec![
        entry("newdir/a", EntryKind::File, 1, 1),
        entry("newdir/b", EntryKind::Dir, 1, 2),
    ]);
    let out = synthetic_created(&scan);
    assert_eq!(out.len(), 2);
    assert!(matches!(out[0].ty, EventType::Created));
    assert!(matches!(out[1].ty, EventType::Created));
}

#[test]
fn fallback_order_ends_at_brute_force() {
    let mut k = first_backend();
    assert!(matches!(k, BackendKind::FsEvents));
    let mut hops = 0;
    while let Some(next) = fallback_after(k) {
        k = next;
        hops += 1;
    }
    assert_eq!(hops, 3);
    assert!(matches!(k, BackendKind::BruteForce));
}

#[test]
fn daemon_records_classify_by_memory() {
    let mut st = DaemonState::new();
    let created = st.apply_record(&DaemonRecord {
        path: b"x".to_vec(),
        exists: true,
        mtime: 1,
    });
    assert!(matches!(created.ty, EventType::Created));
    let updated = st.apply_record(&DaemonRecord {
        path: b"x".to_vec(),
        exists: true,
        mtime: 2,
    });
    assert!(matches!(updated.ty, EventType::Updated));
    let deleted = st.apply_record(&DaemonRecord {
        path: b"x".to_vec(),
        exists: false,
        mtime: 3,
    });
    assert!(matches!(deleted.ty, EventType::Deleted));
    let again = st.apply_record(&DaemonRecord {
        path: b"x".to_vec(),
        exists: true,
        mtime: 4,
    });
    assert!(matches!(again.ty, EventType::Created));
}

#[test]
fn boundary_kind_codes_round_trip() {
    for ty in [EventType::Created, EventType::Deleted, EventType::Updated] {
        let back = kind_from_code(kind_code(ty));
        assert_eq!(kind_code(back), kind_code(ty));
    }
    assert!(matches!(kind_from_code(0), EventType::Created));
    assert!(matches!(kind_from_code(1), EventType::Deleted));
    assert!(matches!(kind_from_code(2), EventType::Updated));
    assert!(matches!(kind_from_code(7), EventType::Updated));
}

#[test]
fn events_deliver_with_absolute_paths() {
    let batch = vec![
        parcel_watcher::Event { path: b"a/b.txt".to_vec(), ty: EventType::Created },
        parcel_watcher::Event { path: b"c".to_vec(), ty: EventType::Deleted },
    ];
    let out = absolutize(&b"/root".to_vec(), &batch);
    assert_eq!(out.len(), 2);
    assert_eq!(out[0].path, b"/root/a/b.txt".to_vec());
    assert!(matches!(out[0].ty, EventType::Created));
    assert_eq!(out[1].path, b"/root/c".to_vec());
    assert!(matches!(out[1].ty, EventType::Deleted));
}
