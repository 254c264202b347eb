//! The backend layer: which mechanism watches a root and in what
//! order failures cascade to the next one; how raw platform sightings
//! normalize into events; the polling backend that diffs snapshots;
//! and the daemon client's message shapes over the binary codec.

use vstd::prelude::*;

use crate::Event;
use crate::EventType;
use crate::bser::Value;
use crate::bser::SpecValue;
use crate::bser::value_view;
use crate::dirtree::DirSnapshot;
use crate::dirtree::batch_has;
use crate::dirtree::batch_paths_distinct;
use crate::dirtree::diff;
use crate::dirtree::entry_at;
use crate::dirtree::has_path;
use crate::dirtree::meta_changed;
use crate::util::bytes_eq;

verus! {

/// The mechanisms that can watch a root, in the order they are tried.
#[derive(Clone, Copy, Debug, PartialEq, Eq, Structural)]
pub enum BackendKind {
    FsEvents,
    Kqueue,
    Daemon,
    BruteForce,
}

/// The backend tried first on any platform.
pub fn first_backend() -> (r: BackendKind)
    ensures
        r == BackendKind::FsEvents,
{
    BackendKind::FsEvents
}

/// Where a start failure cascades: kernel mechanisms fall back to the
/// daemon, the daemon to polling, and a polling failure surfaces —
/// there is nothing left to try.
pub open spec fn spec_fallback(k: BackendKind) -> Option<BackendKind> {
    match k {
        BackendKind::FsEvents => Some(BackendKind::Kqueue),
        BackendKind::Kqueue => Some(BackendKind::Daemon),
        BackendKind::Daemon => Some(BackendKind::BruteForce),
        BackendKind::BruteForce => None,
    }
}

pub fn fallback_after(k: BackendKind) -> (r: Option<BackendKind>)
    ensures
        r == spec_fallback(k),
{
    match k {
        BackendKind::FsEvents => Some(BackendKind::Kqueue),
        BackendKind::Kqueue => Some(BackendKind::Daemon),
        BackendKind::Daemon => Some(BackendKind::BruteForce),
        BackendKind::BruteForce => None,
    }
}

/// How one raw kernel sighting of a path normalizes, given whether
/// the path was known before the callback and whether it still
/// exists: a fresh path was created; a vanished one — including one
/// that disappeared between the callback and the stat — is reported
/// deleted, never as an error; a stable path was updated. A rename
/// decomposes into a deletion of the old name and a creation of the
/// new one, because each name takes one of the first two cases.
pub open spec fn spec_translate(existed_before: bool, exists_now: bool) -> EventType {
    if !exists_now {
        EventType::Deleted
    } else if !existed_before {
        EventType::Created
    } else {
        EventType::Updated
    }
}

/// One raw sighting from a kernel notification mechanism.
#[derive(Clone, Debug)]
pub struct NativeChange {
    pub path: Vec<u8>,
    pub existed_before: bool,
    pub exists_now: bool,
}

/// Normalizes raw kernel sightings, in order.
pub fn translate_changes(changes: &Vec<NativeChange>) -> (out: Vec<Event>)
    ensures
        out@.len() == changes@.len(),
        forall|i: int|
            0 <= i < changes@.len() ==> (#[trigger] out@[i]).is(
                changes@[i].path@,
                spec_translate(changes@[i].existed_before, changes@[i].exists_now),
            ),
{
    let mut out: Vec<Event> = Vec::new();
    let mut i: usize = 0;
    while i < changes.len()
        invariant
            i <= changes@.len(),
            out@.len() == i,
            forall|j: int|
                0 <= j < i ==> (#[trigger] out@[j]).is(
                    changes@[j].path@,
                    spec_translate(changes@[j].existed_before, changes@[j].exists_now),
                ),
        decreases changes@.len() - i,
    {
        let c = &changes[i];
        let ty = if !c.exists_now {
            EventType::Deleted
        } else if !c.existed_before {
            EventType::Created
        } else {
            EventType::Updated
        };
        out.push(Event { path: c.path.clone(), ty });
        i += 1;
    }
    out
}

/// Closes the registration gap for a directory discovered mid-watch:
/// everything its rescan found is reported created, so nested creates
/// are never under-reported.
pub fn synthetic_created(scan: &DirSnapshot) -> (out: Vec<Event>)
    ensures
        out@.len() == scan.entries@.len(),
        forall|i: int|
            0 <= i < out@.len() ==> (#[trigger] out@[i]).is(
                scan.entries@[i].path@,
                EventType::Created,
            ),
{
    let mut out: Vec<Event> = Vec::new();
    let mut i: usize = 0;
    while i < scan.entries.len()
        invariant
            i <= scan.entries@.len(),
            out@.len() == i,
            forall|j: int|
                0 <= j < i ==> (#[trigger] out@[j]).is(scan.entries@[j].path@, EventType::Created),
        decreases scan.entries@.len() - i,
    {
        out.push(Event { path: scan.entries[i].path.clone(), ty: EventType::Created });
        i += 1;
    }
    out
}

/// Rebases a batch of root-relative events onto the watched root:
/// delivered events carry absolute paths.
pub fn absolutize(root: &Vec<u8>, batch: &Vec<Event>) -> (out: Vec<Event>)
    ensures
        out@.len() == batch@.len(),
        forall|i: int|
            0 <= i < batch@.len() ==> (#[trigger] out@[i]).is(
                root@ + seq![47u8] + batch@[i].path@,
                batch@[i].ty,
            ),
{
    let mut out: Vec<Event> = Vec::new();
    let mut i: usize = 0;
    while i < batch.len()
        invariant
            i <= batch@.len(),
            out@.len() == i,
            forall|j: int|
                0 <= j < i ==> (#[trigger] out@[j]).is(
                    root@ + seq![47u8] + batch@[j].path@,
                    batch@[j].ty,
                ),
        decreases batch@.len() - i,
    {
        let mut path = root.clone();
        path.push(47u8);
        let mut k: usize = 0;
        let rel = &batch[i].path;
        while k < rel.len()
            invariant
                k <= rel@.len(),
                rel@ == batch@[i as int].path@,
                i < batch@.len(),
                path@ == root@ + seq![47u8] + rel@.take(k as int),
            decreases rel@.len() - k,
        {
            path.push(rel[k]);
            proof {
                assert(rel@.take(k as int + 1) =~= rel@.take(k as int).push(rel@[k as int]));
                assert(root@ + seq![47u8] + rel@.take(k as int) + seq![rel@[k as int]]
                    =~= root@ + seq![47u8] + rel@.take(k as int + 1));
            }
            k += 1;
        }
        proof {
            assert(rel@.take(rel@.len() as int) =~= rel@);
        }
        out.push(Event { path, ty: batch[i].ty });
        i += 1;
    }
    out
}

/// The polling backend: it keeps the previous snapshot of the root
/// and turns each fresh snapshot into the diff against it.
pub struct BruteForceBackend {
    pub prev: Option<DirSnapshot>,
}

impl BruteForceBackend {
    pub open spec fn wf(self) -> bool {
        match self.prev {
            Some(s) => s.wf(),
            None => true,
        }
    }

    pub fn new() -> (r: BruteForceBackend)
        ensures
            r.wf(),
            r.prev is None,
    {
        BruteForceBackend { prev: None }
    }

    /// Feeds one fresh snapshot. The very first snapshot only sets
    /// the baseline and yields no events; every later one yields
    /// exactly one event per path changed since the snapshot before,
    /// classified by the diff rule.
    pub fn tick(&mut self, snap: DirSnapshot) -> (out: Vec<Event>)
        requires
            old(self).wf(),
            snap.wf(),
        ensures
            final(self).wf(),
            final(self).prev == Some(snap),
            old(self).prev is None ==> out@.len() == 0,
            old(self).prev matches Some(prev) ==> {
                &&& batch_paths_distinct(out@)
                &&& forall|p: Seq<u8>|
                    #[trigger] batch_has(out@, p, EventType::Created) <==> (has_path(
                        snap.entries@,
                        p,
                    ) && !has_path(prev.entries@, p))
                &&& forall|p: Seq<u8>|
                    #[trigger] batch_has(out@, p, EventType::Deleted) <==> (has_path(
                        prev.entries@,
                        p,
                    ) && !has_path(snap.entries@, p))
                &&& forall|p: Seq<u8>|
                    #[trigger] batch_has(out@, p, EventType::Updated) <==> (has_path(
                        prev.entries@,
                        p,
                    ) && has_path(snap.entries@, p) && meta_changed(
                        entry_at(prev.entries@, p),
                        entry_at(snap.entries@, p),
                    ))
            },
    {
        let out = match &self.prev {
            None => Vec::new(),
            Some(prev) => diff(prev, &snap),
        };
        self.prev = Some(snap);
        out
    }
}

/// Operation selectors of the daemon protocol. A request frame is the
/// array `[op, root]`, or `[op, root, name]` for the subscription
/// operations.
pub const OP_WATCH: i64 = 0;

pub const OP_SUBSCRIBE: i64 = 1;

pub const OP_UNSUBSCRIBE: i64 = 2;

/// The request frame asking the daemon to watch a root.
pub open spec fn spec_watch_request(root: Seq<u8>) -> SpecValue {
    SpecValue::Array(seq![SpecValue::Int(OP_WATCH), SpecValue::Str(root)])
}

pub fn make_watch_request(root: &Vec<u8>) -> (r: Value)
    ensures
        value_view(r) == spec_watch_request(root@),
{
    let mut items: Vec<Value> = Vec::new();
    items.push(Value::Int(OP_WATCH));
    items.push(Value::Str(root.clone()));
    proof {
        lemma_two_list_view(items@, SpecValue::Int(OP_WATCH), SpecValue::Str(root@));
    }
    Value::Array(items)
}

/// The request frame subscribing (or unsubscribing) a named
/// subscription under a watched root.
pub open spec fn spec_named_request(op: i64, root: Seq<u8>, name: Seq<u8>) -> SpecValue {
    SpecValue::Array(seq![SpecValue::Int(op), SpecValue::Str(root), SpecValue::Str(name)])
}

pub fn make_subscribe_request(root: &Vec<u8>, name: &Vec<u8>) -> (r: Value)
    ensures
        value_view(r) == spec_named_request(OP_SUBSCRIBE, root@, name@),
{
    make_named_request(OP_SUBSCRIBE, root, name)
}

pub fn make_unsubscribe_request(root: &Vec<u8>, name: &Vec<u8>) -> (r: Value)
    ensures
        value_view(r) == spec_named_request(OP_UNSUBSCRIBE, root@, name@),
{
    make_named_request(OP_UNSUBSCRIBE, root, name)
}

fn make_named_request(op: i64, root: &Vec<u8>, name: &Vec<u8>) -> (r: Value)
    ensures
        value_view(r) == spec_named_request(op, root@, name@),
{
    let mut items: Vec<Value> = Vec::new();
    items.push(Value::Int(op));
    items.push(Value::Str(root.clone()));
    items.push(Value::Str(name.clone()));
    proof {
        lemma_three_list_view(
            items@,
            SpecValue::Int(op),
            SpecValue::Str(root@),
            SpecValue::Str(name@),
        );
    }
    Value::Array(items)
}

proof fn lemma_two_list_view(s: Seq<Value>, a: SpecValue, b: SpecValue)
    requires
        s.len() == 2,
        value_view(s[0]) == a,
        value_view(s[1]) == b,
    ensures
        crate::bser::list_view(s) == seq![a, b],
{
    assert(s.drop_first().drop_first() =~= Seq::<Value>::empty());
    assert(crate::bser::list_view(s.drop_first().drop_first()) =~= Seq::<SpecValue>::empty());
    assert(crate::bser::list_view(s.drop_first()) =~= seq![b]);
    assert(crate::bser::list_view(s) =~= seq![a, b]);
}

proof fn lemma_three_list_view(s: Seq<Value>, a: SpecValue, b: SpecValue, c: SpecValue)
    requires
        s.len() == 3,
        value_view(s[0]) == a,
        value_view(s[1]) == b,
        value_view(s[2]) == c,
    ensures
        crate::bser::list_view(s) == seq![a, b, c],
{
    lemma_two_list_view(s.drop_first(), b, c);
    assert(crate::bser::list_view(s) =~= seq![a, b, c]);
}

/// Response selectors of the daemon protocol. A response frame is
/// `[RESP_ACK]`, `[RESP_ERROR, message]`, or — pushed unsolicited on
/// the same connection — `[RESP_NOTIFY, records]` where each record
/// is the array `[path, exists, mtime]`.
pub const RESP_ACK: i64 = 0;

pub const RESP_ERROR: i64 = 1;

pub const RESP_NOTIFY: i64 = 2;

/// A daemon response, interpreted: an acknowledgement, an error
/// string, or a notification payload of change records.
#[derive(Debug)]
pub enum DaemonMsg {
    Ack,
    ErrorText(Vec<u8>),
    Notification(Vec<DaemonRecord>),
}

/// The mathematical shape of an interpreted response.
pub enum SpecMsg {
    Ack,
    ErrorText(Seq<u8>),
    Notification(Seq<(Seq<u8>, bool, u64)>),
}

pub open spec fn rec_view(r: DaemonRecord) -> (Seq<u8>, bool, u64) {
    (r.path@, r.exists, r.mtime)
}

pub open spec fn recs_view(s: Seq<DaemonRecord>) -> Seq<(Seq<u8>, bool, u64)> {
    s.map_values(|r: DaemonRecord| rec_view(r))
}

pub open spec fn msg_view(m: DaemonMsg) -> SpecMsg {
    match m {
        DaemonMsg::Ack => SpecMsg::Ack,
        DaemonMsg::ErrorText(s) => SpecMsg::ErrorText(s@),
        DaemonMsg::Notification(rs) => SpecMsg::Notification(recs_view(rs@)),
    }
}

/// How one record of a notification payload reads: the array
/// `[path, exists, mtime]` with a non-negative time, and nothing
/// else.
pub open spec fn spec_parse_rec(v: SpecValue) -> Option<(Seq<u8>, bool, u64)> {
    match v {
        SpecValue::Array(fields) => if fields.len() == 3 {
            match (fields[0], fields[1], fields[2]) {
                (SpecValue::Str(p), SpecValue::Bool(e), SpecValue::Int(m)) => if m >= 0 {
                    Some((p, e, m as u64))
                } else {
                    None
                },
                _ => None,
            }
        } else {
            None
        },
        _ => None,
    }
}

pub open spec fn spec_parse_recs(vs: Seq<SpecValue>) -> Option<Seq<(Seq<u8>, bool, u64)>>
    decreases vs.len(),
{
    if vs.len() == 0 {
        Some(Seq::empty())
    } else {
        match (spec_parse_rec(vs[0]), spec_parse_recs(vs.drop_first())) {
            (Some(r), Some(rs)) => Some(seq![r] + rs),
            _ => None,
        }
    }
}

/// How a whole response frame reads; anything outside the three
/// shapes is a protocol error, which the caller treats as fatal.
pub open spec fn spec_interpret(v: SpecValue) -> Option<SpecMsg> {
    match v {
        SpecValue::Array(items) => if items.len() == 1 && items[0] == SpecValue::Int(RESP_ACK) {
            Some(SpecMsg::Ack)
        } else if items.len() == 2 && items[0] == SpecValue::Int(RESP_ERROR) {
            match items[1] {
                SpecValue::Str(s) => Some(SpecMsg::ErrorText(s)),
                _ => None,
            }
        } else if items.len() == 2 && items[0] == SpecValue::Int(RESP_NOTIFY) {
            match items[1] {
                SpecValue::Array(recs) => match spec_parse_recs(recs) {
                    Some(rs) => Some(SpecMsg::Notification(rs)),
                    None => None,
                },
                _ => None,
            }
        } else {
            None
        },
        _ => None,
    }
}

/// If one record of a payload is malformed the whole payload is.
proof fn lemma_parse_recs_fail(vs: Seq<SpecValue>, at: int)
    requires
        0 <= at < vs.len(),
        spec_parse_rec(vs[at]) is None,
    ensures
        spec_parse_recs(vs) is None,
    decreases vs.len(),
{
    if at > 0 {
        lemma_parse_recs_fail(vs.drop_first(), at - 1);
    }
}

/// A payload whose records all read is read record by record.
proof fn lemma_parse_recs_all(vs: Seq<SpecValue>, rs: Seq<(Seq<u8>, bool, u64)>)
    requires
        vs.len() == rs.len(),
        forall|j: int| 0 <= j < vs.len() ==> spec_parse_rec(#[trigger] vs[j]) == Some(rs[j]),
    ensures
        spec_parse_recs(vs) == Some(rs),
    decreases vs.len(),
{
    if vs.len() == 0 {
        assert(rs =~= Seq::<(Seq<u8>, bool, u64)>::empty());
    } else {
        assert(forall|j: int|
            0 <= j < vs.drop_first().len() ==> spec_parse_rec(#[trigger] vs.drop_first()[j])
                == Some(rs.drop_first()[j]));
        lemma_parse_recs_all(vs.drop_first(), rs.drop_first());
        assert(seq![rs[0]] + rs.drop_first() =~= rs);
    }
}

/// Reads one record value.
fn parse_record(v: &Value) -> (r: Option<DaemonRecord>)
    ensures
        match r {
            Some(rec) => spec_parse_rec(value_view(*v)) == Some(rec_view(rec)),
            None => spec_parse_rec(value_view(*v)) is None,
        },
{
    match v {
        Value::Array(fields) => {
            if fields.len() != 3 {
                proof {
                    crate::bser::lemma_list_view_len(fields@);
                }
                return None;
            }
            proof {
                crate::bser::lemma_list_view_index(fields@, 0);
                crate::bser::lemma_list_view_index(fields@, 1);
                crate::bser::lemma_list_view_index(fields@, 2);
            }
            match (&fields[0], &fields[1], &fields[2]) {
                (Value::Str(p), Value::Bool(e), Value::Int(m)) => {
                    if *m >= 0 {
                        Some(DaemonRecord { path: p.clone(), exists: *e, mtime: *m as u64 })
                    } else {
                        None
                    }
                },
                _ => {
                    proof {
                        match fields@[0] {
                            Value::Null => {},
                            Value::Bool(_) => {},
                            Value::Int(_) => {},
                            Value::Str(_) => {},
                            Value::Array(_) => {},
                            Value::Object(_) => {},
                        }
                        match fields@[1] {
                            Value::Null => {},
                            Value::Bool(_) => {},
                            Value::Int(_) => {},
                            Value::Str(_) => {},
                            Value::Array(_) => {},
                            Value::Object(_) => {},
                        }
                        match fields@[2] {
                            Value::Null => {},
                            Value::Bool(_) => {},
                            Value::Int(_) => {},
                            Value::Str(_) => {},
                            Value::Array(_) => {},
                            Value::Object(_) => {},
                        }
                    }
                    None
                },
            }
        },
        _ => None,
    }
}

/// Interprets a decoded response frame, or reports it malformed.
pub fn interpret_frame(v: &Value) -> (r: Option<DaemonMsg>)
    ensures
        match r {
            Some(msg) => spec_interpret(value_view(*v)) == Some(msg_view(msg)),
            None => spec_interpret(value_view(*v)) is None,
        },
{
    match v {
        Value::Array(items) => {
            let ghost iv = crate::bser::list_view(items@);
            if items.len() == 0 {
                proof {
                    assert(iv =~= Seq::<SpecValue>::empty());
                }
                return None;
            }
            proof {
                crate::bser::lemma_list_view_index(items@, 0);
            }
            let code = match &items[0] {
                Value::Int(c) => *c,
                _ => {
                    proof {
                        match items@[0] {
                            Value::Null => {},
                            Value::Bool(_) => {},
                            Value::Int(_) => {},
                            Value::Str(_) => {},
                            Value::Array(_) => {},
                            Value::Object(_) => {},
                        }
                    }
                    return None;
                },
            };
            if code == RESP_ACK && items.len() == 1 {
                Some(DaemonMsg::Ack)
            } else if code == RESP_ERROR && items.len() == 2 {
                proof {
                    crate::bser::lemma_list_view_index(items@, 1);
                }
                match &items[1] {
                    Value::Str(s) => Some(DaemonMsg::ErrorText(s.clone())),
                    _ => {
                        proof {
                            match items@[1] {
                                Value::Null => {},
                                Value::Bool(_) => {},
                                Value::Int(_) => {},
                                Value::Str(_) => {},
                                Value::Array(_) => {},
                                Value::Object(_) => {},
                            }
                        }
                        None
                    },
                }
            } else if code == RESP_NOTIFY && items.len() == 2 {
                proof {
                    crate::bser::lemma_list_view_index(items@, 1);
                }
                match &items[1] {
                    Value::Array(recs) => {
                        let ghost rv = crate::bser::list_view(recs@);
                        proof {
                            crate::bser::lemma_list_view_len(recs@);
                            assert(iv[1] == SpecValue::Array(rv));
                        }
                        let mut parsed: Vec<DaemonRecord> = Vec::new();
                        let mut k: usize = 0;
                        while k < recs.len()
                            invariant
                                k <= recs@.len(),
                                rv == crate::bser::list_view(recs@),
                                rv.len() == recs@.len(),
                                iv.len() == 2,
                                iv[0] == SpecValue::Int(RESP_NOTIFY),
                                iv[1] == SpecValue::Array(rv),
                                value_view(*v) == SpecValue::Array(iv),
                                parsed@.len() == k,
                                forall|j: int|
                                    0 <= j < k ==> spec_parse_rec(#[trigger] rv[j]) == Some(
                                        recs_view(parsed@)[j],
                                    ),
                            decreases recs@.len() - k,
                        {
                            proof {
                                crate::bser::lemma_list_view_index(recs@, k as int);
                            }
                            match parse_record(&recs[k]) {
                                Some(rec) => {
                                    parsed.push(rec);
                                },
                                None => {
                                    proof {
                                        lemma_parse_recs_fail(rv, k as int);
                                    }
                                    return None;
                                },
                            }
                            k += 1;
                        }
                        proof {
                            lemma_parse_recs_all(rv, recs_view(parsed@));
                        }
                        Some(DaemonMsg::Notification(parsed))
                    },
                    _ => {
                        proof {
                            match items@[1] {
                                Value::Null => {},
                                Value::Bool(_) => {},
                                Value::Int(_) => {},
                                Value::Str(_) => {},
                                Value::Array(_) => {},
                                Value::Object(_) => {},
                            }
                        }
                        None
                    },
                }
            } else {
                None
            }
        },
        _ => {
            proof {
                match *v {
                    Value::Null => {},
                    Value::Bool(_) => {},
                    Value::Int(_) => {},
                    Value::Str(_) => {},
                    Value::Array(_) => {},
                    Value::Object(_) => {},
                }
            }
            None
        },
    }
}

/// One change record from a daemon notification frame: a path, does
/// it still exist, and its modification time.
#[derive(Clone, Debug)]
pub struct DaemonRecord {
    pub path: Vec<u8>,
    pub exists: bool,
    pub mtime: u64,
}

/// The daemon client's per-root memory: which paths the daemon has
/// reported as existing. It decides how an existence flag reads: a
/// vanished path was deleted, a known one updated, a fresh one
/// created.
pub struct DaemonState {
    pub known: Vec<Vec<u8>>,
}

pub open spec fn known_has(known: Seq<Vec<u8>>, p: Seq<u8>) -> bool {
    exists|i: int| 0 <= i < known.len() && known[i]@ == p
}

impl DaemonState {
    pub open spec fn wf(self) -> bool {
        forall|i: int, j: int| 0 <= i < j < self.known@.len() ==> self.known@[i]@ != self.known@[j]@
    }

    pub fn new() -> (r: DaemonState)
        ensures
            r.wf(),
            r.known@.len() == 0,
    {
        DaemonState { known: Vec::new() }
    }

    /// Reads one record into the event it stands for, updating the
    /// memory: existence of an unknown path is a creation and is
    /// remembered; existence of a known path is an update; a
    /// non-existent path is a deletion and is forgotten.
    pub fn apply_record(&mut self, rec: &DaemonRecord) -> (ev: Event)
        requires
            old(self).wf(),
        ensures
            final(self).wf(),
            ev.path@ == rec.path@,
            rec.exists && !known_has(old(self).known@, rec.path@) ==> ev.ty == EventType::Created
                && known_has(final(self).known@, rec.path@),
            rec.exists && known_has(old(self).known@, rec.path@) ==> ev.ty == EventType::Updated
                && known_has(final(self).known@, rec.path@),
            !rec.exists ==> ev.ty == EventType::Deleted && !known_has(final(self).known@, rec.path@),
    {
        if rec.exists {
            let mut i: usize = 0;
            while i < self.known.len()
                invariant
                    rec.exists,
                    i <= self.known@.len(),
                    old(self).wf(),
                    self.known@ == old(self).known@,
                    forall|j: int| 0 <= j < i ==> self.known@[j]@ != rec.path@,
                decreases self.known@.len() - i,
            {
                if bytes_eq(&self.known[i], &rec.path) {
                    return Event { path: rec.path.clone(), ty: EventType::Updated };
                }
                i += 1;
            }
            self.known.push(rec.path.clone());
            proof {
                assert(self.known@[self.known@.len() - 1]@ == rec.path@);
                assert forall|a: int, b: int|
                    0 <= a < b < self.known@.len() implies self.known@[a]@ != self.known@[b]@ by {
                    if b < self.known@.len() - 1 {
                        assert(old(self).known@[a]@ != old(self).known@[b]@);
                    }
                }
            }
            Event { path: rec.path.clone(), ty: EventType::Created }
        } else {
            let mut i: usize = 0;
            let mut found = false;
            let mut at: usize = 0;
            while i < self.known.len()
                invariant
                    !rec.exists,
                    i <= self.known@.len(),
                    old(self).wf(),
                    self.known@ == old(self).known@,
                    !found ==> forall|j: int| 0 <= j < i ==> self.known@[j]@ != rec.path@,
                    found ==> at < self.known@.len() && self.known@[at as int]@ == rec.path@,
                decreases self.known@.len() - i,
            {
                if !found && bytes_eq(&self.known[i], &rec.path) {
                    found = true;
                    at = i;
                }
                i += 1;
            }
            if found {
                self.known.remove(at);
                proof {
                    assert forall|j: int|
                        0 <= j < self.known@.len() implies self.known@[j]@ != rec.path@ by {
                        if j < at {
                            assert(old(self).known@[j]@ != old(self).known@[at as int]@);
                        } else {
                            assert(old(self).known@[at as int]@ != old(self).known@[j + 1]@);
                        }
                    }
                    assert forall|a: int, b: int|
                        0 <= a < b < self.known@.len() implies self.known@[a]@
                        != self.known@[b]@ by {
                        let aa = if a < at {
                            a
                        } else {
                            a + 1
                        };
                        let bb = if b < at {
                            b
                        } else {
                            b + 1
                        };
                        assert(old(self).known@[aa]@ != old(self).known@[bb]@);
                    }
                }
            }
            Event { path: rec.path.clone(), ty: EventType::Deleted }
        }
    }

    /// Reads a whole notification payload, in order.
    pub fn apply_records(&mut self, recs: &Vec<DaemonRecord>) -> (out: Vec<Event>)
        requires
            old(self).wf(),
        ensures
            final(self).wf(),
            out@.len() == recs@.len(),
            forall|i: int| 0 <= i < out@.len() ==> (#[trigger] out@[i]).path@ == recs@[i].path@,
    {
        let mut out: Vec<Event> = Vec::new();
        let mut i: usize = 0;
        while i < recs.len()
            invariant
                i <= recs@.len(),
                self.wf(),
                out@.len() == i,
                forall|j: int| 0 <= j < i ==> (#[trigger] out@[j]).path@ == recs@[j].path@,
            decreases recs@.len() - i,
        {
            let ev = self.apply_record(&recs[i]);
            out.push(ev);
            i += 1;
        }
        out
    }
}

} // verus!
