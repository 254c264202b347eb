//! Time-windowed event coalescing: repeated notifications for one path
//! within a window collapse into the last meaningful state transition,
//! and a flush emits exactly one event per pending path.

use vstd::prelude::*;

use crate::Event;
use crate::EventType;
use crate::util::bytes_eq;

verus! {

/// How a kind already pending for a path combines with a newly
/// observed kind: a deletion always wins; an update after a creation
/// is still a creation (the file is new within the window); a
/// creation after a deletion means the path was replaced, which
/// downstream is an update.
pub open spec fn coalesce(prev: EventType, next: EventType) -> EventType {
    match next {
        EventType::Deleted => EventType::Deleted,
        EventType::Created => if prev == EventType::Deleted {
            EventType::Updated
        } else {
            prev
        },
        EventType::Updated => if prev == EventType::Created {
            EventType::Created
        } else {
            EventType::Updated
        },
    }
}

/// What `record` does to the pending map, as a sequence of
/// (path, kind) pairs in first-seen order.
pub open spec fn spec_record(m: Seq<(Seq<u8>, EventType)>, p: Seq<u8>, k: EventType) -> Seq<
    (Seq<u8>, EventType),
>
    decreases m.len(),
{
    if m.len() == 0 {
        seq![(p, k)]
    } else if m[0].0 == p {
        seq![(p, coalesce(m[0].1, k))] + m.drop_first()
    } else {
        seq![m[0]] + spec_record(m.drop_first(), p, k)
    }
}

/// Pending coalesced events, one entry per path, in first-seen order.
pub struct Debouncer {
    pending: Vec<(Vec<u8>, EventType)>,
}

impl Debouncer {
    /// The pending map as ghost data.
    pub closed spec fn view(self) -> Seq<(Seq<u8>, EventType)> {
        self.pending@.map_values(|e: (Vec<u8>, EventType)| (e.0@, e.1))
    }

    /// No path occurs twice among the pending entries.
    pub open spec fn wf(self) -> bool {
        forall|i: int, j: int|
            0 <= i < j < self@.len() ==> self@[i].0 != self@[j].0
    }

    pub fn new() -> (r: Debouncer)
        ensures
            r.wf(),
            r@.len() == 0,
    {
        Debouncer { pending: Vec::new() }
    }

    /// Fold one observed event into the pending state: a path not yet
    /// pending is appended with its kind; a pending path keeps its
    /// place and its kind is coalesced with the new one.
    pub fn record(&mut self, path: &Vec<u8>, ty: EventType)
        requires
            old(self).wf(),
        ensures
            final(self).wf(),
            final(self)@ == spec_record(old(self)@, path@, ty),
    {
        let ghost m0 = old(self)@;
        let mut i: usize = 0;
        while i < self.pending.len()
            invariant
                self.wf(),
                i <= self.pending.len(),
                m0 == old(self)@,
                self@ == m0,
                forall|j: int| 0 <= j < i ==> self@[j].0 != path@,
            decreases self.pending.len() - i,
        {
            if bytes_eq(&self.pending[i].0, path) {
                let prev = self.pending[i].1;
                self.pending[i].1 = coalesce_exec(prev, ty);
                proof {
                    lemma_record_found(m0, path@, ty, i as int);
                    assert(self@ =~= m0.update(i as int, (path@, coalesce(m0[i as int].1, ty))));
                    assert(self@ == spec_record(m0, path@, ty));
                }
                return;
            }
            i += 1;
        }
        self.pending.push((path.clone(), ty));
        proof {
            lemma_record_absent(m0, path@, ty);
            assert(self@ =~= spec_record(m0, path@, ty));
        }
    }

    /// Emit every pending path as one event, in first-seen order, and
    /// clear the state: nothing pending survives a flush.
    pub fn flush(&mut self) -> (batch: Vec<Event>)
        requires
            old(self).wf(),
        ensures
            final(self).wf(),
            final(self)@.len() == 0,
            batch@.len() == old(self)@.len(),
            forall|i: int|
                0 <= i < batch@.len() ==> #[trigger] batch@[i].is(
                    old(self)@[i].0,
                    old(self)@[i].1,
                ),
    {
        let ghost m0 = old(self)@;
        let mut batch: Vec<Event> = Vec::new();
        let mut i: usize = 0;
        while i < self.pending.len()
            invariant
                i <= self.pending.len(),
                m0 == old(self)@,
                self@ == m0,
                batch@.len() == i,
                forall|j: int|
                    0 <= j < i ==> #[trigger] batch@[j].is(m0[j].0, m0[j].1),
            decreases self.pending.len() - i,
        {
            let e = Event { path: self.pending[i].0.clone(), ty: self.pending[i].1 };
            batch.push(e);
            i += 1;
        }
        self.pending = Vec::new();
        batch
    }
}

/// Executable twin of `coalesce`.
pub fn coalesce_exec(prev: EventType, next: EventType) -> (r: EventType)
    ensures
        r == coalesce(prev, next),
{
    match next {
        EventType::Deleted => EventType::Deleted,
        EventType::Created => if prev == EventType::Deleted {
            EventType::Updated
        } else {
            prev
        },
        EventType::Updated => if prev == EventType::Created {
            EventType::Created
        } else {
            EventType::Updated
        },
    }
}

/// When the path is pending at position `at`, `spec_record` updates
/// exactly that entry in place.
proof fn lemma_record_found(m: Seq<(Seq<u8>, EventType)>, p: Seq<u8>, k: EventType, at: int)
    requires
        0 <= at < m.len(),
        m[at].0 == p,
        forall|i: int, j: int| 0 <= i < j < m.len() ==> m[i].0 != m[j].0,
        forall|j: int| 0 <= j < at ==> m[j].0 != p,
    ensures
        spec_record(m, p, k) =~= m.update(at, (p, coalesce(m[at].1, k))),
    decreases m.len(),
{
    if at == 0 {
        assert(spec_record(m, p, k) == seq![(p, coalesce(m[0].1, k))] + m.drop_first());
    } else {
        lemma_record_found(m.drop_first(), p, k, at - 1);
        assert(spec_record(m, p, k) == seq![m[0]] + spec_record(m.drop_first(), p, k));
        assert(m.update(at, (p, coalesce(m[at].1, k))).drop_first() =~= m.drop_first().update(
            at - 1,
            (p, coalesce(m[at].1, k)),
        ));
    }
}

/// When the path is not pending, `spec_record` appends a fresh entry.
proof fn lemma_record_absent(m: Seq<(Seq<u8>, EventType)>, p: Seq<u8>, k: EventType)
    requires
        forall|j: int| 0 <= j < m.len() ==> m[j].0 != p,
    ensures
        spec_record(m, p, k) =~= m + seq![(p, k)],
    decreases m.len(),
{
    if m.len() > 0 {
        lemma_record_absent(m.drop_first(), p, k);
        assert((m + seq![(p, k)]).drop_first() =~= m.drop_first() + seq![(p, k)]);
    }
}

/// Within one window, a creation followed by an update still leaves a
/// single pending creation, and any kind followed by a deletion leaves
/// a single pending deletion; a flush then emits exactly that one
/// event for the path.
pub proof fn lemma_debounce_coalescing(p: Seq<u8>, first: EventType)
    ensures
        spec_record(spec_record(Seq::empty(), p, EventType::Created), p, EventType::Updated)
            =~= seq![(p, EventType::Created)],
        spec_record(spec_record(Seq::empty(), p, first), p, EventType::Deleted)
            =~= seq![(p, EventType::Deleted)],
{
    let one = spec_record(Seq::empty(), p, EventType::Created);
    assert(one =~= seq![(p, EventType::Created)]);
    let onef = spec_record(Seq::empty(), p, first);
    assert(onef =~= seq![(p, first)]);
}

} // verus!
