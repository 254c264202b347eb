//! The dispatcher's registry: one entry per watched root, holding the
//! chosen backend kind, the subscriber tokens and the root's pending
//! debounce state. Subscribing to a watched path joins the existing
//! entry; the backend is started only for a fresh root and stopped
//! exactly when the last subscriber leaves.

use vstd::prelude::*;

use crate::Event;
use crate::backend::BackendKind;
use crate::debounce::Debouncer;
use crate::util::bytes_eq;

verus! {

/// One watched root: its path, the backend watching it, who listens,
/// and the pending coalesced events.
pub struct WatchedRoot {
    pub path: Vec<u8>,
    pub backend: BackendKind,
    pub subscribers: Vec<u64>,
    pub debounce: Debouncer,
}

/// The registry of watched roots, and the next subscription token to
/// hand out.
pub struct Registry {
    pub roots: Vec<WatchedRoot>,
    pub next_token: u64,
}

/// The registry's ghost shape: for each root its path and its
/// subscriber tokens, in order.
pub open spec fn reg_view(roots: Seq<WatchedRoot>) -> Seq<(Seq<u8>, Seq<u64>)> {
    roots.map_values(|r: WatchedRoot| (r.path@, r.subscribers@))
}

/// The model lists the path.
pub open spec fn m_has(m: Seq<(Seq<u8>, Seq<u64>)>, p: Seq<u8>) -> bool {
    exists|i: int| 0 <= i < m.len() && m[i].0 == p
}

/// The subscriber tokens of a listed path.
pub open spec fn m_subs(m: Seq<(Seq<u8>, Seq<u64>)>, p: Seq<u8>) -> Seq<u64> {
    m[choose|i: int| 0 <= i < m.len() && m[i].0 == p].1
}

/// What subscribing does to the model: a listed path gains the token,
/// a fresh path gains an entry with just it.
pub open spec fn spec_subscribe(m: Seq<(Seq<u8>, Seq<u64>)>, p: Seq<u8>, tok: u64) -> Seq<
    (Seq<u8>, Seq<u64>),
>
    decreases m.len(),
{
    if m.len() == 0 {
        seq![(p, seq![tok])]
    } else if m[0].0 == p {
        seq![(p, m[0].1.push(tok))] + m.drop_first()
    } else {
        seq![m[0]] + spec_subscribe(m.drop_first(), p, tok)
    }
}

/// Removes the first occurrence of a token.
pub open spec fn seq_remove(s: Seq<u64>, tok: u64) -> Seq<u64>
    decreases s.len(),
{
    if s.len() == 0 {
        s
    } else if s[0] == tok {
        s.drop_first()
    } else {
        seq![s[0]] + seq_remove(s.drop_first(), tok)
    }
}

/// What unsubscribing does to the model: the token leaves its root's
/// entry, and an emptied entry leaves the registry.
pub open spec fn spec_unsubscribe(m: Seq<(Seq<u8>, Seq<u64>)>, p: Seq<u8>, tok: u64) -> Seq<
    (Seq<u8>, Seq<u64>),
>
    decreases m.len(),
{
    if m.len() == 0 {
        m
    } else if m[0].0 == p {
        let ns = seq_remove(m[0].1, tok);
        if ns.len() == 0 {
            m.drop_first()
        } else {
            seq![(p, ns)] + m.drop_first()
        }
    } else {
        seq![m[0]] + spec_unsubscribe(m.drop_first(), p, tok)
    }
}

/// Whether this unsubscription empties its root, which is exactly
/// when the backend must stop.
pub open spec fn spec_stops(m: Seq<(Seq<u8>, Seq<u64>)>, p: Seq<u8>, tok: u64) -> bool
    decreases m.len(),
{
    if m.len() == 0 {
        false
    } else if m[0].0 == p {
        seq_remove(m[0].1, tok).len() == 0
    } else {
        spec_stops(m.drop_first(), p, tok)
    }
}

impl Registry {
    pub open spec fn view(self) -> Seq<(Seq<u8>, Seq<u64>)> {
        reg_view(self.roots@)
    }

    /// Distinct root paths; every root has a subscriber; tokens are
    /// distinct within a root and below the next one to hand out;
    /// every root's debounce state is well formed.
    pub open spec fn wf(self) -> bool {
        &&& forall|i: int, j: int|
            0 <= i < j < self.roots@.len() ==> self.roots@[i].path@ != self.roots@[j].path@
        &&& forall|i: int|
            0 <= i < self.roots@.len() ==> (#[trigger] self.roots@[i].subscribers@).len() >= 1
        &&& forall|i: int, a: int, b: int|
            0 <= i < self.roots@.len() && 0 <= a < b < self.roots@[i].subscribers@.len()
                ==> self.roots@[i].subscribers@[a] != self.roots@[i].subscribers@[b]
        &&& forall|i: int, a: int|
            0 <= i < self.roots@.len() && 0 <= a < self.roots@[i].subscribers@.len()
                ==> #[trigger] self.roots@[i].subscribers@[a] < self.next_token
        &&& forall|i: int| 0 <= i < self.roots@.len() ==> (#[trigger] self.roots@[i]).debounce.wf()
    }

    pub fn new() -> (r: Registry)
        ensures
            r.wf(),
            r@.len() == 0,
    {
        Registry { roots: Vec::new(), next_token: 0 }
    }

    /// Registers a subscriber for a root. Returns the subscription
    /// token and whether the root is fresh — exactly then the caller
    /// must start a backend of the returned entry's kind.
    pub fn subscribe(&mut self, path: &Vec<u8>, backend: BackendKind) -> (r: (u64, bool))
        requires
            old(self).wf(),
            old(self).next_token < 0xffff_ffff_ffff_ffff,
        ensures
            final(self).wf(),
            final(self)@ == spec_subscribe(old(self)@, path@, old(self).next_token),
            r.0 == old(self).next_token,
            final(self).next_token == old(self).next_token + 1,
            r.1 == !m_has(old(self)@, path@),
    {
        let ghost m0 = old(self)@;
        let token = self.next_token;
        self.next_token = self.next_token + 1;
        let mut i: usize = 0;
        while i < self.roots.len()
            invariant
                m0 == old(self)@,
                i <= self.roots@.len(),
                reg_view(self.roots@) == m0,
                self.next_token == old(self).next_token + 1,
                token == old(self).next_token,
                old(self).wf(),
                self.roots@ == old(self).roots@,
                forall|j: int| 0 <= j < i ==> m0[j].0 != path@,
            decreases self.roots@.len() - i,
        {
            if bytes_eq(&self.roots[i].path, path) {
                proof {
                    assert(m0[i as int] == (self.roots@[i as int].path@,
                        self.roots@[i as int].subscribers@));
                    assert(m0[i as int].0 == path@);
                }
                self.roots[i].subscribers.push(token);
                proof {
                    lemma_subscribe_found(m0, path@, token, i as int);
                    assert(reg_view(self.roots@) =~= m0.update(
                        i as int,
                        (path@, m0[i as int].1.push(token)),
                    ));
                    assert(m_has(m0, path@));
                }
                return (token, false);
            }
            i += 1;
        }
        let root = WatchedRoot {
            path: path.clone(),
            backend,
            subscribers: vec_of_one(token),
            debounce: Debouncer::new(),
        };
        self.roots.push(root);
        proof {
            assert forall|j: int| 0 <= j < old(self).roots@.len() implies old(
                self,
            ).roots@[j].path@ != path@ by {
                assert(m0[j] == (old(self).roots@[j].path@, old(self).roots@[j].subscribers@));
            }
            lemma_subscribe_absent(m0, path@, token);
            assert(reg_view(self.roots@) =~= m0 + seq![(path@, seq![token])]);
            if m_has(m0, path@) {
                let w = choose|w: int| 0 <= w < m0.len() && m0[w].0 == path@;
                assert(false);
            }
        }
        (token, true)
    }

    /// Removes a subscriber from a root. Returns whether the root's
    /// subscriber set became empty — exactly then the caller must
    /// stop the root's backend, and only then. Unknown paths and
    /// tokens change nothing, so a second call is harmless.
    pub fn unsubscribe(&mut self, path: &Vec<u8>, token: u64) -> (stopped: bool)
        requires
            old(self).wf(),
        ensures
            final(self).wf(),
            final(self)@ == spec_unsubscribe(old(self)@, path@, token),
            stopped == spec_stops(old(self)@, path@, token),
            final(self).next_token == old(self).next_token,
    {
        let ghost m0 = old(self)@;
        let mut i: usize = 0;
        while i < self.roots.len()
            invariant
                m0 == old(self)@,
                i <= self.roots@.len(),
                reg_view(self.roots@) == m0,
                self.roots@ == old(self).roots@,
                self.next_token == old(self).next_token,
                old(self).wf(),
                forall|j: int| 0 <= j < i ==> m0[j].0 != path@,
            decreases self.roots@.len() - i,
        {
            if bytes_eq(&self.roots[i].path, path) {
                let ghost subs0 = self.roots@[i as int].subscribers@;
                proof {
                    assert(m0[i as int] == (self.roots@[i as int].path@, subs0));
                    assert(m0[i as int].0 == path@);
                    assert(m0[i as int].1 == subs0);
                }
                let mut k: usize = 0;
                let mut found = false;
                let mut kf: usize = 0;
                while k < self.roots[i].subscribers.len()
                    invariant
                        i < self.roots@.len(),
                        k <= self.roots@[i as int].subscribers@.len(),
                        subs0 == self.roots@[i as int].subscribers@,
                        self.roots@ == old(self).roots@,
                        !found ==> forall|j: int| 0 <= j < k ==> subs0[j] != token,
                        found ==> kf < k && subs0[kf as int] == token,
                    decreases self.roots@[i as int].subscribers@.len() - k,
                {
                    if !found && self.roots[i].subscribers[k] == token {
                        found = true;
                        kf = k;
                    }
                    k += 1;
                }
                if !found {
                    proof {
                        lemma_seq_remove_absent(subs0, token);
                        lemma_unsubscribe_found(m0, path@, token, i as int);
                        assert((path@, subs0) == m0[i as int]);
                        assert(m0.update(i as int, (path@, seq_remove(subs0, token))) =~= m0);
                        assert(spec_unsubscribe(m0, path@, token) =~= m0);
                    }
                    return false;
                }
                self.roots[i].subscribers.remove(kf);
                proof {
                    lemma_unsubscribe_found(m0, path@, token, i as int);
                    lemma_seq_remove_at(subs0, token, kf as int);
                }
                if self.roots[i].subscribers.len() == 0 {
                    self.roots.remove(i);
                    proof {
                        assert(reg_view(self.roots@) =~= m0.remove(i as int));
                        assert(spec_unsubscribe(m0, path@, token) =~= m0.remove(i as int));
                    }
                    return true;
                }
                proof {
                    assert(reg_view(self.roots@) =~= m0.update(
                        i as int,
                        (path@, seq_remove(subs0, token)),
                    ));
                    assert(spec_unsubscribe(m0, path@, token) =~= reg_view(self.roots@));
                }
                return false;
            }
            i += 1;
        }
        proof {
            lemma_unsubscribe_absent(m0, path@, token);
        }
        false
    }

    /// Folds one normalized event into the debounce state of its
    /// root — the one coalescer every event for that root passes
    /// through. An event for an unwatched path changes nothing.
    pub fn note_event(&mut self, root: &Vec<u8>, evpath: &Vec<u8>, ty: crate::EventType)
        requires
            old(self).wf(),
        ensures
            final(self).wf(),
            final(self)@ == old(self)@,
            final(self).next_token == old(self).next_token,
            final(self).roots@.len() == old(self).roots@.len(),
            forall|i: int|
                0 <= i < old(self).roots@.len() && old(self).roots@[i].path@ != root@
                    ==> (#[trigger] final(self).roots@[i]).debounce@ == old(
                    self,
                ).roots@[i].debounce@,
            forall|i: int|
                0 <= i < old(self).roots@.len() && old(self).roots@[i].path@ == root@
                    ==> (#[trigger] final(self).roots@[i]).debounce@ == crate::debounce::spec_record(
                    old(self).roots@[i].debounce@,
                    evpath@,
                    ty,
                ),
    {
        let ghost m0 = old(self)@;
        let mut i: usize = 0;
        while i < self.roots.len()
            invariant
                m0 == old(self)@,
                i <= self.roots@.len(),
                old(self).wf(),
                self.roots@ == old(self).roots@,
                self.next_token == old(self).next_token,
                forall|j: int| 0 <= j < i ==> old(self).roots@[j].path@ != root@,
            decreases self.roots@.len() - i,
        {
            if bytes_eq(&self.roots[i].path, root) {
                self.roots[i].debounce.record(evpath, ty);
                proof {
                    assert(reg_view(self.roots@) =~= m0);
                    assert forall|j: int|
                        0 <= j < old(self).roots@.len() && old(self).roots@[j].path@
                            != root@ implies (#[trigger] self.roots@[j]).debounce@ == old(
                        self,
                    ).roots@[j].debounce@ by {
                        assert(j != i as int);
                    }
                    assert forall|j: int|
                        0 <= j < old(self).roots@.len() && old(self).roots@[j].path@
                            == root@ implies (#[trigger] self.roots@[j]).debounce@
                        == crate::debounce::spec_record(
                        old(self).roots@[j].debounce@,
                        evpath@,
                        ty,
                    ) by {
                        if j != i as int {
                            if j < i as int {
                                assert(old(self).roots@[j].path@ != old(self).roots@[i as int].path@);
                            } else {
                                assert(old(self).roots@[i as int].path@ != old(self).roots@[j].path@);
                            }
                        }
                    }
                }
                return;
            }
            i += 1;
        }
    }

    /// Empties the debounce state of a root into one batch, exactly
    /// one event per pending path, in first-seen order: a flush at
    /// teardown loses nothing. An unwatched path yields nothing.
    pub fn flush_root(&mut self, root: &Vec<u8>) -> (batch: Vec<Event>)
        requires
            old(self).wf(),
        ensures
            final(self).wf(),
            final(self)@ == old(self)@,
            final(self).next_token == old(self).next_token,
            final(self).roots@.len() == old(self).roots@.len(),
            !m_has(old(self)@, root@) ==> batch@.len() == 0,
            forall|i: int|
                0 <= i < old(self).roots@.len() && old(self).roots@[i].path@ != root@
                    ==> (#[trigger] final(self).roots@[i]).debounce@ == old(
                    self,
                ).roots@[i].debounce@,
            forall|i: int|
                0 <= i < old(self).roots@.len() && old(self).roots@[i].path@ == root@ ==> {
                    &&& (#[trigger] final(self).roots@[i]).debounce@.len() == 0
                    &&& batch@.len() == old(self).roots@[i].debounce@.len()
                    &&& forall|j: int|
                        0 <= j < batch@.len() ==> (#[trigger] batch@[j]).is(
                            old(self).roots@[i].debounce@[j].0,
                            old(self).roots@[i].debounce@[j].1,
                        )
                },
    {
        let ghost m0 = old(self)@;
        let mut i: usize = 0;
        while i < self.roots.len()
            invariant
                m0 == old(self)@,
                i <= self.roots@.len(),
                old(self).wf(),
                self.roots@ == old(self).roots@,
                self.next_token == old(self).next_token,
                forall|j: int| 0 <= j < i ==> old(self).roots@[j].path@ != root@,
            decreases self.roots@.len() - i,
        {
            if bytes_eq(&self.roots[i].path, root) {
                let batch = self.roots[i].debounce.flush();
                proof {
                    assert(m0[i as int] == (old(self).roots@[i as int].path@,
                        old(self).roots@[i as int].subscribers@));
                    assert(m0[i as int].0 == root@);
                    assert(m_has(m0, root@));
                    assert(reg_view(self.roots@) =~= m0);
                    assert forall|j: int|
                        0 <= j < old(self).roots@.len() && old(self).roots@[j].path@
                            != root@ implies (#[trigger] self.roots@[j]).debounce@ == old(
                        self,
                    ).roots@[j].debounce@ by {
                        assert(j != i as int);
                    }
                    assert forall|j: int|
                        0 <= j < old(self).roots@.len() && old(self).roots@[j].path@
                            == root@ implies j == i as int by {
                        if j != i as int {
                            if j < i as int {
                                assert(old(self).roots@[j].path@ != old(self).roots@[i as int].path@);
                            } else {
                                assert(old(self).roots@[i as int].path@ != old(self).roots@[j].path@);
                            }
                        }
                    }
                }
                return batch;
            }
            i += 1;
        }
        proof {
            if m_has(m0, root@) {
                let w = choose|w: int| 0 <= w < m0.len() && m0[w].0 == root@;
                assert(m0[w] == (self.roots@[w].path@, self.roots@[w].subscribers@));
                assert(false);
            }
        }
        Vec::new()
    }

    /// Removes a subscriber and first flushes the root's pending
    /// debounce state into the returned batch, so no coalesced event
    /// is silently dropped at teardown. The flag says whether the
    /// root's subscriber set emptied — exactly then the caller must
    /// stop the backend.
    pub fn unsubscribe_flushing(&mut self, path: &Vec<u8>, token: u64) -> (r: (bool, Vec<Event>))
        requires
            old(self).wf(),
        ensures
            final(self).wf(),
            final(self)@ == spec_unsubscribe(old(self)@, path@, token),
            r.0 == spec_stops(old(self)@, path@, token),
            final(self).next_token == old(self).next_token,
            !m_has(old(self)@, path@) ==> r.1@.len() == 0,
            forall|i: int|
                0 <= i < old(self).roots@.len() && old(self).roots@[i].path@ == path@ ==> {
                    &&& r.1@.len() == old(self).roots@[i].debounce@.len()
                    &&& forall|j: int|
                        0 <= j < r.1@.len() ==> (#[trigger] r.1@[j]).is(
                            old(self).roots@[i].debounce@[j].0,
                            old(self).roots@[i].debounce@[j].1,
                        )
                },
    {
        let batch = self.flush_root(path);
        proof {
            assert forall|i: int|
                0 <= i < old(self).roots@.len() && old(self).roots@[i].path@ == path@ implies (
            batch@.len() == old(self).roots@[i].debounce@.len() && (forall|j: int|
                0 <= j < batch@.len() ==> (#[trigger] batch@[j]).is(
                    old(self).roots@[i].debounce@[j].0,
                    old(self).roots@[i].debounce@[j].1,
                ))) by {
                assert(self.roots@[i].debounce@.len() == 0);
            }
        }
        let stopped = self.unsubscribe(path, token);
        (stopped, batch)
    }

    /// Hands one batch to every subscriber of a root, in subscription
    /// order, each receiving an independent copy.
    pub fn deliver(&self, path: &Vec<u8>, batch: &Vec<Event>) -> (out: Vec<(u64, Vec<Event>)>)
        requires
            self.wf(),
        ensures
            !m_has(self@, path@) ==> out@.len() == 0,
            m_has(self@, path@) ==> {
                &&& out@.len() == m_subs(self@, path@).len()
                &&& forall|i: int|
                    0 <= i < out@.len() ==> (#[trigger] out@[i]).0 == m_subs(self@, path@)[i]
                &&& forall|i: int, j: int|
                    0 <= i < out@.len() && 0 <= j < batch@.len() ==> (#[trigger] out@[i].1@[j]).is(
                        batch@[j].path@,
                        batch@[j].ty,
                    )
                &&& forall|i: int| 0 <= i < out@.len() ==> (#[trigger] out@[i]).1@.len()
                    == batch@.len()
            },
    {
        let ghost m = self@;
        let mut out: Vec<(u64, Vec<Event>)> = Vec::new();
        let mut i: usize = 0;
        while i < self.roots.len()
            invariant
                m == self@,
                self.wf(),
                i <= self.roots@.len(),
                out@.len() == 0,
                forall|j: int| 0 <= j < i ==> m[j].0 != path@,
            decreases self.roots@.len() - i,
        {
            if bytes_eq(&self.roots[i].path, path) {
                proof {
                    assert(m[i as int] == (self.roots@[i as int].path@,
                        self.roots@[i as int].subscribers@));
                    assert(m[i as int].0 == path@);
                    assert(m_has(m, path@));
                    let w = choose|w: int| 0 <= w < m.len() && m[w].0 == path@;
                    if w != i as int {
                        assert(m[w].0 == m[i as int].0);
                        assert(self.roots@[w].path@ == self.roots@[i as int].path@);
                    }
                    assert(m_subs(m, path@) == m[i as int].1);
                }
                let subs = &self.roots[i].subscribers;
                let mut k: usize = 0;
                while k < subs.len()
                    invariant
                        i < self.roots@.len(),
                        subs@ == self.roots@[i as int].subscribers@,
                        k <= subs@.len(),
                        out@.len() == k,
                        forall|a: int| 0 <= a < k ==> (#[trigger] out@[a]).0 == subs@[a],
                        forall|a: int, j: int|
                            0 <= a < k && 0 <= j < batch@.len() ==> (#[trigger] out@[a].1@[j]).is(
                                batch@[j].path@,
                                batch@[j].ty,
                            ),
                        forall|a: int| 0 <= a < k ==> (#[trigger] out@[a]).1@.len() == batch@.len(),
                    decreases subs@.len() - k,
                {
                    let copy = copy_events(batch);
                    out.push((subs[k], copy));
                    k += 1;
                }
                return out;
            }
            i += 1;
        }
        proof {
            if m_has(m, path@) {
                let w = choose|w: int| 0 <= w < m.len() && m[w].0 == path@;
                assert(m[w] == (self.roots@[w].path@, self.roots@[w].subscribers@));
                assert(false);
            }
        }
        out
    }
}

/// A vector holding one token.
fn vec_of_one(tok: u64) -> (r: Vec<u64>)
    ensures
        r@ == seq![tok],
{
    let mut r: Vec<u64> = Vec::new();
    r.push(tok);
    proof {
        assert(r@ =~= seq![tok]);
    }
    r
}

/// An element-wise copy of a batch.
pub fn copy_events(batch: &Vec<Event>) -> (r: Vec<Event>)
    ensures
        r@.len() == batch@.len(),
        forall|j: int|
            0 <= j < batch@.len() ==> (#[trigger] r@[j]).is(batch@[j].path@, batch@[j].ty),
{
    let mut r: Vec<Event> = Vec::new();
    let mut j: usize = 0;
    while j < batch.len()
        invariant
            j <= batch@.len(),
            r@.len() == j,
            forall|a: int| 0 <= a < j ==> (#[trigger] r@[a]).is(batch@[a].path@, batch@[a].ty),
        decreases batch@.len() - j,
    {
        let e = Event { path: batch[j].path.clone(), ty: batch[j].ty };
        r.push(e);
        j += 1;
    }
    r
}

proof fn lemma_subscribe_found(m: Seq<(Seq<u8>, Seq<u64>)>, p: Seq<u8>, tok: u64, at: int)
    requires
        0 <= at < m.len(),
        m[at].0 == p,
        forall|j: int| 0 <= j < at ==> m[j].0 != p,
    ensures
        spec_subscribe(m, p, tok) =~= m.update(at, (p, m[at].1.push(tok))),
    decreases m.len(),
{
    if at == 0 {
    } else {
        lemma_subscribe_found(m.drop_first(), p, tok, at - 1);
        assert(m.update(at, (p, m[at].1.push(tok))).drop_first() =~= m.drop_first().update(
            at - 1,
            (p, m[at].1.push(tok)),
        ));
    }
}

proof fn lemma_subscribe_absent(m: Seq<(Seq<u8>, Seq<u64>)>, p: Seq<u8>, tok: u64)
    requires
        forall|j: int| 0 <= j < m.len() ==> m[j].0 != p,
    ensures
        spec_subscribe(m, p, tok) =~= m + seq![(p, seq![tok])],
    decreases m.len(),
{
    if m.len() > 0 {
        lemma_subscribe_absent(m.drop_first(), p, tok);
        assert((m + seq![(p, seq![tok])]).drop_first() =~= m.drop_first() + seq![(p, seq![tok])]);
    }
}

proof fn lemma_seq_remove_absent(s: Seq<u64>, tok: u64)
    requires
        forall|j: int| 0 <= j < s.len() ==> s[j] != tok,
    ensures
        seq_remove(s, tok) =~= s,
    decreases s.len(),
{
    if s.len() > 0 {
        lemma_seq_remove_absent(s.drop_first(), tok);
        assert(seq![s[0]] + s.drop_first() =~= s);
    }
}

/// Removing the token at its first position is dropping that index.
proof fn lemma_seq_remove_at(s: Seq<u64>, tok: u64, at: int)
    requires
        0 <= at < s.len(),
        s[at] == tok,
        forall|j: int| 0 <= j < at ==> s[j] != tok,
    ensures
        seq_remove(s, tok) =~= s.remove(at),
    decreases s.len(),
{
    if at == 0 {
        assert(s.drop_first() =~= s.remove(0));
    } else {
        lemma_seq_remove_at(s.drop_first(), tok, at - 1);
        assert(s.remove(at).drop_first() =~= s.drop_first().remove(at - 1));
        assert(seq![s[0]] + s.drop_first().remove(at - 1) =~= s.remove(at));
    }
}

proof fn lemma_unsubscribe_found(m: Seq<(Seq<u8>, Seq<u64>)>, p: Seq<u8>, tok: u64, at: int)
    requires
        0 <= at < m.len(),
        m[at].0 == p,
        forall|j: int| 0 <= j < at ==> m[j].0 != p,
    ensures
        seq_remove(m[at].1, tok).len() == 0 ==> spec_unsubscribe(m, p, tok) =~= m.remove(at),
        seq_remove(m[at].1, tok).len() != 0 ==> spec_unsubscribe(m, p, tok) =~= m.update(
            at,
            (p, seq_remove(m[at].1, tok)),
        ),
        spec_stops(m, p, tok) == (seq_remove(m[at].1, tok).len() == 0),
    decreases m.len(),
{
    if at == 0 {
        if seq_remove(m[0].1, tok).len() == 0 {
            assert(m.drop_first() =~= m.remove(0));
        } else {
            assert(seq![(p, seq_remove(m[0].1, tok))] + m.drop_first() =~= m.update(
                0,
                (p, seq_remove(m[0].1, tok)),
            ));
        }
    } else {
        lemma_unsubscribe_found(m.drop_first(), p, tok, at - 1);
        if seq_remove(m[at].1, tok).len() == 0 {
            assert(m.remove(at).drop_first() =~= m.drop_first().remove(at - 1));
            assert(seq![m[0]] + m.drop_first().remove(at - 1) =~= m.remove(at));
        } else {
            assert(m.update(at, (p, seq_remove(m[at].1, tok))).drop_first() =~= m.drop_first()
                .update(at - 1, (p, seq_remove(m[at].1, tok))));
            assert(seq![m[0]] + m.drop_first().update(at - 1, (p, seq_remove(m[at].1, tok)))
                =~= m.update(at, (p, seq_remove(m[at].1, tok))));
        }
    }
}

proof fn lemma_unsubscribe_absent(m: Seq<(Seq<u8>, Seq<u64>)>, p: Seq<u8>, tok: u64)
    requires
        forall|j: int| 0 <= j < m.len() ==> m[j].0 != p,
    ensures
        spec_unsubscribe(m, p, tok) =~= m,
        !spec_stops(m, p, tok),
    decreases m.len(),
{
    if m.len() > 0 {
        lemma_unsubscribe_absent(m.drop_first(), p, tok);
        assert(seq![m[0]] + m.drop_first() =~= m);
    }
}

/// Two subscriptions to one root share one entry: the second starts
/// no backend; dropping one leaves the other subscribed; dropping the
/// last stops the backend, exactly once, and removes the root.
pub proof fn lemma_shared_subscription(
    m0: Seq<(Seq<u8>, Seq<u64>)>,
    p: Seq<u8>,
    t1: u64,
    t2: u64,
)
    requires
        forall|i: int, j: int| 0 <= i < j < m0.len() ==> m0[i].0 != m0[j].0,
        !m_has(m0, p),
        t1 != t2,
    ensures
        ({
            let m1 = spec_subscribe(m0, p, t1);
            let m2 = spec_subscribe(m1, p, t2);
            let m3 = spec_unsubscribe(m2, p, t1);
            let m4 = spec_unsubscribe(m3, p, t2);
            &&& m_has(m1, p)
            &&& m_subs(m2, p) == seq![t1, t2]
            &&& !spec_stops(m2, p, t1)
            &&& m_subs(m3, p) == seq![t2]
            &&& spec_stops(m3, p, t2)
            &&& !m_has(m4, p)
        }),
{
    let m1 = spec_subscribe(m0, p, t1);
    let m2 = spec_subscribe(m1, p, t2);
    let m3 = spec_unsubscribe(m2, p, t1);
    let m4 = spec_unsubscribe(m3, p, t2);
    let n = m0.len() as int;
    assert(forall|j: int| 0 <= j < m0.len() ==> m0[j].0 != p) by {
        assert forall|j: int| 0 <= j < m0.len() implies m0[j].0 != p by {
            if m0[j].0 == p {
                assert(m_has(m0, p));
            }
        }
    }
    lemma_subscribe_absent(m0, p, t1);
    assert(m1 =~= m0 + seq![(p, seq![t1])]);
    assert(m1[n].0 == p);
    assert(m_has(m1, p));
    lemma_subscribe_found(m1, p, t2, n);
    assert(m2 =~= m1.update(n, (p, seq![t1].push(t2))));
    assert(seq![t1].push(t2) =~= seq![t1, t2]);
    lemma_unsubscribe_found(m2, p, t1, n);
    assert(seq_remove(seq![t1, t2], t1) =~= seq![t2]) by {
        assert(seq![t1, t2][0] == t1);
        assert(seq![t1, t2].drop_first() =~= seq![t2]);
    }
    assert(m3 =~= m2.update(n, (p, seq![t2])));
    lemma_choose_subs(m2, p, n);
    lemma_choose_subs(m3, p, n);
    lemma_unsubscribe_found(m3, p, t2, n);
    assert(seq_remove(seq![t2], t2) =~= Seq::<u64>::empty());
    assert(m4 =~= m3.remove(n));
    assert(m4 =~= m0);
}

/// With distinct paths, the subscriber set of a path is the one at
/// its index.
proof fn lemma_choose_subs(m: Seq<(Seq<u8>, Seq<u64>)>, p: Seq<u8>, at: int)
    requires
        0 <= at < m.len(),
        m[at].0 == p,
        forall|i: int, j: int| 0 <= i < j < m.len() ==> m[i].0 != m[j].0,
    ensures
        m_has(m, p),
        m_subs(m, p) == m[at].1,
{
    assert(m_has(m, p));
    let w = choose|w: int| 0 <= w < m.len() && m[w].0 == p;
    if w != at {
        if w < at {
            assert(m[w].0 != m[at].0);
        } else {
            assert(m[at].0 != m[w].0);
        }
    }
}

} // verus!
