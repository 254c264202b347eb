//! Recursive directory snapshots and the structural diff between two
//! of them: entries only in the new snapshot are creations, entries
//! only in the old one are deletions, entries in both whose metadata
//! moved are updates.

use vstd::prelude::*;

use crate::Event;
use crate::EventType;
use crate::util::bytes_eq;

verus! {

/// What kind of filesystem object an entry is.
#[derive(Clone, Copy, Debug, PartialEq, Eq, Structural)]
pub enum EntryKind {
    File,
    Dir,
}

/// One object under the root: its path relative to the root, its
/// kind, its modification time and an identity (such as an inode
/// number) that changes when the object is replaced.
#[derive(Clone, Debug)]
pub struct DirEntry {
    pub path: Vec<u8>,
    pub kind: EntryKind,
    pub mtime: u64,
    pub identity: u64,
}

/// A full inventory of a directory subtree at one instant.
#[derive(Clone, Debug)]
pub struct DirSnapshot {
    pub entries: Vec<DirEntry>,
}

/// Each path occurs at most once in a snapshot.
pub open spec fn snap_wf(s: Seq<DirEntry>) -> bool {
    forall|i: int, j: int| 0 <= i < j < s.len() ==> s[i].path@ != s[j].path@
}

/// The snapshot lists the path.
pub open spec fn has_path(s: Seq<DirEntry>, p: Seq<u8>) -> bool {
    exists|i: int| 0 <= i < s.len() && s[i].path@ == p
}

/// The entry a well-formed snapshot holds for a listed path.
pub open spec fn entry_at(s: Seq<DirEntry>, p: Seq<u8>) -> DirEntry {
    s[choose|i: int| 0 <= i < s.len() && s[i].path@ == p]
}

/// The metadata moved between two sightings of one path.
pub open spec fn meta_changed(a: DirEntry, b: DirEntry) -> bool {
    a.kind != b.kind || a.mtime != b.mtime || a.identity != b.identity
}

/// The batch carries an event for this path with this kind.
pub open spec fn batch_has(out: Seq<Event>, p: Seq<u8>, k: EventType) -> bool {
    exists|i: int| 0 <= i < out.len() && out[i].is(p, k)
}

/// No two events of the batch speak of the same path.
pub open spec fn batch_paths_distinct(out: Seq<Event>) -> bool {
    forall|i: int, j: int| 0 <= i < j < out.len() ==> out[i].path@ != out[j].path@
}

impl DirSnapshot {
    pub open spec fn wf(self) -> bool {
        snap_wf(self.entries@)
    }

    pub fn new() -> (r: DirSnapshot)
        ensures
            r.wf(),
            r.entries@.len() == 0,
    {
        DirSnapshot { entries: Vec::new() }
    }
}

/// In a well-formed snapshot the entry found at an index is the entry
/// of its path.
proof fn lemma_entry_at(s: Seq<DirEntry>, i: int)
    requires
        snap_wf(s),
        0 <= i < s.len(),
    ensures
        has_path(s, s[i].path@),
        entry_at(s, s[i].path@) == s[i],
{
    assert(has_path(s, s[i].path@));
    let j = choose|j: int| 0 <= j < s.len() && s[j].path@ == s[i].path@;
    if i != j {
        assert(s[i].path@ != s[j].path@);
    }
}

/// Appending an entry adds exactly its path to the listed ones.
proof fn lemma_has_path_push(s: Seq<DirEntry>, e: DirEntry, p: Seq<u8>)
    ensures
        has_path(s.push(e), p) <==> (has_path(s, p) || e.path@ == p),
{
    if has_path(s, p) {
        let i = choose|i: int| 0 <= i < s.len() && s[i].path@ == p;
        assert(s.push(e)[i].path@ == p);
    }
    if e.path@ == p {
        assert(s.push(e)[s.len() as int].path@ == p);
    }
    if has_path(s.push(e), p) {
        let i = choose|i: int| 0 <= i < s.push(e).len() && s.push(e)[i].path@ == p;
        if i < s.len() {
            assert(s[i].path@ == p);
        }
    }
}

/// Appending an event adds exactly its (path, kind) sighting.
proof fn lemma_batch_has_push(out: Seq<Event>, e: Event, p: Seq<u8>, k: EventType)
    ensures
        batch_has(out.push(e), p, k) <==> (batch_has(out, p, k) || e.is(p, k)),
{
    if batch_has(out, p, k) {
        let i = choose|i: int| 0 <= i < out.len() && out[i].is(p, k);
        assert(out.push(e)[i].is(p, k));
    }
    if e.is(p, k) {
        assert(out.push(e)[out.len() as int].is(p, k));
    }
    if batch_has(out.push(e), p, k) {
        let i = choose|i: int| 0 <= i < out.push(e).len() && out.push(e)[i].is(p, k);
        if i < out.len() {
            assert(out[i].is(p, k));
        }
    }
}

/// Index of the entry for a path, if the snapshot lists it.
pub fn find_entry(s: &Vec<DirEntry>, p: &Vec<u8>) -> (r: Option<usize>)
    requires
        snap_wf(s@),
    ensures
        match r {
            Some(j) => j < s@.len() && s@[j as int].path@ == p@ && has_path(s@, p@) && entry_at(
                s@,
                p@,
            ) == s@[j as int],
            None => !has_path(s@, p@),
        },
{
    let mut i: usize = 0;
    while i < s.len()
        invariant
            i <= s@.len(),
            snap_wf(s@),
            forall|j: int| 0 <= j < i ==> s@[j].path@ != p@,
        decreases s@.len() - i,
    {
        if bytes_eq(&s[i].path, p) {
            proof {
                lemma_entry_at(s@, i as int);
            }
            return Some(i);
        }
        i += 1;
    }
    None
}

/// Structural diff of two snapshots: exactly one event per changed
/// path, classified by the rule above; creations and updates come in
/// the new snapshot's order, deletions after them in the old one's.
pub fn diff(old_snap: &DirSnapshot, new_snap: &DirSnapshot) -> (out: Vec<Event>)
    requires
        old_snap.wf(),
        new_snap.wf(),
    ensures
        batch_paths_distinct(out@),
        forall|p: Seq<u8>|
            #[trigger] batch_has(out@, p, EventType::Created) <==> (has_path(new_snap.entries@, p)
                && !has_path(old_snap.entries@, p)),
        forall|p: Seq<u8>|
            #[trigger] batch_has(out@, p, EventType::Deleted) <==> (has_path(old_snap.entries@, p)
                && !has_path(new_snap.entries@, p)),
        forall|p: Seq<u8>|
            #[trigger] batch_has(out@, p, EventType::Updated) <==> (has_path(old_snap.entries@, p)
                && has_path(new_snap.entries@, p) && meta_changed(
                entry_at(old_snap.entries@, p),
                entry_at(new_snap.entries@, p),
            )),
{
    let ghost olds = old_snap.entries@;
    let ghost news = new_snap.entries@;
    let mut out: Vec<Event> = Vec::new();
    let mut i: usize = 0;
    while i < new_snap.entries.len()
        invariant
            i <= news.len(),
            olds == old_snap.entries@,
            news == new_snap.entries@,
            old_snap.wf(),
            new_snap.wf(),
            batch_paths_distinct(out@),
            forall|k: int|
                0 <= k < out@.len() ==> has_path(news.take(i as int), #[trigger] out@[k].path@),
            forall|p: Seq<u8>|
                #[trigger] batch_has(out@, p, EventType::Created) <==> (has_path(
                    news.take(i as int),
                    p,
                ) && !has_path(olds, p)),
            forall|p: Seq<u8>|
                #[trigger] batch_has(out@, p, EventType::Updated) <==> (has_path(
                    news.take(i as int),
                    p,
                ) && has_path(olds, p) && meta_changed(entry_at(olds, p), entry_at(news, p))),
            forall|p: Seq<u8>| !(#[trigger] batch_has(out@, p, EventType::Deleted)),
        decreases news.len() - i,
    {
        let ghost prefix = news.take(i as int);
        let ghost out0 = out@;
        let e = &new_snap.entries[i];
        proof {
            lemma_entry_at(news, i as int);
            assert(news.take(i as int + 1) =~= prefix.push(news[i as int]));
        }
        let found = find_entry(&old_snap.entries, &e.path);
        let mut pushed = false;
        match found {
            None => {
                out.push(Event { path: e.path.clone(), ty: EventType::Created });
                pushed = true;
            },
            Some(j) => {
                let oe = &old_snap.entries[j];
                if oe.kind != e.kind || oe.mtime != e.mtime || oe.identity != e.identity {
                    out.push(Event { path: e.path.clone(), ty: EventType::Updated });
                    pushed = true;
                }
            },
        }
        proof {
            let ghost ghost_e = news[i as int];
            if pushed {
                let pe = out@[out@.len() - 1];
                assert(out@ == out0.push(pe));
                assert(pe.path@ == ghost_e.path@);
                // the new event's path is fresh: every earlier path
                // lies in the processed prefix, and the prefix cannot
                // repeat this entry's path
                assert forall|k: int| 0 <= k < out0.len() implies out0[k].path@
                    != ghost_e.path@ by {
                    assert(has_path(prefix, out0[k].path@));
                    if out0[k].path@ == ghost_e.path@ {
                        let w = choose|w: int|
                            0 <= w < prefix.len() && prefix[w].path@ == ghost_e.path@;
                        assert(news[w].path@ == news[i as int].path@);
                    }
                }
                assert forall|p: Seq<u8>, k: EventType| true implies (#[trigger] batch_has(
                    out@,
                    p,
                    k,
                ) <==> (batch_has(out0, p, k) || pe.is(p, k))) by {
                    lemma_batch_has_push(out0, pe, p, k);
                }
            }
            assert forall|p: Seq<u8>| #[trigger] has_path(news.take(i as int + 1), p) implies (
            has_path(prefix, p) || news[i as int].path@ == p) by {
                lemma_has_path_push(prefix, news[i as int], p);
            }
            assert forall|p: Seq<u8>| has_path(prefix, p) || news[i as int].path@
                == p implies #[trigger] has_path(news.take(i as int + 1), p) by {
                lemma_has_path_push(prefix, news[i as int], p);
            }
        }
        i += 1;
    }
    proof {
        assert(news.take(news.len() as int) =~= news);
    }
    let mut j: usize = 0;
    while j < old_snap.entries.len()
        invariant
            j <= olds.len(),
            olds == old_snap.entries@,
            news == new_snap.entries@,
            old_snap.wf(),
            new_snap.wf(),
            batch_paths_distinct(out@),
            forall|k: int|
                0 <= k < out@.len() ==> has_path(news, #[trigger] out@[k].path@) || has_path(
                    olds.take(j as int),
                    out@[k].path@,
                ),
            forall|p: Seq<u8>|
                #[trigger] batch_has(out@, p, EventType::Created) <==> (has_path(news, p)
                    && !has_path(olds, p)),
            forall|p: Seq<u8>|
                #[trigger] batch_has(out@, p, EventType::Updated) <==> (has_path(news, p)
                    && has_path(olds, p) && meta_changed(entry_at(olds, p), entry_at(news, p))),
            forall|p: Seq<u8>|
                #[trigger] batch_has(out@, p, EventType::Deleted) <==> (has_path(
                    olds.take(j as int),
                    p,
                ) && !has_path(news, p)),
        decreases olds.len() - j,
    {
        let ghost prefix = olds.take(j as int);
        let ghost out0 = out@;
        let oe = &old_snap.entries[j];
        proof {
            lemma_entry_at(olds, j as int);
            assert(olds.take(j as int + 1) =~= prefix.push(olds[j as int]));
        }
        let found = find_entry(&new_snap.entries, &oe.path);
        let mut pushed = false;
        match found {
            None => {
                out.push(Event { path: oe.path.clone(), ty: EventType::Deleted });
                pushed = true;
            },
            Some(_) => {
            },
        }
        proof {
            let ghost ghost_e = olds[j as int];
            if pushed {
                let pe = out@[out@.len() - 1];
                assert(out@ == out0.push(pe));
                assert(pe.path@ == ghost_e.path@);
                // freshness: earlier events either name a path of the
                // new snapshot (this one is absent there) or a deleted
                // path from the old prefix (this one is not there yet)
                assert forall|k: int| 0 <= k < out0.len() implies out0[k].path@
                    != ghost_e.path@ by {
                    if out0[k].path@ == ghost_e.path@ {
                        if has_path(news, out0[k].path@) {
                        } else {
                            assert(has_path(prefix, out0[k].path@));
                            let w = choose|w: int|
                                0 <= w < prefix.len() && prefix[w].path@ == ghost_e.path@;
                            assert(olds[w].path@ == olds[j as int].path@);
                        }
                    }
                }
                assert forall|p: Seq<u8>, k: EventType| true implies (#[trigger] batch_has(
                    out@,
                    p,
                    k,
                ) <==> (batch_has(out0, p, k) || pe.is(p, k))) by {
                    lemma_batch_has_push(out0, pe, p, k);
                }
            }
            assert forall|p: Seq<u8>| #[trigger] has_path(olds.take(j as int + 1), p) implies (
            has_path(prefix, p) || olds[j as int].path@ == p) by {
                lemma_has_path_push(prefix, olds[j as int], p);
            }
            assert forall|p: Seq<u8>| has_path(prefix, p) || olds[j as int].path@
                == p implies #[trigger] has_path(olds.take(j as int + 1), p) by {
                lemma_has_path_push(prefix, olds[j as int], p);
            }
        }
        j += 1;
    }
    proof {
        assert(olds.take(olds.len() as int) =~= olds);
    }
    out
}

} // verus!
