//! Core of a filesystem-watcher: glob matching, directory-snapshot
//! diffing, event debouncing, a binary serialization codec for the
//! watcher-daemon protocol, backend selection, and the subscription
//! registry that fans events out to subscribers.
#![allow(unused_imports)]

use vstd::prelude::*;

pub mod util;
pub mod debounce;
pub mod dirtree;
pub mod glob;
pub mod bser;
pub mod backend;
pub mod watcher;

verus! {

/// The kind of change observed for one path.
#[derive(Clone, Copy, Debug, PartialEq, Eq, Structural)]
pub enum EventType {
    Created,
    Updated,
    Deleted,
}

/// One normalized filesystem change: a path (as a byte string, the
/// form paths take at the delivery boundary) and what happened to it.
#[derive(Debug)]
pub struct Event {
    pub path: Vec<u8>,
    pub ty: EventType,
}

impl Event {
    /// Two events are the same when their paths and kinds agree.
    pub open spec fn is(self, path: Seq<u8>, ty: EventType) -> bool {
        self.path@ == path && self.ty == ty
    }
}

/// The numeric form a kind takes at the delivery boundary.
pub open spec fn spec_kind_code(ty: EventType) -> u8 {
    match ty {
        EventType::Created => 0,
        EventType::Deleted => 1,
        EventType::Updated => 2,
    }
}

pub fn kind_code(ty: EventType) -> (r: u8)
    ensures
        r == spec_kind_code(ty),
{
    match ty {
        EventType::Created => 0,
        EventType::Deleted => 1,
        EventType::Updated => 2,
    }
}

/// Reads a boundary code back; anything unknown reads as an update,
/// the weakest claim about a path that still exists.
pub fn kind_from_code(code: u8) -> (r: EventType)
    ensures
        code == 0 ==> r == EventType::Created,
        code == 1 ==> r == EventType::Deleted,
        code != 0 && code != 1 ==> r == EventType::Updated,
{
    if code == 0 {
        EventType::Created
    } else if code == 1 {
        EventType::Deleted
    } else {
        EventType::Updated
    }
}

/// The boundary codes read back as the kinds they stand for.
pub proof fn lemma_kind_code_round_trip(ty: EventType)
    ensures
        spec_kind_code(ty) == 0 ==> ty == EventType::Created,
        spec_kind_code(ty) == 1 ==> ty == EventType::Deleted,
        spec_kind_code(ty) == 2 ==> ty == EventType::Updated,
{
}

} // verus!
