use vstd::prelude::*;
use std::sync::Arc;
use crate::crdt::element::{Duplicate, Element};

verus! {

#[verifier::external_type_specification]
#[verifier::external_body]
pub struct ExHLC(uhlc::HLC);

/// A hybrid-logical-clock timestamp as plain values: the clock reading and the
/// identifier of the clock that issued it. Stamps are ordered by reading, then by
/// identifier, as the clock's own timestamps are.
#[derive(Debug, Clone, Copy, PartialEq, Eq, Structural)]
pub struct Stamp {
    pub time: u64,
    pub id: u128,
}

impl View for Stamp {
    type V = Stamp;

    open spec fn view(&self) -> Stamp {
        *self
    }
}

/// `a` comes strictly before `b`.
pub open spec fn stamp_lt(a: Stamp, b: Stamp) -> bool {
    a.time < b.time || (a.time == b.time && a.id < b.id)
}

impl Stamp {
    pub fn new(time: u64, id: u128) -> (r: Stamp)
        ensures
            r.time == time,
            r.id == id,
    {
        Stamp { time, id }
    }

    /// Whether this stamp comes strictly before `other`.
    pub fn before(&self, other: &Stamp) -> (r: bool)
        ensures
            r == stamp_lt(*self, *other),
    {
        self.time < other.time || (self.time == other.time && self.id < other.id)
    }
}

impl Duplicate for Stamp {
    fn duplicate(&self) -> (r: Self) {
        *self
    }
}

impl Element for Stamp {
    fn same(&self, other: &Self) -> (r: bool) {
        self.time == other.time && self.id == other.id
    }
}

/// A fresh random identifier: `uuid::Uuid::new_v4()` in its hyphenated text form.
/// What is claimed of it is the length of that form (8-4-4-4-12 hex digits and four
/// hyphens); which identifier comes out is left open, as it is random.
#[verifier::external_body]
pub(crate) fn fresh_uuid() -> (r: String)
    ensures
        r@.len() == 36,
{
    uuid::Uuid::new_v4().to_string()
}

/// The identifier of `hlc`: its 16 identifier bytes read so that the order of `u128`
/// values is the byte order in which the clock compares identifiers
/// (`uhlc::HLC::get_id`). Nothing is claimed of the value.
#[verifier::external_body]
fn clock_id(hlc: &uhlc::HLC) -> (r: u128) {
    u128::from_be_bytes(hlc.get_id().to_le_bytes())
}

/// A handle on a hybrid logical clock, shared through `Arc`, with the identifier of the
/// clock and, as a model, the last stamp drawn through this handle.
pub struct Clock {
    hlc: Arc<uhlc::HLC>,
    id: u128,
    last: Ghost<Option<Stamp>>,
}

impl Clock {
    /// The clock this handle draws from.
    pub closed spec fn source(&self) -> Arc<uhlc::HLC> {
        self.hlc
    }

    /// The identifier that the clock puts in its stamps.
    pub closed spec fn clock_id(&self) -> u128 {
        self.id
    }

    /// The last stamp drawn through this handle, if any.
    pub closed spec fn last(&self) -> Option<Stamp> {
        self.last@
    }

    /// `s` can be the next stamp of this handle: it carries the clock's identifier and
    /// comes after the last stamp drawn through the handle.
    pub open spec fn follows(&self, s: Stamp) -> bool {
        s.id == self.clock_id() && (self.last() matches Some(l) ==> stamp_lt(l, s))
    }

    /// A handle on `hlc` through which no stamp has been drawn yet.
    pub fn new(hlc: Arc<uhlc::HLC>) -> (r: Clock)
        ensures
            r.source() == hlc,
            r.last() is None,
    {
        let id = clock_id(&*hlc);
        Clock { hlc, id, last: Ghost(None) }
    }

    /// The clock this handle draws from.
    pub fn hlc(&self) -> (r: &Arc<uhlc::HLC>)
        ensures
            *r == self.source(),
    {
        &self.hlc
    }

    /// A new stamp from `uhlc::HLC::new_timestamp`, as a `Stamp`: the reading is the
    /// NTP64 time as a `u64`, the identifier is the clock's, converted as `clock_id`
    /// converts it. The clock documents that each new timestamp is greater than every
    /// timestamp it issued before, to any user of the shared clock, and its code puts
    /// its own identifier in each; so the stamp follows the last one drawn through this
    /// handle. The identifier claim rests on `id` having been read from this same clock
    /// in `Clock::new`, the only place that sets it. The reading itself depends on the
    /// wall clock and is left open.
    #[verifier::external_body]
    pub fn stamp(&mut self) -> (r: Stamp)
        ensures
            old(self).follows(r),
            final(self).last() == Some(r),
            final(self).source() == old(self).source(),
            final(self).clock_id() == old(self).clock_id(),
    {
        let ts = self.hlc.new_timestamp();
        Stamp { time: ts.get_time().as_u64(), id: u128::from_be_bytes(ts.get_id().to_le_bytes()) }
    }
}

} // verus!
