use vstd::prelude::*;
use std::sync::Arc;
use crate::crdt::{kind_label, Crdt, CrdtKind};
use crate::crdt::g_counter::{counts_le, merge_counts, GCounter, GCounterReplica};
use crate::crdt::lww_set::{lww_merge, stamps_le, LWWSet, LWWSetReplica, LwwBias, LwwState};
use crate::crdt::or_set::{or_le, or_merge, ORSet, ORSetReplica, OrState};
use crate::crdt::rga::{compatible, merge_nodes, nodes_le, NodeState, RGA, RGAReplica};
use crate::ids::{fresh_uuid, Clock};

verus! {

/// The state of any of the four data types, by view.
pub enum AnyState {
    GCounter(Map<Seq<char>, u64>),
    LWWSet(LwwState<Seq<char>>),
    ORSet(OrState<Seq<char>>),
    RGA(Map<Seq<char>, NodeState<Seq<char>>>),
}

/// The kind of data type a state belongs to.
pub open spec fn state_kind(s: AnyState) -> CrdtKind {
    match s {
        AnyState::GCounter(_) => CrdtKind::GCounter,
        AnyState::LWWSet(_) => CrdtKind::LWWSet,
        AnyState::ORSet(_) => CrdtKind::ORSet,
        AnyState::RGA(_) => CrdtKind::RGA,
    }
}

/// The merge of two states of the same kind; none for states of different kinds.
pub open spec fn merge_state(a: AnyState, b: AnyState) -> Option<AnyState> {
    match (a, b) {
        (AnyState::GCounter(x), AnyState::GCounter(y)) => Some(AnyState::GCounter(merge_counts(x, y))),
        (AnyState::LWWSet(x), AnyState::LWWSet(y)) => Some(AnyState::LWWSet(lww_merge(x, y))),
        (AnyState::ORSet(x), AnyState::ORSet(y)) => Some(AnyState::ORSet(or_merge(x, y))),
        (AnyState::RGA(x), AnyState::RGA(y)) => Some(AnyState::RGA(merge_nodes(x, y))),
        _ => None,
    }
}

/// `a` lies below `b`: both of one kind, and `b` holds everything `a` holds. Counters
/// count each node at least as high; last-writer-wins sets stamp each element's addition
/// and removal no earlier; observed-remove sets hold every tag of each element's
/// additions and removals; arrays hold every node, removed where it was removed.
pub open spec fn state_le(a: AnyState, b: AnyState) -> bool {
    match (a, b) {
        (AnyState::GCounter(x), AnyState::GCounter(y)) => counts_le(x, y),
        (AnyState::LWWSet(x), AnyState::LWWSet(y)) => stamps_le(x.adds, y.adds) && stamps_le(x.removes, y.removes),
        (AnyState::ORSet(x), AnyState::ORSet(y)) => or_le(x, y),
        (AnyState::RGA(x), AnyState::RGA(y)) => nodes_le(x, y),
        _ => false,
    }
}

/// Two states that replicas can hold side by side: arrays agree on the nodes they share
/// (replicas name nodes uniquely); states of the other kinds always can.
pub open spec fn states_compatible(a: AnyState, b: AnyState) -> bool {
    match (a, b) {
        (AnyState::RGA(x), AnyState::RGA(y)) => compatible(x, y),
        _ => true,
    }
}

/// What a merge takes in from the received state `b` into `m`, whatever the local state:
/// every node of a received array, removed where it was removed there.
pub open spec fn takes_in(b: AnyState, m: AnyState) -> bool {
    match (b, m) {
        (AnyState::RGA(y), AnyState::RGA(z)) => forall|k: Seq<char>| #[trigger] y.contains_key(k) ==> z.contains_key(k) && (
        y[k].deleted ==> z[k].deleted),
        _ => true,
    }
}

/// The merge keeps the local side's tie bias of a last-writer-wins set.
pub open spec fn keeps_bias(a: AnyState, m: AnyState) -> bool {
    match (a, m) {
        (AnyState::LWWSet(x), AnyState::LWWSet(y)) => y.bias == x.bias,
        _ => true,
    }
}

/// The merge of two states of one kind is their join: a state of that kind that lies
/// above the local state, above the received one (for arrays, where the two agree on the
/// nodes they share), and below every state that lies above both. It keeps the local tie
/// bias and, whatever the local state, takes in every node and removal of a received array.
pub proof fn lemma_merge_state_is_join(a: AnyState, b: AnyState, c: AnyState)
    requires
        state_kind(a) == state_kind(b),
    ensures
        match merge_state(a, b) {
            Some(m) => {
                &&& state_kind(m) == state_kind(a)
                &&& state_le(a, m)
                &&& (states_compatible(a, b) ==> state_le(b, m))
                &&& (state_le(a, c) && state_le(b, c) ==> state_le(m, c))
                &&& takes_in(b, m)
                &&& keeps_bias(a, m)
            },
            None => false,
        },
{
    match (a, b) {
        (AnyState::GCounter(x), AnyState::GCounter(y)) => {
            if let AnyState::GCounter(z) = c {
                crate::crdt::g_counter::lemma_merge_is_join(x, y, z);
            } else {
                crate::crdt::g_counter::lemma_merge_is_join(x, y, x);
            }
        },
        (AnyState::LWWSet(x), AnyState::LWWSet(y)) => {
            if let AnyState::LWWSet(z) = c {
                crate::crdt::lww_set::lemma_latest_is_join(x.adds, y.adds, z.adds);
                crate::crdt::lww_set::lemma_latest_is_join(x.removes, y.removes, z.removes);
            } else {
                crate::crdt::lww_set::lemma_latest_is_join(x.adds, y.adds, x.adds);
                crate::crdt::lww_set::lemma_latest_is_join(x.removes, y.removes, x.removes);
            }
        },
        (AnyState::ORSet(x), AnyState::ORSet(y)) => {
            if let AnyState::ORSet(z) = c {
                crate::crdt::or_set::lemma_merge_is_join(x, y, z);
            } else {
                crate::crdt::or_set::lemma_merge_is_join(x, y, x);
            }
        },
        (AnyState::RGA(x), AnyState::RGA(y)) => {
            let mx = merge_nodes(x, y);
            assert(nodes_le(x, mx));
            if compatible(x, y) {
                if let AnyState::RGA(z) = c {
                    crate::crdt::rga::lemma_merge_is_join(x, y, z);
                } else {
                    crate::crdt::rga::lemma_merge_is_join(x, y, x);
                }
            } else if let AnyState::RGA(z) = c {
                if nodes_le(x, z) && nodes_le(y, z) {
                    assert(compatible(x, y));
                }
            }
        },
        _ => {},
    }
}

/// The empty state of a kind; a last-writer-wins set starts with an addition bias.
pub open spec fn empty_state(kind: CrdtKind) -> AnyState {
    match kind {
        CrdtKind::GCounter => AnyState::GCounter(Map::empty()),
        CrdtKind::LWWSet => AnyState::LWWSet(
            LwwState { bias: LwwBias::Add, adds: Map::empty(), removes: Map::empty() },
        ),
        CrdtKind::ORSet => AnyState::ORSet(OrState { elements: Map::empty(), removed: Map::empty() }),
        CrdtKind::RGA => AnyState::RGA(Map::empty()),
    }
}

/// `b` is the replica `a` with at most its state changed: the same kind, and the same
/// identifier, count of additions and clock.
pub open spec fn same_handle(a: AnyReplica, b: AnyReplica) -> bool {
    match (a, b) {
        (AnyReplica::GCounter(x), AnyReplica::GCounter(y)) => x.id == y.id,
        (AnyReplica::LWWSet(x), AnyReplica::LWWSet(y)) => x.hlc == y.hlc,
        (AnyReplica::ORSet(x), AnyReplica::ORSet(y)) => x.id == y.id && x.counter == y.counter,
        (AnyReplica::RGA(x), AnyReplica::RGA(y)) => x.id == y.id && x.hlc == y.hlc,
        _ => false,
    }
}

/// `r` is a replica just started on clock `hlc`: counters, observed-remove sets and
/// arrays hold a fresh 36-character random identifier, an observed-remove set has made
/// no addition yet, and sets and arrays draw from `hlc` and have drawn no stamp yet.
pub open spec fn started_on(r: AnyReplica, hlc: Arc<uhlc::HLC>) -> bool {
    match r {
        AnyReplica::GCounter(g) => g.id@.len() == 36,
        AnyReplica::LWWSet(l) => l.hlc.source() == hlc && l.hlc.last() is None,
        AnyReplica::ORSet(o) => o.id@.len() == 36 && o.counter == 0,
        AnyReplica::RGA(a) => a.id@.len() == 36 && a.hlc.source() == hlc && a.hlc.last() is None,
    }
}

/// The state of one variable, as it travels between replicas.
pub enum AnyCrdt {
    GCounter(GCounter),
    LWWSet(LWWSet<String>),
    ORSet(ORSet<String>),
    RGA(RGA<String>),
}

impl View for AnyCrdt {
    type V = AnyState;

    open spec fn view(&self) -> AnyState {
        match self {
            AnyCrdt::GCounter(c) => AnyState::GCounter(c@),
            AnyCrdt::LWWSet(c) => AnyState::LWWSet(c@),
            AnyCrdt::ORSet(c) => AnyState::ORSet(c@),
            AnyCrdt::RGA(c) => AnyState::RGA(c@),
        }
    }
}

impl AnyCrdt {
    /// The kind of data type this state belongs to.
    pub fn kind(&self) -> (r: CrdtKind)
        ensures
            r == state_kind(self@),
    {
        match self {
            AnyCrdt::GCounter(_) => CrdtKind::GCounter,
            AnyCrdt::LWWSet(_) => CrdtKind::LWWSet,
            AnyCrdt::ORSet(_) => CrdtKind::ORSet,
            AnyCrdt::RGA(_) => CrdtKind::RGA,
        }
    }
}

impl Clone for AnyCrdt {
    fn clone(&self) -> (r: Self)
        ensures
            r@ == self@,
    {
        match self {
            AnyCrdt::GCounter(c) => AnyCrdt::GCounter(c.clone()),
            AnyCrdt::LWWSet(c) => AnyCrdt::LWWSet(c.clone()),
            AnyCrdt::ORSet(c) => AnyCrdt::ORSet(c.clone()),
            AnyCrdt::RGA(c) => AnyCrdt::RGA(c.clone()),
        }
    }
}

/// A local replica of one variable: the state and what the replica needs to update it.
pub enum AnyReplica {
    GCounter(GCounterReplica),
    LWWSet(LWWSetReplica<String>),
    ORSet(ORSetReplica<String>),
    RGA(RGAReplica<String>),
}

impl View for AnyReplica {
    type V = AnyState;

    open spec fn view(&self) -> AnyState {
        self.state()
    }
}

impl AnyReplica {
    /// The state the replica holds.
    pub open spec fn state(&self) -> AnyState {
        match self {
            AnyReplica::GCounter(r) => AnyState::GCounter(r.crdt@),
            AnyReplica::LWWSet(r) => AnyState::LWWSet(r.lww_set@),
            AnyReplica::ORSet(r) => AnyState::ORSet(r.crdt@),
            AnyReplica::RGA(r) => AnyState::RGA(r.crdt@),
        }
    }

    /// A replica that continues from the state `crdt`: counters, observed-remove sets
    /// and arrays get a fresh random replica identifier, sets and arrays the clock `hlc`.
    pub fn from_crdt(crdt: AnyCrdt, hlc: Arc<uhlc::HLC>) -> (r: Self)
        ensures
            r.state() == crdt@,
            started_on(r, hlc),
    {
        match crdt {
            AnyCrdt::GCounter(c) => AnyReplica::GCounter(GCounterReplica { id: fresh_uuid(), crdt: c }),
            AnyCrdt::LWWSet(c) => AnyReplica::LWWSet(LWWSetReplica { hlc: Clock::new(hlc), lww_set: c }),
            AnyCrdt::ORSet(c) => AnyReplica::ORSet(ORSetReplica { id: fresh_uuid(), counter: 0, crdt: c }),
            AnyCrdt::RGA(c) => AnyReplica::RGA(RGAReplica { id: fresh_uuid(), hlc: Clock::new(hlc), crdt: c }),
        }
    }

    /// A new replica of an empty variable of the given kind; a last-writer-wins set is
    /// addition-biased.
    pub fn new_of_kind(kind: CrdtKind, hlc: Arc<uhlc::HLC>) -> (r: Self)
        ensures
            r.state() == empty_state(kind),
            match r {
                AnyReplica::GCounter(g) => g.id@.len() == 36,
                AnyReplica::LWWSet(l) => l.hlc.source() == hlc && l.hlc.last() is None,
                AnyReplica::ORSet(o) => o.id@.len() == 36 && o.counter == 0 && o.tags_fresh(),
                AnyReplica::RGA(a) => a.id@.len() == 8 && a.hlc.source() == hlc && a.hlc.last() is None,
            },
    {
        match kind {
            CrdtKind::GCounter => AnyReplica::GCounter(GCounterReplica::new()),
            CrdtKind::LWWSet => AnyReplica::LWWSet(LWWSetReplica::new(hlc, LwwBias::Add)),
            CrdtKind::ORSet => AnyReplica::ORSet(ORSetReplica::new()),
            CrdtKind::RGA => AnyReplica::RGA(RGAReplica::new(hlc)),
        }
    }

    /// Merges `crdt` into this replica when it is of the same kind; otherwise hands it back.
    pub fn merge(&mut self, crdt: AnyCrdt) -> (r: Result<(), AnyCrdt>)
        ensures
            match r {
                Ok(()) => merge_state(old(self).state(), crdt@) == Some(final(self).state()) && same_handle(
                    *old(self),
                    *final(self),
                ) && state_le(old(self).state(), final(self).state()) && (states_compatible(
                    old(self).state(),
                    crdt@,
                ) ==> state_le(crdt@, final(self).state())) && takes_in(crdt@, final(self).state()),
                Err(c) => merge_state(old(self).state(), crdt@) is None && c == crdt && *final(self) == *old(
                    self,
                ),
            },
    {
        let ghost before = self.state();
        let ghost received = crdt@;
        let r = match (&mut *self, crdt) {
            (AnyReplica::GCounter(replica), AnyCrdt::GCounter(c)) => {
                replica.merge(&c);
                Ok(())
            },
            (AnyReplica::LWWSet(replica), AnyCrdt::LWWSet(c)) => {
                replica.merge(&c);
                Ok(())
            },
            (AnyReplica::ORSet(replica), AnyCrdt::ORSet(c)) => {
                replica.merge(&c);
                Ok(())
            },
            (AnyReplica::RGA(replica), AnyCrdt::RGA(c)) => {
                replica.merge(&c);
                Ok(())
            },
            (_, c) => Err(c),
        };
        proof {
            if r is Ok {
                lemma_merge_state_is_join(before, received, before);
            }
        }
        r
    }

    /// A copy of the state the replica holds.
    pub fn as_any_crdt(&self) -> (r: AnyCrdt)
        ensures
            r@ == self.state(),
    {
        match self {
            AnyReplica::GCounter(replica) => AnyCrdt::GCounter(replica.crdt.clone()),
            AnyReplica::LWWSet(replica) => AnyCrdt::LWWSet(replica.lww_set.clone()),
            AnyReplica::ORSet(replica) => AnyCrdt::ORSet(replica.crdt.clone()),
            AnyReplica::RGA(replica) => AnyCrdt::RGA(replica.crdt.clone()),
        }
    }

    /// The name of the data type the replica holds, as it is shown.
    pub fn label(&self) -> (r: String)
        ensures
            r@ == kind_label(state_kind(self.state())),
    {
        self.kind().name().to_string()
    }

    /// The kind of data type the replica holds.
    pub fn kind(&self) -> (r: CrdtKind)
        ensures
            r == state_kind(self.state()),
    {
        match self {
            AnyReplica::GCounter(_) => CrdtKind::GCounter,
            AnyReplica::LWWSet(_) => CrdtKind::LWWSet,
            AnyReplica::ORSet(_) => CrdtKind::ORSet,
            AnyReplica::RGA(_) => CrdtKind::RGA,
        }
    }
}

} // verus!
