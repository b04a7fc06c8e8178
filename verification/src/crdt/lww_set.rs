use vstd::prelude::*;
use std::sync::Arc;
use crate::crdt::Crdt;
use crate::crdt::element::{Element, ElementSet};
use crate::crdt::keyed::{
    clone_entries, entries_view, find_key, key_index, keys_unique, lemma_view_at, lemma_view_empty,
    lemma_view_push, lemma_view_same, lemma_view_take, lemma_view_update, check_unique,
};
use crate::ids::{stamp_lt, Clock, Stamp};

verus! {

/// Which operation wins when an addition and a removal carry the same timestamp.
#[derive(Debug, Clone, Copy, PartialEq, Eq, Structural)]
pub enum LwwBias {
    Remove,
    Add,
}

/// The state of a last-writer-wins set, by view: the bias, and the latest timestamp of
/// each element's additions and of its removals.
#[verifier::reject_recursive_types(V)]
pub struct LwwState<V> {
    pub bias: LwwBias,
    pub adds: Map<V, Stamp>,
    pub removes: Map<V, Stamp>,
}

/// An element is a member when it was added, and not removed later (nor, with a
/// removal bias, at the same time).
pub open spec fn lww_member<V>(s: LwwState<V>, e: V) -> bool {
    s.adds.contains_key(e) && (!s.removes.contains_key(e) || match s.bias {
        LwwBias::Add => !stamp_lt(s.adds[e], s.removes[e]),
        LwwBias::Remove => stamp_lt(s.removes[e], s.adds[e]),
    })
}

/// The members of the set.
pub open spec fn lww_members<V>(s: LwwState<V>) -> Set<V> {
    s.adds.dom().filter(|e: V| lww_member(s, e))
}

/// The per-element latest of two timestamp maps.
pub open spec fn latest_stamps<V>(a: Map<V, Stamp>, b: Map<V, Stamp>) -> Map<V, Stamp> {
    Map::new(
        |e: V| a.contains_key(e) || b.contains_key(e),
        |e: V|
            if a.contains_key(e) && b.contains_key(e) {
                if stamp_lt(a[e], b[e]) {
                    b[e]
                } else {
                    a[e]
                }
            } else if a.contains_key(e) {
                a[e]
            } else {
                b[e]
            },
    )
}

/// The merge of two states: this side's bias, and the latest timestamps of both sides.
pub open spec fn lww_merge<V>(a: LwwState<V>, b: LwwState<V>) -> LwwState<V> {
    LwwState {
        bias: a.bias,
        adds: latest_stamps(a.adds, b.adds),
        removes: latest_stamps(a.removes, b.removes),
    }
}

/// A last-writer-wins set: each element keeps the timestamp of its latest addition and of
/// its latest removal, and the later one decides membership.
#[derive(Debug)]
pub struct LWWSet<T: View> {
    bias: LwwBias,
    add_set: Vec<(T, Stamp)>,
    remove_set: Vec<(T, Stamp)>,
}

impl<T: View> View for LWWSet<T> {
    type V = LwwState<T::V>;

    closed spec fn view(&self) -> LwwState<T::V> {
        LwwState {
            bias: self.bias,
            adds: entries_view(self.add_set@),
            removes: entries_view(self.remove_set@),
        }
    }
}

impl<T: View> LWWSet<T> {
    #[verifier::type_invariant]
    spec fn wf(self) -> bool {
        keys_unique(self.add_set@) && keys_unique(self.remove_set@)
    }
}

/// Sets the timestamp that `entries` holds for `key` to `ts`.
fn set_stamp<T: Element>(entries: &mut Vec<(T, Stamp)>, key: T, ts: Stamp)
    requires
        keys_unique(old(entries)@),
    ensures
        keys_unique(final(entries)@),
        entries_view(final(entries)@) == entries_view(old(entries)@).insert(key@, ts),
{
    match find_key(entries, &key) {
        Some(i) => {
            let ghost before = entries@;
            proof {
                lemma_view_update(before, i as int, ts);
            }
            entries[i].1 = ts;
            proof {
                assert(entries@ =~= before.update(i as int, (before[i as int].0, ts)));
            }
        },
        None => {
            proof {
                lemma_view_push(entries@, key, ts);
            }
            entries.push((key, ts));
        },
    }
}

/// Folds the timestamps of `with` into `target`, keeping the later one for each element.
fn merge_with_timestamp<T: Element>(target: &mut Vec<(T, Stamp)>, with: &Vec<(T, Stamp)>)
    requires
        keys_unique(old(target)@),
        keys_unique(with@),
    ensures
        keys_unique(final(target)@),
        entries_view(final(target)@) == latest_stamps(entries_view(old(target)@), entries_view(with@)),
{
    let ghost start = entries_view(target@);
    let n = with.len();
    let mut i: usize = 0;
    proof {
        lemma_view_empty(with@.take(0));
        assert(latest_stamps(start, Map::empty()) =~= start);
    }
    while i < n
        invariant
            n == with@.len(),
            i <= n,
            keys_unique(with@),
            keys_unique(target@),
            entries_view(target@) == latest_stamps(start, entries_view(with@.take(i as int))),
        decreases n - i,
    {
        let ghost prefix = entries_view(with@.take(i as int));
        let ghost before = entries_view(target@);
        proof {
            lemma_view_take(with@, i as int);
        }
        let other_ts = with[i].1;
        let ghost k = with@[i as int].0@;
        match find_key(target, &with[i].0) {
            Some(j) => {
                proof {
                    lemma_view_at(target@, j as int);
                }
                if target[j].1.before(&other_ts) {
                    let ghost tb = target@;
                    proof {
                        lemma_view_update(tb, j as int, other_ts);
                    }
                    target[j].1 = other_ts;
                    proof {
                        assert(target@ =~= tb.update(j as int, (tb[j as int].0, other_ts)));
                        assert(entries_view(target@) == before.insert(k, other_ts));
                    }
                } else {
                    proof {
                        assert(before.contains_key(k));
                        assert(before.insert(k, before[k]) =~= before);
                    }
                }
            },
            None => {
                let key = with[i].0.duplicate();
                proof {
                    lemma_view_push(target@, key, other_ts);
                }
                target.push((key, other_ts));
                proof {
                    assert(!before.contains_key(k));
                    assert(entries_view(target@) == before.insert(k, other_ts));
                }
            },
        }
        proof {
            assert(!prefix.contains_key(k));
            assert(entries_view(target@) =~= latest_stamps(start, prefix.insert(k, other_ts)));
        }
        i = i + 1;
    }
    proof {
        assert(with@.take(n as int) =~= with@);
    }
}

impl<T: Element> LWWSet<T> {
    pub fn new(bias: LwwBias) -> (r: Self)
        ensures
            r@.bias == bias,
            r@.adds == Map::<T::V, Stamp>::empty(),
            r@.removes == Map::<T::V, Stamp>::empty(),
    {
        let r = LWWSet { bias, add_set: Vec::new(), remove_set: Vec::new() };
        proof {
            lemma_view_empty(r.add_set@);
            lemma_view_empty(r.remove_set@);
        }
        r
    }

    /// The bias of the set.
    pub fn bias(&self) -> (r: LwwBias)
        ensures
            r == self@.bias,
    {
        self.bias
    }

    /// The latest addition timestamp of each element.
    pub fn add_entries(&self) -> (r: Vec<(T, Stamp)>)
        ensures
            keys_unique(r@),
            entries_view(r@) == self@.adds,
    {
        proof {
            use_type_invariant(self);
        }
        let out = clone_entries(&self.add_set);
        proof {
            lemma_view_same(self.add_set@, out@);
        }
        out
    }

    /// The latest removal timestamp of each element.
    pub fn remove_entries(&self) -> (r: Vec<(T, Stamp)>)
        ensures
            keys_unique(r@),
            entries_view(r@) == self@.removes,
    {
        proof {
            use_type_invariant(self);
        }
        let out = clone_entries(&self.remove_set);
        proof {
            lemma_view_same(self.remove_set@, out@);
        }
        out
    }

    /// The set with the given bias and timestamps; `None` when an element occurs twice
    /// among the additions or among the removals.
    pub fn from_entries(bias: LwwBias, adds: Vec<(T, Stamp)>, removes: Vec<(T, Stamp)>) -> (r: Option<Self>)
        ensures
            r is Some <==> keys_unique(adds@) && keys_unique(removes@),
            r matches Some(s) ==> s@ == (LwwState {
                bias,
                adds: entries_view(adds@),
                removes: entries_view(removes@),
            }),
    {
        if check_unique(&adds) && check_unique(&removes) {
            Some(LWWSet { bias, add_set: adds, remove_set: removes })
        } else {
            None
        }
    }

    /// Records an addition of `element` at `timestamp`, replacing the one recorded before.
    pub fn add(&mut self, element: T, timestamp: Stamp)
        ensures
            final(self)@ == (LwwState {
                bias: old(self)@.bias,
                adds: old(self)@.adds.insert(element@, timestamp),
                removes: old(self)@.removes,
            }),
    {
        proof {
            use_type_invariant(&*self);
        }
        let mut adds: Vec<(T, Stamp)> = Vec::new();
        std::mem::swap(&mut adds, &mut self.add_set);
        set_stamp(&mut adds, element, timestamp);
        self.add_set = adds;
    }

    /// Records a removal of `element` at `timestamp`, replacing the one recorded before.
    pub fn remove(&mut self, element: T, timestamp: Stamp)
        ensures
            final(self)@ == (LwwState {
                bias: old(self)@.bias,
                adds: old(self)@.adds,
                removes: old(self)@.removes.insert(element@, timestamp),
            }),
    {
        proof {
            use_type_invariant(&*self);
        }
        let mut removes: Vec<(T, Stamp)> = Vec::new();
        std::mem::swap(&mut removes, &mut self.remove_set);
        set_stamp(&mut removes, element, timestamp);
        self.remove_set = removes;
    }

    /// Whether `element` is a member.
    pub fn is_member(&self, element: &T) -> (r: bool)
        ensures
            r == lww_member(self@, element@),
    {
        proof {
            use_type_invariant(self);
        }
        match find_key(&self.add_set, element) {
            Some(i) => {
                proof {
                    lemma_view_at(self.add_set@, i as int);
                }
                let add_time = &self.add_set[i].1;
                match find_key(&self.remove_set, element) {
                    Some(j) => {
                        proof {
                            lemma_view_at(self.remove_set@, j as int);
                        }
                        let remove_time = &self.remove_set[j].1;
                        match self.bias {
                            LwwBias::Add => !add_time.before(remove_time),
                            LwwBias::Remove => remove_time.before(add_time),
                        }
                    },
                    None => true,
                }
            },
            None => false,
        }
    }

    /// The members of the set.
    pub fn members(&self) -> (r: ElementSet<T>)
        ensures
            r@ == lww_members(self@),
    {
        proof {
            use_type_invariant(self);
        }
        let mut out = ElementSet::new();
        let n = self.add_set.len();
        let mut i: usize = 0;
        while i < n
            invariant
                n == self.add_set@.len(),
                i <= n,
                keys_unique(self.add_set@),
                out@ == Set::new(
                    |e: T::V|
                        exists|j: int| 0 <= j < i && #[trigger] self.add_set@[j].0@ == e && lww_member(self@, e),
                ),
            decreases n - i,
        {
            let e = &self.add_set[i].0;
            if self.is_member(e) {
                out.insert(e.duplicate());
            }
            proof {
                assert(out@ =~= Set::new(
                    |e: T::V|
                        exists|j: int| 0 <= j < i + 1 && #[trigger] self.add_set@[j].0@ == e && lww_member(self@, e),
                )) by {
                    assert forall|v: T::V| #[trigger] out@.contains(v) == (exists|j: int|
                        0 <= j < i + 1 && #[trigger] self.add_set@[j].0@ == v && lww_member(self@, v)) by {
                        if exists|j: int| 0 <= j < i + 1 && #[trigger] self.add_set@[j].0@ == v && lww_member(self@, v) {
                            let j = choose|j: int| 0 <= j < i + 1 && #[trigger] self.add_set@[j].0@ == v && lww_member(self@, v);
                            if j < i {
                            }
                        }
                    }
                }
            }
            i = i + 1;
        }
        proof {
            assert forall|v: T::V| #[trigger] out@.contains(v) == lww_members(self@).contains(v) by {
                if lww_members(self@).contains(v) {
                    let j = key_index(self.add_set@, v);
                    lemma_view_at(self.add_set@, j);
                }
            }
            assert(out@ =~= lww_members(self@));
        }
        out
    }
}

impl<T: Element> Clone for LWWSet<T> {
    fn clone(&self) -> (r: Self)
        ensures
            r@ == self@,
    {
        proof {
            use_type_invariant(self);
        }
        let add_set = clone_entries(&self.add_set);
        let remove_set = clone_entries(&self.remove_set);
        proof {
            lemma_view_same(self.add_set@, add_set@);
            lemma_view_same(self.remove_set@, remove_set@);
        }
        LWWSet { bias: self.bias, add_set, remove_set }
    }
}

impl<T: Element> Crdt for LWWSet<T> {
    type Struct = LWWSet<T>;

    /// Keeps, for every element, the later of the two addition timestamps and the later
    /// of the two removal timestamps.
    fn merge(&mut self, other: &Self::Struct)
        ensures
            final(self)@ == lww_merge(old(self)@, other@),
    {
        proof {
            use_type_invariant(&*self);
            use_type_invariant(other);
        }
        let mut adds: Vec<(T, Stamp)> = Vec::new();
        std::mem::swap(&mut adds, &mut self.add_set);
        merge_with_timestamp(&mut adds, &other.add_set);
        let mut removes: Vec<(T, Stamp)> = Vec::new();
        std::mem::swap(&mut removes, &mut self.remove_set);
        merge_with_timestamp(&mut removes, &other.remove_set);
        self.add_set = adds;
        self.remove_set = removes;
    }
}

/// A replica's handle on a last-writer-wins set: it stamps its operations from its clock.
pub struct LWWSetReplica<T: View> {
    pub hlc: Clock,
    pub lww_set: LWWSet<T>,
}

impl<T: Element> LWWSetReplica<T> {
    pub fn new(hlc: Arc<uhlc::HLC>, bias: LwwBias) -> (r: Self)
        ensures
            r.hlc.source() == hlc,
            r.hlc.last() is None,
            r.lww_set@.bias == bias,
            r.lww_set@.adds == Map::<T::V, Stamp>::empty(),
            r.lww_set@.removes == Map::<T::V, Stamp>::empty(),
    {
        LWWSetReplica { hlc: Clock::new(hlc), lww_set: LWWSet::new(bias) }
    }

    /// Adds `element` at a new timestamp of this replica's clock, later than every
    /// timestamp this replica drew before.
    pub fn add(&mut self, element: T)
        ensures
            final(self).hlc.source() == old(self).hlc.source(),
            final(self).hlc.clock_id() == old(self).hlc.clock_id(),
            final(self).hlc.last() matches Some(ts) && old(self).hlc.follows(ts) && final(self).lww_set@ == (
            LwwState {
                bias: old(self).lww_set@.bias,
                adds: old(self).lww_set@.adds.insert(element@, ts),
                removes: old(self).lww_set@.removes,
            }),
    {
        let ts = self.hlc.stamp();
        self.lww_set.add(element, ts);
    }

    /// Removes `element` at a new timestamp of this replica's clock, later than every
    /// timestamp this replica drew before.
    pub fn remove(&mut self, element: T)
        ensures
            final(self).hlc.source() == old(self).hlc.source(),
            final(self).hlc.clock_id() == old(self).hlc.clock_id(),
            final(self).hlc.last() matches Some(ts) && old(self).hlc.follows(ts) && final(self).lww_set@ == (
            LwwState {
                bias: old(self).lww_set@.bias,
                adds: old(self).lww_set@.adds,
                removes: old(self).lww_set@.removes.insert(element@, ts),
            }),
    {
        let ts = self.hlc.stamp();
        self.lww_set.remove(element, ts);
    }

    /// The members of the set.
    pub fn members(&self) -> (r: ElementSet<T>)
        ensures
            r@ == lww_members(self.lww_set@),
    {
        self.lww_set.members()
    }
}

impl<T: Element> Crdt for LWWSetReplica<T> {
    type Struct = LWWSet<T>;

    fn merge(&mut self, other: &Self::Struct)
        ensures
            final(self).hlc == old(self).hlc,
            final(self).lww_set@ == lww_merge(old(self).lww_set@, other@),
    {
        self.lww_set.merge(other)
    }
}

} // verus!

verus! {

/// Taking the latest timestamps is commutative.
pub proof fn lemma_latest_commutative<V>(a: Map<V, Stamp>, b: Map<V, Stamp>)
    ensures
        latest_stamps(a, b) == latest_stamps(b, a),
{
    assert forall|e: V| #[trigger] latest_stamps(a, b).contains_key(e) implies latest_stamps(a, b)[e]
        == latest_stamps(b, a)[e] by {
        if a.contains_key(e) && b.contains_key(e) {
            if stamp_lt(a[e], b[e]) {
                assert(!stamp_lt(b[e], a[e]));
            } else if stamp_lt(b[e], a[e]) {
            } else {
                assert(a[e] == b[e]);
            }
        }
    }
    assert(latest_stamps(a, b) =~= latest_stamps(b, a));
}

/// Taking the latest timestamps is associative.
pub proof fn lemma_latest_associative<V>(a: Map<V, Stamp>, b: Map<V, Stamp>, c: Map<V, Stamp>)
    ensures
        latest_stamps(latest_stamps(a, b), c) == latest_stamps(a, latest_stamps(b, c)),
{
    assert(latest_stamps(latest_stamps(a, b), c) =~= latest_stamps(a, latest_stamps(b, c)));
}

/// Taking the latest timestamps of a map with itself changes nothing.
pub proof fn lemma_latest_idempotent<V>(a: Map<V, Stamp>)
    ensures
        latest_stamps(a, a) == a,
{
    assert(latest_stamps(a, a) =~= a);
}

/// Merging two sets of the same bias is commutative.
pub proof fn lemma_merge_commutative<V>(a: LwwState<V>, b: LwwState<V>)
    requires
        a.bias == b.bias,
    ensures
        lww_merge(a, b) == lww_merge(b, a),
{
    lemma_latest_commutative(a.adds, b.adds);
    lemma_latest_commutative(a.removes, b.removes);
}

/// Merging sets is associative.
pub proof fn lemma_merge_associative<V>(a: LwwState<V>, b: LwwState<V>, c: LwwState<V>)
    ensures
        lww_merge(lww_merge(a, b), c) == lww_merge(a, lww_merge(b, c)),
{
    lemma_latest_associative(a.adds, b.adds, c.adds);
    lemma_latest_associative(a.removes, b.removes, c.removes);
}

/// Merging a set with itself changes nothing.
pub proof fn lemma_merge_idempotent<V>(a: LwwState<V>)
    ensures
        lww_merge(a, a) == a,
{
    lemma_latest_idempotent(a.adds);
    lemma_latest_idempotent(a.removes);
}

/// Two replicas of the same bias that exchange their states end in the same state.
pub proof fn lemma_exchange_converges<V>(a: LwwState<V>, b: LwwState<V>)
    requires
        a.bias == b.bias,
    ensures
        lww_merge(b, lww_merge(a, b)) == lww_merge(a, b),
{
    lemma_merge_commutative(a, b);
    lemma_merge_associative(b, b, a);
    lemma_merge_idempotent(b);
    lemma_merge_commutative(b, a);
    assert(lww_merge(b, lww_merge(b, a)) == lww_merge(lww_merge(b, b), a));
}

/// `a` lies below `b` element by element: every element stamped in `a` is stamped in
/// `b`, no earlier.
pub open spec fn stamps_le<V>(a: Map<V, Stamp>, b: Map<V, Stamp>) -> bool {
    forall|e: V| #[trigger] a.contains_key(e) ==> b.contains_key(e) && !stamp_lt(b[e], a[e])
}

/// Taking the latest timestamps is the join of the timestamp maps: the result lies above
/// both sides, and below every map that lies above both.
pub proof fn lemma_latest_is_join<V>(a: Map<V, Stamp>, b: Map<V, Stamp>, c: Map<V, Stamp>)
    ensures
        stamps_le(a, latest_stamps(a, b)),
        stamps_le(b, latest_stamps(a, b)),
        stamps_le(a, c) && stamps_le(b, c) ==> stamps_le(latest_stamps(a, b), c),
{
}

/// `a` lies below `b` in the lattice of last-writer-wins sets of one bias.
pub open spec fn lww_le<V>(a: LwwState<V>, b: LwwState<V>) -> bool {
    a.bias == b.bias && stamps_le(a.adds, b.adds) && stamps_le(a.removes, b.removes)
}

/// The merge of two sets of the same bias is their join: it lies above both sides, and
/// below every state that lies above both.
pub proof fn lemma_merge_is_join<V>(a: LwwState<V>, b: LwwState<V>, c: LwwState<V>)
    requires
        a.bias == b.bias,
    ensures
        lww_le(a, lww_merge(a, b)),
        lww_le(b, lww_merge(a, b)),
        lww_le(a, c) && lww_le(b, c) ==> lww_le(lww_merge(a, b), c),
{
    lemma_latest_is_join(a.adds, b.adds, c.adds);
    lemma_latest_is_join(a.removes, b.removes, c.removes);
}

/// The last writer wins: an element whose latest removal comes after its latest addition
/// is not a member, and one whose latest addition comes after its latest removal is, in
/// either bias.
pub proof fn lemma_last_writer_wins<V>(s: LwwState<V>, e: V)
    requires
        s.adds.contains_key(e),
        s.removes.contains_key(e),
    ensures
        stamp_lt(s.adds[e], s.removes[e]) ==> !lww_member(s, e),
        stamp_lt(s.removes[e], s.adds[e]) ==> lww_member(s, e),
        s.adds[e] == s.removes[e] ==> (lww_member(s, e) <==> s.bias == LwwBias::Add),
{
}

/// A merged set holds, for every element, the latest addition and removal seen on either
/// side, so an element added on one side and removed later on the other is not a member.
pub proof fn lemma_merge_later_removal<V>(a: LwwState<V>, b: LwwState<V>, e: V)
    requires
        a.adds.contains_key(e),
        b.removes.contains_key(e),
        stamp_lt(a.adds[e], b.removes[e]),
        !b.adds.contains_key(e) || stamp_lt(b.adds[e], b.removes[e]),
        !a.removes.contains_key(e) || !stamp_lt(b.removes[e], a.removes[e]),
    ensures
        !lww_member(lww_merge(a, b), e),
{
}

} // verus!
