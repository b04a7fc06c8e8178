use vstd::prelude::*;
use std::sync::Arc;
use crate::crdt::CrdtKind;
use crate::crdt::element::ElementSet;
use crate::crdt::enums::{merge_state, same_handle, started_on, state_kind, AnyCrdt, AnyReplica, AnyState};
use crate::crdt::g_counter::{count_of, total};
use crate::crdt::lww_set::{lww_members, LwwState};
use crate::crdt::or_set::{or_add, or_members, or_remove};
use crate::crdt::rga::{insert_node, node_id_at, opt_view, pair_views, remove_node, sequence};
use crate::crdt::keyed::{
    entries_view, find_key, has_key, key_index, keys_unique, lemma_view_at, lemma_view_empty,
    lemma_view_push, lemma_view_update,
};
use crate::ids::{Clock, Stamp};

verus! {

/// An update was refused because a count would have gone past `u64::MAX`.
#[derive(Debug, Clone, Copy, PartialEq, Eq, Structural)]
pub struct CountOverflow;

/// The named variables that a client or a server replicates, each with its local replica.
pub struct ReplicaStore {
    entries: Vec<(String, AnyReplica)>,
}

impl View for ReplicaStore {
    type V = Map<Seq<char>, AnyState>;

    closed spec fn view(&self) -> Map<Seq<char>, AnyState> {
        entries_view(self.entries@)
    }
}

impl ReplicaStore {
    #[verifier::type_invariant]
    spec fn wf(self) -> bool {
        keys_unique(self.entries@)
    }

    pub fn new() -> (r: Self)
        ensures
            r@ == Map::<Seq<char>, AnyState>::empty(),
    {
        let r = ReplicaStore { entries: Vec::new() };
        proof {
            lemma_view_empty(r.entries@);
        }
        r
    }

    /// The position of variable `name`, if there is one.
    fn position(&self, name: &str) -> (r: Option<usize>)
        ensures
            match r {
                Some(i) => i < self.entries@.len() && self.entries@[i as int].0@ == name@ && self@.contains_key(
                    name@,
                ) && self@[name@] == self.entries@[i as int].1@,
                None => !self@.contains_key(name@),
            },
    {
        proof {
            use_type_invariant(self);
        }
        let key = name.to_string();
        let r = find_key(&self.entries, &key);
        proof {
            if let Some(i) = r {
                lemma_view_at(self.entries@, i as int);
            }
        }
        r
    }

    /// Whether there is a variable `name`.
    pub fn contains(&self, name: &str) -> (r: bool)
        ensures
            r == self@.contains_key(name@),
    {
        self.position(name).is_some()
    }

    /// The kind of variable `name`, if there is one.
    pub fn kind_of(&self, name: &str) -> (r: Option<CrdtKind>)
        ensures
            r == (if self@.contains_key(name@) {
                Some(state_kind(self@[name@]))
            } else {
                None
            }),
    {
        match self.position(name) {
            Some(i) => Some(self.entries[i].1.kind()),
            None => None,
        }
    }

    /// A copy of the state of variable `name`, if there is one.
    pub fn snapshot(&self, name: &str) -> (r: Option<AnyCrdt>)
        ensures
            match r {
                Some(c) => self@.contains_key(name@) && c@ == self@[name@],
                None => !self@.contains_key(name@),
            },
    {
        match self.position(name) {
            Some(i) => Some(self.entries[i].1.as_any_crdt()),
            None => None,
        }
    }

    /// Every variable with the kind of data type it holds, each once.
    pub fn list(&self) -> (r: Vec<(String, CrdtKind)>)
        ensures
            r@.len() == self@.dom().len(),
            keys_unique(r@),
            forall|i: int| 0 <= i < r@.len() ==> #[trigger] self@.contains_key(r@[i].0@) && r@[i].1 == state_kind(self@[r@[i].0@]),
            forall|name: Seq<char>| #[trigger] self@.contains_key(name) ==> has_key(r@, name),
    {
        proof {
            use_type_invariant(self);
            crate::crdt::keyed::lemma_view_len(self.entries@);
        }
        let n = self.entries.len();
        let mut out: Vec<(String, CrdtKind)> = Vec::new();
        let mut i: usize = 0;
        while i < n
            invariant
                n == self.entries@.len(),
                i <= n,
                keys_unique(self.entries@),
                out@.len() == i,
                forall|j: int| 0 <= j < i ==> #[trigger] out@[j].0@ == self.entries@[j].0@,
                forall|j: int| 0 <= j < i ==> #[trigger] out@[j].1 == state_kind(self.entries@[j].1@),
            decreases n - i,
        {
            let name = self.entries[i].0.clone();
            let kind = self.entries[i].1.kind();
            let ghost prev = out@;
            out.push((name, kind));
            proof {
                assert forall|j: int| 0 <= j < i implies #[trigger] out@[j] == prev[j] by {}
                assert(out@[i as int].0@ == self.entries@[i as int].0@);
                assert(out@[i as int].1 == state_kind(self.entries@[i as int].1@));
            }
            i = i + 1;
        }
        proof {
            assert forall|a: int, b: int| 0 <= a < out@.len() && 0 <= b < out@.len() && a != b implies #[trigger] out@[a].0@
                != #[trigger] out@[b].0@ by {
                assert(self.entries@[a].0@ != self.entries@[b].0@);
            }
            assert forall|j: int| 0 <= j < out@.len() implies #[trigger] self@.contains_key(out@[j].0@) && out@[j].1 == state_kind(self@[out@[j].0@]) by {
                lemma_view_at(self.entries@, j);
            }
            assert forall|name: Seq<char>| #[trigger] self@.contains_key(name) implies has_key(out@, name) by {
                let j = key_index(self.entries@, name);
                assert(out@[j].0@ == name);
            }
        }
        out
    }

    /// A copy of the state of every variable, each once.
    pub fn snapshot_all(&self) -> (r: Vec<(String, AnyCrdt)>)
        ensures
            r@.len() == self@.dom().len(),
            keys_unique(r@),
            entries_view(r@) == self@,
    {
        proof {
            use_type_invariant(self);
            crate::crdt::keyed::lemma_view_len(self.entries@);
        }
        let n = self.entries.len();
        let mut out: Vec<(String, AnyCrdt)> = Vec::new();
        let mut i: usize = 0;
        while i < n
            invariant
                n == self.entries@.len(),
                i <= n,
                keys_unique(self.entries@),
                out@.len() == i,
                forall|j: int| 0 <= j < i ==> #[trigger] out@[j].0@ == self.entries@[j].0@ && out@[j].1@ == self.entries@[j].1@,
            decreases n - i,
        {
            out.push((self.entries[i].0.clone(), self.entries[i].1.as_any_crdt()));
            i = i + 1;
        }
        proof {
            crate::crdt::keyed::lemma_view_same(self.entries@, out@);
        }
        out
    }

    /// Puts `replica` under `name`, replacing any variable of that name.
    pub fn insert(&mut self, name: String, replica: AnyReplica)
        ensures
            final(self)@ == old(self)@.insert(name@, replica@),
            final(self).replica(name@) == replica,
            forall|n: Seq<char>| n != name@ && old(self)@.contains_key(n) ==> #[trigger] final(self).replica(n) == old(self).replica(n),
    {
        proof {
            use_type_invariant(&*self);
        }
        let mut entries: Vec<(String, AnyReplica)> = Vec::new();
        std::mem::swap(&mut entries, &mut self.entries);
        let ghost before = entries@;
        match find_key(&entries, &name) {
            Some(i) => {
                entries[i].1 = replica;
                proof {
                    assert(entries@ =~= before.update(i as int, (before[i as int].0, replica)));
                    lemma_put_back(before, entries@, i as int, replica);
                }
            },
            None => {
                proof {
                    lemma_push_back(entries@, name, replica);
                }
                entries.push((name, replica));
            },
        }
        self.entries = entries;
    }

    /// Creates variable `name` with `replica` unless the name is taken; gives back a copy
    /// of the new state, or `None` (and no change) when the name was taken.
    pub fn add_new(&mut self, name: String, replica: AnyReplica) -> (r: Option<AnyCrdt>)
        ensures
            old(self)@.contains_key(name@) ==> r is None && *final(self) == *old(self),
            !old(self)@.contains_key(name@) ==> (r matches Some(c) && c@ == replica@) && final(self)@
                == old(self)@.insert(name@, replica@) && final(self).replica(name@) == replica,
            forall|n: Seq<char>| n != name@ && old(self)@.contains_key(n) ==> #[trigger] final(self).replica(n) == old(self).replica(n),
    {
        if self.contains(name.as_str()) {
            return None;
        }
        let snapshot = replica.as_any_crdt();
        self.insert(name, replica);
        Some(snapshot)
    }

    /// Merges a state received for variable `name` into the local replica, or starts a
    /// replica from it when there is none; a state of another kind is refused, and the
    /// variable kept as it was. Gives back a copy of the variable's new state.
    pub fn merge_or_insert(&mut self, name: String, crdt: AnyCrdt, hlc: Arc<uhlc::HLC>) -> (r: Result<
        AnyCrdt,
        AnyCrdt,
    >)
        ensures
            old(self)@.contains_key(name@) ==> match merge_state(old(self)@[name@], crdt@) {
                Some(m) => final(self)@ == old(self)@.insert(name@, m) && (r matches Ok(c) && c@ == m),
                None => final(self)@ == old(self)@ && (r matches Err(c) && c@ == crdt@),
            },
            !old(self)@.contains_key(name@) ==> final(self)@ == old(self)@.insert(name@, crdt@) && (r matches Ok(
                c,
            ) && c@ == crdt@),
            old(self)@.contains_key(name@) ==> same_handle(old(self).replica(name@), final(self).replica(name@)),
            !old(self)@.contains_key(name@) ==> started_on(final(self).replica(name@), hlc),
            forall|n: Seq<char>| n != name@ && old(self)@.contains_key(n) ==> #[trigger] final(self).replica(n) == old(self).replica(n),
    {
        proof {
            use_type_invariant(&*self);
        }
        let mut entries: Vec<(String, AnyReplica)> = Vec::new();
        std::mem::swap(&mut entries, &mut self.entries);
        let ghost before = entries@;
        let r = match find_key(&entries, &name) {
            Some(i) => {
                proof {
                    lemma_view_at(before, i as int);
                }
                let res = entries[i].1.merge(crdt);
                proof {
                    let nv = entries@[i as int].1;
                    assert(entries@ =~= before.update(i as int, (before[i as int].0, nv)));
                    lemma_put_back(before, entries@, i as int, nv);
                    if res is Err {
                        assert(entries_view(before).insert(name@, nv@) =~= entries_view(before));
                    }
                }
                match res {
                    Ok(()) => Ok(entries[i].1.as_any_crdt()),
                    Err(c) => Err(c),
                }
            },
            None => {
                let replica = AnyReplica::from_crdt(crdt, hlc);
                let snapshot = replica.as_any_crdt();
                proof {
                    lemma_push_back(entries@, name, replica);
                }
                entries.push((name, replica));
                Ok(snapshot)
            },
        };
        self.entries = entries;
        r
    }

    /// Merges a state received for variable `name` into the local replica; a state of
    /// another kind replaces the local one, and a new name starts a replica from it.
    pub fn merge_received(&mut self, name: String, crdt: AnyCrdt, hlc: Arc<uhlc::HLC>)
        ensures
            final(self)@ == old(self)@.insert(
                name@,
                if old(self)@.contains_key(name@) && merge_state(old(self)@[name@], crdt@) is Some {
                    merge_state(old(self)@[name@], crdt@)->0
                } else {
                    crdt@
                },
            ),
            old(self)@.contains_key(name@) && merge_state(old(self)@[name@], crdt@) is Some ==> same_handle(
                old(self).replica(name@),
                final(self).replica(name@),
            ),
            !(old(self)@.contains_key(name@) && merge_state(old(self)@[name@], crdt@) is Some) ==> started_on(
                final(self).replica(name@),
                hlc,
            ),
            forall|n: Seq<char>| n != name@ && old(self)@.contains_key(n) ==> #[trigger] final(self).replica(n) == old(self).replica(n),
    {
        proof {
            use_type_invariant(&*self);
        }
        let mut entries: Vec<(String, AnyReplica)> = Vec::new();
        std::mem::swap(&mut entries, &mut self.entries);
        let ghost before = entries@;
        match find_key(&entries, &name) {
            Some(i) => {
                proof {
                    lemma_view_at(before, i as int);
                }
                match entries[i].1.merge(crdt) {
                    Ok(()) => {
                        proof {
                            let nv = entries@[i as int].1;
                            assert(entries@ =~= before.update(i as int, (before[i as int].0, nv)));
                            lemma_put_back(before, entries@, i as int, nv);
                        }
                    },
                    Err(c) => {
                        let replica = AnyReplica::from_crdt(c, hlc);
                        let ghost mid = entries@;
                        proof {
                            lemma_view_update(mid, i as int, replica);
                            assert(entries_view(mid) == entries_view(before)) by {
                                let nv = mid[i as int].1;
                                assert(mid =~= before.update(i as int, (before[i as int].0, nv)));
                                lemma_view_update(before, i as int, nv);
                                assert(entries_view(before).insert(name@, nv@) =~= entries_view(before));
                            }
                        }
                        entries[i].1 = replica;
                        proof {
                            assert(entries@ =~= mid.update(i as int, (mid[i as int].0, replica)));
                            assert(entries@ =~= before.update(i as int, (before[i as int].0, replica)));
                            lemma_put_back(before, entries@, i as int, replica);
                        }
                    },
                }
            },
            None => {
                let replica = AnyReplica::from_crdt(crdt, hlc);
                proof {
                    lemma_push_back(entries@, name, replica);
                }
                entries.push((name, replica));
            },
        }
        self.entries = entries;
    }

    /// The replica kept under `name`.
    pub closed spec fn replica(&self, name: Seq<char>) -> AnyReplica {
        self.entries@[key_index(self.entries@, name)].1
    }

    /// The replica kept under a name stands for the state under that name.
    pub proof fn lemma_replica(&self, name: Seq<char>)
        requires
            self@.contains_key(name),
        ensures
            self.replica(name)@ == self@[name],
    {
        let i = key_index(self.entries@, name);
    }

    /// Takes every entry out, leaving the store empty, for an update in place.
    fn take_entries(&mut self) -> (r: Vec<(String, AnyReplica)>)
        ensures
            r@ == old(self).entries@,
            keys_unique(r@),
            final(self)@ == Map::<Seq<char>, AnyState>::empty(),
    {
        proof {
            use_type_invariant(&*self);
        }
        let mut entries: Vec<(String, AnyReplica)> = Vec::new();
        std::mem::swap(&mut entries, &mut self.entries);
        proof {
            lemma_view_empty(self.entries@);
        }
        entries
    }

    /// Adds `delta` to this replica's own count of counter `name`. A count that would go
    /// past `u64::MAX` is refused and nothing changes. Gives back a copy of the state under
    /// `name`, if there is one; a variable of another kind is left as it is.
    pub fn counter_inc(&mut self, name: &str, delta: u64) -> (r: Result<Option<AnyCrdt>, CountOverflow>)
        ensures
            forall|n: Seq<char>| n != name@ && old(self)@.contains_key(n) ==> #[trigger] final(self).replica(n) == old(self).replica(n),
            match counter_of(old(self)@, old(self).replica(name@), name@) {
                Some(g) => if count_of(g.crdt@, g.id@) + delta <= u64::MAX {
                    &&& final(self)@ == old(self)@.insert(
                        name@,
                        AnyState::GCounter(g.crdt@.insert(g.id@, (count_of(g.crdt@, g.id@) + delta) as u64)),
                    )
                    &&& counter_of(final(self)@, final(self).replica(name@), name@) matches Some(h) && h.id@ == g.id@
                    &&& r matches Ok(Some(c)) && c@ == final(self)@[name@]
                } else {
                    final(self)@ == old(self)@ && r is Err
                },
                None => final(self)@ == old(self)@ && (r matches Ok(s) && snapshot_of(old(self)@, name@, s)),
            },
    {
        let mut entries = self.take_entries();
        let ghost before = entries@;
        let key = name.to_string();
        let r = match find_key(&entries, &key) {
            Some(i) => {
                proof {
                    lemma_view_at(before, i as int);
                }
                let (k, rep) = entries.remove(i);
                let (rep, res) = match rep {
                    AnyReplica::GCounter(mut g) => {
                        let cur = g.crdt.get(g.id.as_str());
                        if delta <= u64::MAX - cur {
                            g.inc(delta);
                            (AnyReplica::GCounter(g), Ok(()))
                        } else {
                            (AnyReplica::GCounter(g), Err(CountOverflow))
                        }
                    },
                    other => (other, Ok(())),
                };
                let snap = rep.as_any_crdt();
                entries.insert(i, (k, rep));
                proof {
                    assert(entries@ =~= before.update(i as int, (before[i as int].0, rep)));
                    lemma_put_back(before, entries@, i as int, rep);
                    if rep@ == before[i as int].1@ {
                        assert(entries_view(before).insert(name@, rep@) =~= entries_view(before));
                    }
                }
                match res {
                    Ok(()) => Ok(Some(snap)),
                    Err(e) => Err(e),
                }
            },
            None => Ok(None),
        };
        self.entries = entries;
        r
    }

    /// The value of counter `name`: the sum of its counts, or `None` when that sum does
    /// not fit in a `u64`; zero when there is no counter of that name.
    pub fn counter_value(&self, name: &str) -> (r: Option<u64>)
        ensures
            match counter_of(self@, self.replica(name@), name@) {
                Some(g) => r == (if total(g.crdt@) <= u64::MAX {
                    Some(total(g.crdt@) as u64)
                } else {
                    None
                }),
                None => r == Some(0u64),
            },
    {
        proof {
            use_type_invariant(self);
        }
        match self.position(name) {
            Some(i) => {
                proof {
                    lemma_view_at(self.entries@, i as int);
                }
                match &self.entries[i].1 {
                    AnyReplica::GCounter(g) => g.crdt.checked_value(),
                    _ => Some(0),
                }
            },
            None => Some(0),
        }
    }

    /// Adds `element` to set `name`: a last-writer-wins set stamps it from its clock, an
    /// observed-remove set tags it with its next count (refused, with no change, when the
    /// count is at `u64::MAX`). Gives back a copy of the state under `name`, if any; a
    /// variable of another kind is left as it is.
    pub fn set_add(&mut self, name: &str, element: String) -> (r: Result<Option<AnyCrdt>, CountOverflow>)
        ensures
            forall|n: Seq<char>| n != name@ && old(self)@.contains_key(n) ==> #[trigger] final(self).replica(n) == old(self).replica(n),
            !old(self)@.contains_key(name@) ==> final(self)@ == old(self)@ && (r matches Ok(None)),
            old(self)@.contains_key(name@) ==> match old(self).replica(name@) {
                AnyReplica::LWWSet(l) => {
                    &&& match final(self).replica(name@) {
                        AnyReplica::LWWSet(m) => match m.hlc.last() {
                            Some(ts) => stamped_after(l.hlc, m.hlc, ts) && final(self)@ == old(self)@.insert(
                                name@,
                                AnyState::LWWSet(
                                    LwwState {
                                        bias: l.lww_set@.bias,
                                        adds: l.lww_set@.adds.insert(element@, ts),
                                        removes: l.lww_set@.removes,
                                    },
                                ),
                            ),
                            None => false,
                        },
                        _ => false,
                    }
                    &&& r matches Ok(Some(c)) && c@ == final(self)@[name@]
                },
                AnyReplica::ORSet(o) => if o.counter < u64::MAX {
                    &&& final(self)@ == old(self)@.insert(
                        name@,
                        AnyState::ORSet(or_add(o.crdt@, element@, (o.id@, (o.counter + 1) as u64))),
                    )
                    &&& final(self).replica(name@) matches AnyReplica::ORSet(p) && p.id@ == o.id@ && p.counter
                        == o.counter + 1
                    &&& r matches Ok(Some(c)) && c@ == final(self)@[name@]
                } else {
                    final(self)@ == old(self)@ && r is Err
                },
                _ => final(self)@ == old(self)@ && (r matches Ok(Some(c)) && c@ == old(self)@[name@]),
            },
    {
        let mut entries = self.take_entries();
        let ghost before = entries@;
        let key = name.to_string();
        let r = match find_key(&entries, &key) {
            Some(i) => {
                proof {
                    lemma_view_at(before, i as int);
                }
                let (k, rep) = entries.remove(i);
                let (rep, res) = match rep {
                    AnyReplica::LWWSet(mut l) => {
                        l.add(element);
                        (AnyReplica::LWWSet(l), Ok(()))
                    },
                    AnyReplica::ORSet(mut o) => {
                        if o.counter < u64::MAX {
                            o.add(element);
                            (AnyReplica::ORSet(o), Ok(()))
                        } else {
                            (AnyReplica::ORSet(o), Err(CountOverflow))
                        }
                    },
                    other => (other, Ok(())),
                };
                let snap = rep.as_any_crdt();
                entries.insert(i, (k, rep));
                proof {
                    assert(entries@ =~= before.update(i as int, (before[i as int].0, rep)));
                    lemma_put_back(before, entries@, i as int, rep);
                    if rep@ == before[i as int].1@ {
                        assert(entries_view(before).insert(name@, rep@) =~= entries_view(before));
                    }
                }
                match res {
                    Ok(()) => Ok(Some(snap)),
                    Err(e) => Err(e),
                }
            },
            None => Ok(None),
        };
        self.entries = entries;
        r
    }

    /// Removes `element` from set `name`: a last-writer-wins set stamps the removal from
    /// its clock, an observed-remove set removes the tags it has seen. Gives back a copy of
    /// the state under `name`, if any; a variable of another kind is left as it is.
    pub fn set_remove(&mut self, name: &str, element: String) -> (r: Option<AnyCrdt>)
        ensures
            forall|n: Seq<char>| n != name@ && old(self)@.contains_key(n) ==> #[trigger] final(self).replica(n) == old(self).replica(n),
            snapshot_of(final(self)@, name@, r),
            !old(self)@.contains_key(name@) ==> final(self)@ == old(self)@,
            old(self)@.contains_key(name@) ==> match old(self).replica(name@) {
                AnyReplica::LWWSet(l) => match final(self).replica(name@) {
                    AnyReplica::LWWSet(m) => match m.hlc.last() {
                        Some(ts) => stamped_after(l.hlc, m.hlc, ts) && final(self)@ == old(self)@.insert(
                            name@,
                            AnyState::LWWSet(
                                LwwState {
                                    bias: l.lww_set@.bias,
                                    adds: l.lww_set@.adds,
                                    removes: l.lww_set@.removes.insert(element@, ts),
                                },
                            ),
                        ),
                        None => false,
                    },
                    _ => false,
                },
                AnyReplica::ORSet(o) => {
                    &&& final(self)@ == old(self)@.insert(name@, AnyState::ORSet(or_remove(o.crdt@, element@)))
                    &&& final(self).replica(name@) matches AnyReplica::ORSet(p) && p.id@ == o.id@ && p.counter
                        == o.counter
                },
                _ => final(self)@ == old(self)@,
            },
    {
        let mut entries = self.take_entries();
        let ghost before = entries@;
        let key = name.to_string();
        let r = match find_key(&entries, &key) {
            Some(i) => {
                proof {
                    lemma_view_at(before, i as int);
                }
                let (k, rep) = entries.remove(i);
                let rep = match rep {
                    AnyReplica::LWWSet(mut l) => {
                        l.remove(element);
                        AnyReplica::LWWSet(l)
                    },
                    AnyReplica::ORSet(mut o) => {
                        o.remove(&element);
                        AnyReplica::ORSet(o)
                    },
                    other => other,
                };
                let snap = rep.as_any_crdt();
                entries.insert(i, (k, rep));
                proof {
                    assert(entries@ =~= before.update(i as int, (before[i as int].0, rep)));
                    lemma_put_back(before, entries@, i as int, rep);
                    if rep@ == before[i as int].1@ {
                        assert(entries_view(before).insert(name@, rep@) =~= entries_view(before));
                    }
                }
                Some(snap)
            },
            None => None,
        };
        self.entries = entries;
        r
    }

    /// The members of set `name`; none when there is no set of that name.
    pub fn set_members(&self, name: &str) -> (r: ElementSet<String>)
        ensures
            !self@.contains_key(name@) ==> r@ == Set::<Seq<char>>::empty(),
            self@.contains_key(name@) ==> match self@[name@] {
                AnyState::LWWSet(s) => r@ == lww_members(s),
                AnyState::ORSet(s) => r@ == or_members(s),
                _ => r@ == Set::<Seq<char>>::empty(),
            },
    {
        match self.position(name) {
            Some(i) => match &self.entries[i].1 {
                AnyReplica::LWWSet(l) => l.members(),
                AnyReplica::ORSet(o) => o.members(),
                _ => ElementSet::new(),
            },
            None => ElementSet::new(),
        }
    }

    /// Inserts `value` into array `name` after node `after_id` (at the head for `None`),
    /// under a new identifier made from the array replica's clock and identifier. Gives back
    /// a copy of the state under `name`, if any, and the new identifier when `name` is an
    /// array; a variable of another kind is left as it is.
    pub fn array_insert(&mut self, name: &str, after_id: Option<String>, value: String) -> (r: (
        Option<AnyCrdt>,
        Option<String>,
    ))
        ensures
            forall|n: Seq<char>| n != name@ && old(self)@.contains_key(n) ==> #[trigger] final(self).replica(n) == old(self).replica(n),
            snapshot_of(final(self)@, name@, r.0),
            !old(self)@.contains_key(name@) ==> final(self)@ == old(self)@ && r.1 is None,
            old(self)@.contains_key(name@) ==> match old(self).replica(name@) {
                AnyReplica::RGA(a) => match final(self).replica(name@) {
                    AnyReplica::RGA(b) => match b.hlc.last() {
                        Some(s) => match r.1 {
                            Some(id) => b.id == a.id && stamped_after(a.hlc, b.hlc, s) && id@ == node_id_at(
                                s.time,
                                a.id@,
                            ) && final(self)@ == old(self)@.insert(
                                name@,
                                AnyState::RGA(insert_node(a.crdt@, id@, opt_view(after_id), value@)),
                            ),
                            None => false,
                        },
                        None => false,
                    },
                    _ => false,
                },
                _ => final(self)@ == old(self)@ && r.1 is None,
            },
    {
        let mut entries = self.take_entries();
        let ghost before = entries@;
        let key = name.to_string();
        let r = match find_key(&entries, &key) {
            Some(i) => {
                proof {
                    lemma_view_at(before, i as int);
                }
                let (k, rep) = entries.remove(i);
                let (rep, id) = match rep {
                    AnyReplica::RGA(mut a) => {
                        let id = a.insert(after_id, value);
                        (AnyReplica::RGA(a), Some(id))
                    },
                    other => (other, None),
                };
                let snap = rep.as_any_crdt();
                entries.insert(i, (k, rep));
                proof {
                    assert(entries@ =~= before.update(i as int, (before[i as int].0, rep)));
                    lemma_put_back(before, entries@, i as int, rep);
                    if rep@ == before[i as int].1@ {
                        assert(entries_view(before).insert(name@, rep@) =~= entries_view(before));
                    }
                }
                (Some(snap), id)
            },
            None => (None, None),
        };
        self.entries = entries;
        r
    }

    /// Marks node `id` of array `name` as removed. Gives back a copy of the state under
    /// `name`, if any; a variable of another kind is left as it is.
    pub fn array_remove(&mut self, name: &str, id: String) -> (r: Option<AnyCrdt>)
        ensures
            forall|n: Seq<char>| n != name@ && old(self)@.contains_key(n) ==> #[trigger] final(self).replica(n) == old(self).replica(n),
            snapshot_of(final(self)@, name@, r),
            !old(self)@.contains_key(name@) ==> final(self)@ == old(self)@,
            old(self)@.contains_key(name@) ==> match old(self).replica(name@) {
                AnyReplica::RGA(a) => final(self)@ == old(self)@.insert(name@, AnyState::RGA(remove_node(a.crdt@, id@)))
                    && (final(self).replica(name@) matches AnyReplica::RGA(b) && b.id == a.id && b.hlc == a.hlc),
                _ => final(self)@ == old(self)@,
            },
    {
        let mut entries = self.take_entries();
        let ghost before = entries@;
        let key = name.to_string();
        let r = match find_key(&entries, &key) {
            Some(i) => {
                proof {
                    lemma_view_at(before, i as int);
                }
                let (k, rep) = entries.remove(i);
                let rep = match rep {
                    AnyReplica::RGA(mut a) => {
                        a.remove(id.as_str());
                        AnyReplica::RGA(a)
                    },
                    other => other,
                };
                let snap = rep.as_any_crdt();
                entries.insert(i, (k, rep));
                proof {
                    assert(entries@ =~= before.update(i as int, (before[i as int].0, rep)));
                    lemma_put_back(before, entries@, i as int, rep);
                    if rep@ == before[i as int].1@ {
                        assert(entries_view(before).insert(name@, rep@) =~= entries_view(before));
                    }
                }
                Some(snap)
            },
            None => None,
        };
        self.entries = entries;
        r
    }

    /// The elements of array `name` in order; none when there is no array of that name.
    pub fn array_to_vec(&self, name: &str) -> (r: Vec<(String, String)>)
        ensures
            !self@.contains_key(name@) ==> r@.len() == 0,
            self@.contains_key(name@) ==> match self@[name@] {
                AnyState::RGA(m) => pair_views(r@) == sequence(m),
                _ => r@.len() == 0,
            },
    {
        match self.position(name) {
            Some(i) => match &self.entries[i].1 {
                AnyReplica::RGA(a) => a.to_vec(),
                _ => Vec::new(),
            },
            None => Vec::new(),
        }
    }
}

/// Putting back an updated replica at its position updates the map at its name only.
proof fn lemma_put_back(before: Seq<(String, AnyReplica)>, after: Seq<(String, AnyReplica)>, i: int, rep: AnyReplica)
    requires
        keys_unique(before),
        0 <= i < before.len(),
        after == before.update(i, (before[i].0, rep)),
    ensures
        keys_unique(after),
        entries_view(after) == entries_view(before).insert(before[i].0@, rep@),
        key_index(after, before[i].0@) == i,
        key_index(before, before[i].0@) == i,
        after[i].1 == rep,
        forall|n: Seq<char>|
            n != before[i].0@ && has_key(before, n) ==> #[trigger] after[key_index(after, n)].1 == before[key_index(
                before,
                n,
            )].1,
{
    lemma_view_update(before, i, rep);
    lemma_view_at(after, i);
    lemma_view_at(before, i);
    assert forall|n: Seq<char>| n != before[i].0@ && has_key(before, n) implies #[trigger] after[key_index(
        after,
        n,
    )].1 == before[key_index(before, n)].1 by {
        let j = key_index(before, n);
        lemma_view_at(before, j);
        assert(after[j].0@ == n);
        lemma_view_at(after, j);
    }
}

/// Handle `m` draws from the clock of handle `l`, and the last stamp it drew, `ts`,
/// follows every stamp that `l` had drawn.
pub open spec fn stamped_after(l: Clock, m: Clock, ts: Stamp) -> bool {
    m.source() == l.source() && m.clock_id() == l.clock_id() && m.last() == Some(ts) && l.follows(ts)
}

/// Adding an entry under a new name keeps every other replica in its place.
proof fn lemma_push_back(before: Seq<(String, AnyReplica)>, k: String, rep: AnyReplica)
    requires
        keys_unique(before),
        !has_key(before, k@),
    ensures
        keys_unique(before.push((k, rep))),
        entries_view(before.push((k, rep))) == entries_view(before).insert(k@, rep@),
        key_index(before.push((k, rep)), k@) == before.len(),
        forall|n: Seq<char>|
            has_key(before, n) ==> #[trigger] before.push((k, rep))[key_index(before.push((k, rep)), n)].1
                == before[key_index(before, n)].1,
{
    let after = before.push((k, rep));
    lemma_view_push(before, k, rep);
    lemma_view_at(after, before.len() as int);
    assert forall|n: Seq<char>| has_key(before, n) implies #[trigger] after[key_index(after, n)].1 == before[key_index(
        before,
        n,
    )].1 by {
        let j = key_index(before, n);
        lemma_view_at(before, j);
        assert(after[j] == before[j]);
        lemma_view_at(after, j);
    }
}

/// The counter replica under `name`, if the variable there is a counter.
pub open spec fn counter_of(m: Map<Seq<char>, AnyState>, rep: AnyReplica, name: Seq<char>) -> Option<
    crate::crdt::g_counter::GCounterReplica,
> {
    if m.contains_key(name) {
        match rep {
            AnyReplica::GCounter(g) => Some(g),
            _ => None,
        }
    } else {
        None
    }
}

/// `s` is a copy of the state under `name` when there is one, and `None` otherwise.
pub open spec fn snapshot_of(m: Map<Seq<char>, AnyState>, name: Seq<char>, s: Option<AnyCrdt>) -> bool {
    match s {
        Some(c) => m.contains_key(name) && c@ == m[name],
        None => !m.contains_key(name),
    }
}

} // verus!
