use vstd::prelude::*;
use crate::crdt::Crdt;
use crate::crdt::element::Duplicate;
use crate::crdt::keyed::{
    check_unique, clone_entries, entries_view, find_key, keys_unique, lemma_view_at, lemma_view_empty,
    lemma_view_finite, lemma_view_push, lemma_view_same, lemma_view_take, lemma_view_update,
};
use crate::ids::fresh_uuid;

verus! {

/// The sum of all counts in a finite map.
pub open spec fn total<K>(m: Map<K, u64>) -> int
    decreases m.dom().len(),
    when m.dom().finite()
{
    if m.dom().len() == 0 {
        0
    } else {
        let k = m.dom().choose();
        m[k] + total(m.remove(k))
    }
}

/// The total does not depend on which key is taken out first.
pub proof fn lemma_total_remove<K>(m: Map<K, u64>, k: K)
    requires
        m.dom().finite(),
        m.contains_key(k),
    ensures
        total(m) == m[k] + total(m.remove(k)),
    decreases m.dom().len(),
{
    let c = m.dom().choose();
    if c != k {
        lemma_total_remove(m.remove(c), k);
        lemma_total_remove(m.remove(k), c);
        assert(m.remove(c).remove(k) =~= m.remove(k).remove(c));
    }
}

/// Inserting a fresh key adds its count to the total.
pub proof fn lemma_total_insert<K>(m: Map<K, u64>, k: K, v: u64)
    requires
        m.dom().finite(),
        !m.contains_key(k),
    ensures
        total(m.insert(k, v)) == v + total(m),
{
    lemma_total_remove(m.insert(k, v), k);
    assert(m.insert(k, v).remove(k) =~= m);
}

/// Replacing the count of a key changes the total by the difference.
pub proof fn lemma_total_update<K>(m: Map<K, u64>, k: K, v: u64)
    requires
        m.dom().finite(),
        m.contains_key(k),
    ensures
        total(m.insert(k, v)) == total(m) - m[k] + v,
{
    lemma_total_remove(m.insert(k, v), k);
    lemma_total_remove(m, k);
    assert(m.insert(k, v).remove(k) =~= m.remove(k));
}

/// The count of `k` in `m`, zero where `m` has none.
pub open spec fn count_of(m: Map<Seq<char>, u64>, k: Seq<char>) -> int {
    if m.contains_key(k) {
        m[k] as int
    } else {
        0
    }
}

/// The pointwise maximum of two count maps: the join of the counter lattice.
pub open spec fn merge_counts(a: Map<Seq<char>, u64>, b: Map<Seq<char>, u64>) -> Map<
    Seq<char>,
    u64,
> {
    Map::new(
        |k: Seq<char>| a.contains_key(k) || b.contains_key(k),
        |k: Seq<char>|
            if a.contains_key(k) && b.contains_key(k) {
                if a[k] >= b[k] {
                    a[k]
                } else {
                    b[k]
                }
            } else if a.contains_key(k) {
                a[k]
            } else {
                b[k]
            },
    )
}

/// A grow-only counter: one count per node, and the value is their sum.
#[derive(Debug)]
pub struct GCounter {
    counters: Vec<(String, u64)>,
}

impl View for GCounter {
    type V = Map<Seq<char>, u64>;

    closed spec fn view(&self) -> Map<Seq<char>, u64> {
        entries_view(self.counters@)
    }
}

impl GCounter {
    #[verifier::type_invariant]
    spec fn wf(self) -> bool {
        keys_unique(self.counters@)
    }

    /// The counts of a counter are a finite map.
    pub proof fn lemma_finite(&self)
        ensures
            self@.dom().finite(),
    {
        lemma_view_finite(self.counters@);
    }

    pub fn new() -> (r: Self)
        ensures
            r@ == Map::<Seq<char>, u64>::empty(),
    {
        let r = GCounter { counters: Vec::new() };
        proof {
            lemma_view_empty(r.counters@);
        }
        r
    }

}

impl Clone for GCounter {
    /// A copy of the counter.
    fn clone(&self) -> (r: Self)
        ensures
            r@ == self@,
    {
        proof {
            use_type_invariant(self);
        }
        let counters = clone_entries(&self.counters);
        proof {
            lemma_view_same(self.counters@, counters@);
        }
        GCounter { counters }
    }
}

impl Default for GCounter {
    fn default() -> (r: Self)
        ensures
            r@ == Map::<Seq<char>, u64>::empty(),
    {
        GCounter::new()
    }
}

impl GCounter {
    /// Adds `delta` to the count of node `node_id`.
    pub fn inc(&mut self, node_id: &str, delta: u64)
        requires
            count_of(old(self)@, node_id@) + delta <= u64::MAX,
        ensures
            final(self)@ == old(self)@.insert(node_id@, (count_of(old(self)@, node_id@) + delta) as u64),
    {
        proof {
            use_type_invariant(&*self);
        }
        let key = node_id.to_string();
        let mut counters: Vec<(String, u64)> = Vec::new();
        std::mem::swap(&mut counters, &mut self.counters);
        match find_key(&counters, &key) {
            Some(i) => {
                proof {
                    lemma_view_at(counters@, i as int);
                    lemma_view_update(counters@, i as int, (counters@[i as int].1 + delta) as u64);
                }
                counters[i].1 = counters[i].1 + delta;
            },
            None => {
                proof {
                    lemma_view_push(counters@, key, delta);
                }
                counters.push((key, delta));
            },
        }
        self.counters = counters;
    }

    /// The counts, one entry per node.
    pub fn to_entries(&self) -> (r: Vec<(String, u64)>)
        ensures
            keys_unique(r@),
            entries_view(r@) == self@,
    {
        proof {
            use_type_invariant(self);
        }
        let out = clone_entries(&self.counters);
        proof {
            assert(out@.len() == self.counters@.len());
            assert forall|i: int| 0 <= i < self.counters@.len() implies #[trigger] out@[i].0@ == self.counters@[i].0@ by {}
            lemma_view_same(self.counters@, out@);
        }
        out
    }

    /// The counter with the given counts; `None` when a node occurs twice.
    pub fn from_entries(entries: Vec<(String, u64)>) -> (r: Option<Self>)
        ensures
            r is Some <==> keys_unique(entries@),
            r matches Some(c) ==> c@ == entries_view(entries@),
    {
        if check_unique(&entries) {
            Some(GCounter { counters: entries })
        } else {
            None
        }
    }

    /// The count of node `node_id`, zero if it has none.
    pub fn get(&self, node_id: &str) -> (r: u64)
        ensures
            r == count_of(self@, node_id@),
    {
        proof {
            use_type_invariant(self);
        }
        let key = node_id.to_string();
        match find_key(&self.counters, &key) {
            Some(i) => {
                proof {
                    lemma_view_at(self.counters@, i as int);
                }
                self.counters[i].1
            },
            None => 0,
        }
    }

    /// The sum of all counts, if it fits in a `u64`.
    pub fn checked_value(&self) -> (r: Option<u64>)
        ensures
            r == (if total(self@) <= u64::MAX {
                Some(total(self@) as u64)
            } else {
                None
            }),
    {
        proof {
            use_type_invariant(self);
        }
        let n = self.counters.len();
        let mut sum: u64 = 0;
        let mut i: usize = 0;
        proof {
            lemma_view_empty(self.counters@.take(0));
            assert(self.counters@.take(n as int) =~= self.counters@);
        }
        while i < n
            invariant
                n == self.counters@.len(),
                i <= n,
                keys_unique(self.counters@),
                self.counters@.take(n as int) == self.counters@,
                sum == total(entries_view(self.counters@.take(i as int))),
            decreases n - i,
        {
            proof {
                lemma_view_take(self.counters@, i as int);
                lemma_view_finite(self.counters@.take(i as int));
                lemma_total_insert(
                    entries_view(self.counters@.take(i as int)),
                    self.counters@[i as int].0@,
                    self.counters@[i as int].1,
                );
            }
            let c = self.counters[i].1;
            if c > u64::MAX - sum {
                proof {
                    lemma_prefix_total_le(self.counters@, i + 1, n as int);
                }
                return None;
            }
            sum = sum + c;
            i = i + 1;
        }
        Some(sum)
    }

    /// The sum of all counts.
    pub fn value(&self) -> (r: u64)
        requires
            total(self@) <= u64::MAX,
        ensures
            r == total(self@),
    {
        proof {
            use_type_invariant(self);
        }
        let n = self.counters.len();
        let mut sum: u64 = 0;
        let mut i: usize = 0;
        proof {
            lemma_view_empty(self.counters@.take(0));
            assert(self.counters@.take(n as int) =~= self.counters@);
            lemma_prefix_total_le(self.counters@, 0, n as int);
        }
        while i < n
            invariant
                n == self.counters@.len(),
                i <= n,
                keys_unique(self.counters@),
                total(entries_view(self.counters@)) <= u64::MAX,
                self.counters@.take(n as int) == self.counters@,
                sum == total(entries_view(self.counters@.take(i as int))),
            decreases n - i,
        {
            proof {
                lemma_view_take(self.counters@, i as int);
                lemma_view_finite(self.counters@.take(i as int));
                lemma_total_insert(
                    entries_view(self.counters@.take(i as int)),
                    self.counters@[i as int].0@,
                    self.counters@[i as int].1,
                );
                lemma_prefix_total_le(self.counters@, i + 1, n as int);
            }
            sum = sum + self.counters[i].1;
            i = i + 1;
        }
        sum
    }
}

/// The total of a prefix never exceeds the total of a longer prefix.
proof fn lemma_prefix_total_le(s: Seq<(String, u64)>, i: int, j: int)
    requires
        keys_unique(s),
        0 <= i <= j <= s.len(),
    ensures
        total(entries_view(s.take(i))) <= total(entries_view(s.take(j))),
    decreases j - i,
{
    if i < j {
        lemma_prefix_total_le(s, i, j - 1);
        lemma_view_take(s, j - 1);
        lemma_view_finite(s.take(j - 1));
        lemma_total_insert(entries_view(s.take(j - 1)), s[j - 1].0@, s[j - 1].1);
    }
}

impl Crdt for GCounter {
    type Struct = GCounter;

    /// Takes, for every node, the larger of the two counts.
    fn merge(&mut self, other: &Self::Struct)
        ensures
            final(self)@ == merge_counts(old(self)@, other@),
    {
        proof {
            use_type_invariant(&*self);
            use_type_invariant(other);
        }
        let mut counters: Vec<(String, u64)> = Vec::new();
        std::mem::swap(&mut counters, &mut self.counters);
        let ghost start = entries_view(counters@);
        let n = other.counters.len();
        let mut i: usize = 0;
        proof {
            lemma_view_empty(other.counters@.take(0));
            assert(merge_counts(start, Map::empty()) =~= start);
        }
        while i < n
            invariant
                n == other.counters@.len(),
                i <= n,
                keys_unique(other.counters@),
                keys_unique(counters@),
                entries_view(counters@) == merge_counts(start, entries_view(other.counters@.take(i as int))),
            decreases n - i,
        {
            let ghost before = entries_view(counters@);
            let ghost prefix = entries_view(other.counters@.take(i as int));
            proof {
                lemma_view_take(other.counters@, i as int);
            }
            let remote = &other.counters[i];
            let ghost k = remote.0@;
            match find_key(&counters, &remote.0) {
                Some(j) => {
                    let local = counters[j].1;
                    let m = if local >= remote.1 { local } else { remote.1 };
                    proof {
                        lemma_view_at(counters@, j as int);
                        lemma_view_update(counters@, j as int, m);
                    }
                    counters[j].1 = m;
                    proof {
                        assert(before.contains_key(k) && before[k] == local);
                        assert(entries_view(counters@) == before.insert(k, m));
                    }
                },
                None => {
                    let key = remote.0.duplicate();
                    proof {
                        lemma_view_push(counters@, key, remote.1);
                    }
                    counters.push((key, remote.1));
                    proof {
                        assert(!before.contains_key(k));
                        assert(entries_view(counters@) == before.insert(k, remote.1));
                    }
                },
            }
            proof {
                assert(!prefix.contains_key(k));
                assert(entries_view(counters@) =~= merge_counts(start, prefix.insert(k, remote.1)));
            }
            i = i + 1;
        }
        proof {
            assert(other.counters@.take(n as int) =~= other.counters@);
        }
        self.counters = counters;
    }
}

/// A node's handle on a grow-only counter: increments go to the node's own count.
#[derive(Debug)]
pub struct GCounterReplica {
    pub id: String,
    pub crdt: GCounter,
}

impl GCounterReplica {
    /// A replica with a fresh random node identifier and an empty counter.
    pub fn new() -> (r: Self)
        ensures
            r.id@.len() == 36,
            r.crdt@ == Map::<Seq<char>, u64>::empty(),
    {
        GCounterReplica { id: fresh_uuid(), crdt: GCounter::new() }
    }

    /// Adds `delta` to this node's count.
    pub fn inc(&mut self, delta: u64)
        requires
            count_of(old(self).crdt@, old(self).id@) + delta <= u64::MAX,
        ensures
            final(self).id@ == old(self).id@,
            final(self).crdt@ == old(self).crdt@.insert(
                old(self).id@,
                (count_of(old(self).crdt@, old(self).id@) + delta) as u64,
            ),
    {
        self.crdt.inc(self.id.as_str(), delta);
    }

    /// The sum of all counts.
    pub fn value(&self) -> (r: u64)
        requires
            total(self.crdt@) <= u64::MAX,
        ensures
            r == total(self.crdt@),
    {
        self.crdt.value()
    }
}

impl Crdt for GCounterReplica {
    type Struct = GCounter;

    fn merge(&mut self, other: &Self::Struct)
        ensures
            final(self).id == old(self).id,
            final(self).crdt@ == merge_counts(old(self).crdt@, other@),
    {
        self.crdt.merge(other);
    }
}

} // verus!

verus! {

/// Merging counters is commutative: the order in which two replicas merge does not matter.
pub proof fn lemma_merge_commutative(a: Map<Seq<char>, u64>, b: Map<Seq<char>, u64>)
    ensures
        merge_counts(a, b) == merge_counts(b, a),
{
    assert(merge_counts(a, b) =~= merge_counts(b, a));
}

/// Merging counters is associative.
pub proof fn lemma_merge_associative(
    a: Map<Seq<char>, u64>,
    b: Map<Seq<char>, u64>,
    c: Map<Seq<char>, u64>,
)
    ensures
        merge_counts(merge_counts(a, b), c) == merge_counts(a, merge_counts(b, c)),
{
    assert(merge_counts(merge_counts(a, b), c) =~= merge_counts(a, merge_counts(b, c)));
}

/// Merging a counter with itself changes nothing.
pub proof fn lemma_merge_idempotent(a: Map<Seq<char>, u64>)
    ensures
        merge_counts(a, a) == a,
{
    assert(merge_counts(a, a) =~= a);
}

/// Two replicas that exchange their states end in the same state: after `a` merges
/// `b`, `b` merging the result reaches what `a` holds.
pub proof fn lemma_exchange_converges(a: Map<Seq<char>, u64>, b: Map<Seq<char>, u64>)
    ensures
        merge_counts(b, merge_counts(a, b)) == merge_counts(a, b),
{
    assert(merge_counts(b, merge_counts(a, b)) =~= merge_counts(a, b));
}

/// `a` lies below `b` in the counter lattice: every node counted in `a` is counted in
/// `b`, at least as high.
pub open spec fn counts_le(a: Map<Seq<char>, u64>, b: Map<Seq<char>, u64>) -> bool {
    forall|k: Seq<char>| #[trigger] a.contains_key(k) ==> b.contains_key(k) && a[k] <= b[k]
}

/// The merge is the join of the counter lattice: it lies above both sides, and below
/// every state that lies above both.
pub proof fn lemma_merge_is_join(a: Map<Seq<char>, u64>, b: Map<Seq<char>, u64>, c: Map<Seq<char>, u64>)
    ensures
        counts_le(a, merge_counts(a, b)),
        counts_le(b, merge_counts(a, b)),
        counts_le(a, c) && counts_le(b, c) ==> counts_le(merge_counts(a, b), c),
{
}

/// A total over pointwise larger counts on a larger set of nodes is no smaller.
pub proof fn lemma_total_monotone(a: Map<Seq<char>, u64>, b: Map<Seq<char>, u64>)
    requires
        a.dom().finite(),
        b.dom().finite(),
        forall|k: Seq<char>| #[trigger] a.contains_key(k) ==> b.contains_key(k) && a[k] <= b[k],
    ensures
        total(a) <= total(b),
    decreases a.dom().len(),
{
    if a.dom().len() > 0 {
        let k = a.dom().choose();
        lemma_total_remove(a, k);
        lemma_total_remove(b, k);
        lemma_total_monotone(a.remove(k), b.remove(k));
    } else {
        lemma_total_nonneg(b);
    }
}

/// A total is never negative.
pub proof fn lemma_total_nonneg(m: Map<Seq<char>, u64>)
    requires
        m.dom().finite(),
    ensures
        total(m) >= 0,
    decreases m.dom().len(),
{
    if m.dom().len() > 0 {
        let k = m.dom().choose();
        lemma_total_nonneg(m.remove(k));
    }
}

/// The value of a merged counter is at least the value of each side.
pub proof fn lemma_merge_value_bound(a: Map<Seq<char>, u64>, b: Map<Seq<char>, u64>)
    requires
        a.dom().finite(),
        b.dom().finite(),
    ensures
        merge_counts(a, b).dom().finite(),
        total(a) <= total(merge_counts(a, b)),
        total(b) <= total(merge_counts(a, b)),
{
    assert(merge_counts(a, b).dom() =~= a.dom().union(b.dom()));
    lemma_total_monotone(a, merge_counts(a, b));
    lemma_total_monotone(b, merge_counts(a, b));
}

/// An increment of `delta` raises the value by exactly `delta`.
pub proof fn lemma_inc_value(m: Map<Seq<char>, u64>, k: Seq<char>, delta: u64)
    requires
        m.dom().finite(),
        count_of(m, k) + delta <= u64::MAX,
    ensures
        total(m.insert(k, (count_of(m, k) + delta) as u64)) == total(m) + delta,
{
    if m.contains_key(k) {
        lemma_total_update(m, k, (count_of(m, k) + delta) as u64);
    } else {
        lemma_total_insert(m, k, delta);
    }
}

/// Two counters whose counts are for distinct nodes merge to the sum of their values.
pub proof fn lemma_merge_disjoint_value(a: Map<Seq<char>, u64>, b: Map<Seq<char>, u64>)
    requires
        a.dom().finite(),
        b.dom().finite(),
        a.dom().disjoint(b.dom()),
    ensures
        total(merge_counts(a, b)) == total(a) + total(b),
    decreases b.dom().len(),
{
    if b.dom().len() == 0 {
        assert(merge_counts(a, b) =~= a);
        assert(total(b) == 0);
    } else {
        let k = b.dom().choose();
        lemma_total_remove(b, k);
        lemma_merge_disjoint_value(a, b.remove(k));
        assert(merge_counts(a, b) =~= merge_counts(a, b.remove(k)).insert(k, b[k]));
        assert(merge_counts(a, b.remove(k)).dom() =~= a.dom().union(b.remove(k).dom()));
        lemma_total_insert(merge_counts(a, b.remove(k)), k, b[k]);
    }
}

} // verus!
