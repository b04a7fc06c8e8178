use vstd::prelude::*;
use vstd::string::StrSliceExecFns;
use std::sync::Arc;
use crate::crdt::Crdt;
use crate::crdt::element::{Duplicate, Element};
use crate::crdt::keyed::{
    entries_view, find_key, key_index, keys_unique, lemma_view_at, lemma_view_empty,
    lemma_view_finite, lemma_view_len, lemma_view_push, lemma_view_same, lemma_view_update, clone_entries, check_unique,
};
use crate::crdt::order::{
    id_lt, id_less, is_descending, lemma_descending_no_duplicates, lemma_descending_unique,
    lemma_id_lt_total, lemma_id_lt_transitive,
};
use crate::ids::{fresh_uuid, Clock};

verus! {

/// What a node of the array holds, by view.
pub struct NodeState<V> {
    pub id: Seq<char>,
    pub parent: Option<Seq<char>>,
    pub value: V,
    pub deleted: bool,
}

/// The view of an optional identifier.
pub open spec fn opt_view(o: Option<String>) -> Option<Seq<char>> {
    match o {
        Some(s) => Some(s@),
        None => None,
    }
}

/// One element of the array: it follows its parent (or comes at the head when it
/// has none); a removed element stays as a tombstone.
#[derive(Debug)]
pub struct RgaNode<T> {
    pub id: String,
    pub parent: Option<String>,
    pub value: T,
    pub is_deleted: bool,
}

impl<T: View> View for RgaNode<T> {
    type V = NodeState<T::V>;

    open spec fn view(&self) -> NodeState<T::V> {
        NodeState {
            id: self.id@,
            parent: opt_view(self.parent),
            value: self.value@,
            deleted: self.is_deleted,
        }
    }
}

/// A copy of an optional identifier.
fn copy_opt(o: &Option<String>) -> (r: Option<String>)
    ensures
        opt_view(r) == opt_view(*o),
{
    match o {
        Some(s) => Some(s.clone()),
        None => None,
    }
}

/// Whether two optional identifiers are the same.
fn same_opt(a: &Option<String>, b: &Option<String>) -> (r: bool)
    ensures
        r == (opt_view(*a) == opt_view(*b)),
{
    match (a, b) {
        (Some(x), Some(y)) => x.same(y),
        (None, None) => true,
        _ => false,
    }
}

impl<T: Duplicate> Duplicate for RgaNode<T> {
    fn duplicate(&self) -> (r: Self) {
        RgaNode {
            id: self.id.clone(),
            parent: copy_opt(&self.parent),
            value: self.value.duplicate(),
            is_deleted: self.is_deleted,
        }
    }
}

impl<T: Duplicate> Clone for RgaNode<T> {
    fn clone(&self) -> (r: Self)
        ensures
            r@ == self@,
    {
        self.duplicate()
    }
}

// The order of the array, over its view: a walk from the head in which the children
// of a node follow it, latest identifier first, each with its own subtree.

/// The identifiers of the nodes whose parent is `p`.
pub open spec fn children_of<V>(m: Map<Seq<char>, NodeState<V>>, p: Option<Seq<char>>) -> Set<
    Seq<char>,
> {
    m.dom().filter(|k: Seq<char>| m[k].parent == p)
}

/// `c` lists the children of `p` in descending order of identifier.
pub open spec fn is_child_order<V>(
    m: Map<Seq<char>, NodeState<V>>,
    p: Option<Seq<char>>,
    c: Seq<Seq<char>>,
) -> bool {
    is_descending(c) && c.to_set() == children_of(m, p)
}

/// The children of `p` in descending order of identifier.
pub open spec fn child_order<V>(m: Map<Seq<char>, NodeState<V>>, p: Option<Seq<char>>) -> Seq<
    Seq<char>,
> {
    choose|c: Seq<Seq<char>>| is_child_order(m, p, c)
}

/// What node `cur` contributes itself: its identifier and value, unless it is absent,
/// removed, or the head.
pub open spec fn shown<V>(m: Map<Seq<char>, NodeState<V>>, cur: Option<Seq<char>>) -> Seq<
    (Seq<char>, V),
> {
    match cur {
        Some(k) => if m.contains_key(k) && !m[k].deleted {
            seq![(k, m[k].value)]
        } else {
            seq![]
        },
        None => seq![],
    }
}

/// The elements from `cur` downwards, within `fuel` levels.
pub open spec fn walk<V>(m: Map<Seq<char>, NodeState<V>>, cur: Option<Seq<char>>, fuel: nat) -> Seq<
    (Seq<char>, V),
>
    decreases fuel, 0nat,
{
    if fuel == 0 {
        seq![]
    } else {
        shown(m, cur) + walk_list(m, child_order(m, cur), (fuel - 1) as nat)
    }
}

/// The elements from each of `ids` downwards, in turn, within `fuel` levels.
pub open spec fn walk_list<V>(m: Map<Seq<char>, NodeState<V>>, ids: Seq<Seq<char>>, fuel: nat) -> Seq<
    (Seq<char>, V),
>
    decreases fuel, ids.len(),
{
    if ids.len() == 0 {
        seq![]
    } else {
        walk_list(m, ids.drop_last(), fuel) + walk(m, Some(ids.last()), fuel)
    }
}

/// The visible sequence of the array: the walk from the head. A node is at most as
/// many levels below the head as there are nodes, so the bound never cuts the walk.
pub open spec fn sequence<V>(m: Map<Seq<char>, NodeState<V>>) -> Seq<(Seq<char>, V)> {
    walk(m, None, m.dom().len() + 1)
}

/// The state after a node is inserted: an identifier that is already there is kept as it is.
pub open spec fn insert_node<V>(
    m: Map<Seq<char>, NodeState<V>>,
    id: Seq<char>,
    parent: Option<Seq<char>>,
    value: V,
) -> Map<Seq<char>, NodeState<V>> {
    if m.contains_key(id) {
        m
    } else {
        m.insert(id, NodeState { id, parent, value, deleted: false })
    }
}

/// The state after a node is removed: it is marked as a tombstone, if it is there.
pub open spec fn remove_node<V>(m: Map<Seq<char>, NodeState<V>>, id: Seq<char>) -> Map<
    Seq<char>,
    NodeState<V>,
> {
    if m.contains_key(id) {
        m.insert(
            id,
            NodeState { id: m[id].id, parent: m[id].parent, value: m[id].value, deleted: true },
        )
    } else {
        m
    }
}

/// The merge of two states: the union of their nodes, the first state's node kept
/// where both have one, and a node removed on either side removed in the result.
pub open spec fn merge_nodes<V>(
    a: Map<Seq<char>, NodeState<V>>,
    b: Map<Seq<char>, NodeState<V>>,
) -> Map<Seq<char>, NodeState<V>> {
    Map::new(
        |k: Seq<char>| a.contains_key(k) || b.contains_key(k),
        |k: Seq<char>|
            if a.contains_key(k) {
                if b.contains_key(k) && b[k].deleted {
                    NodeState { id: a[k].id, parent: a[k].parent, value: a[k].value, deleted: true }
                } else {
                    a[k]
                }
            } else {
                b[k]
            },
    )
}

/// The views of a list of (identifier, value) pairs.
pub open spec fn pair_views<T: View>(s: Seq<(String, T)>) -> Seq<(Seq<char>, T::V)> {
    s.map_values(|e: (String, T)| (e.0@, e.1@))
}

/// The views of a list of identifiers.
pub open spec fn id_views(s: Seq<String>) -> Seq<Seq<char>> {
    s.map_values(|e: String| e@)
}

/// The identifiers among the first `i` entries whose parent is `p`.
pub open spec fn matching<T>(s: Seq<(String, RgaNode<T>)>, i: int, p: Option<Seq<char>>) -> Set<
    Seq<char>,
> {
    Set::new(
        |k: Seq<char>|
            exists|j: int| 0 <= j < i && #[trigger] s[j].0@ == k && opt_view(s[j].1.parent) == p,
    )
}

proof fn lemma_matching_step<T>(s: Seq<(String, RgaNode<T>)>, i: int, p: Option<Seq<char>>)
    requires
        0 <= i < s.len(),
    ensures
        matching(s, i + 1, p) == (if opt_view(s[i].1.parent) == p {
            matching(s, i, p).insert(s[i].0@)
        } else {
            matching(s, i, p)
        }),
{
    let lhs = matching(s, i + 1, p);
    let rhs = if opt_view(s[i].1.parent) == p {
        matching(s, i, p).insert(s[i].0@)
    } else {
        matching(s, i, p)
    };
    assert forall|k: Seq<char>| #[trigger] lhs.contains(k) == rhs.contains(k) by {
        if lhs.contains(k) {
            let j = choose|j: int| 0 <= j < i + 1 && #[trigger] s[j].0@ == k && opt_view(s[j].1.parent) == p;
            if j < i {
                assert(matching(s, i, p).contains(k));
            }
        }
        if matching(s, i, p).contains(k) {
            let j = choose|j: int| 0 <= j < i && #[trigger] s[j].0@ == k && opt_view(s[j].1.parent) == p;
            assert(lhs.contains(k));
        }
        if opt_view(s[i].1.parent) == p && k == s[i].0@ {
            assert(lhs.contains(k));
        }
    }
    assert(lhs =~= rhs);
}

/// A replicated growable array: nodes keyed by identifier, each naming its parent.
pub struct RGA<T> {
    nodes: Vec<(String, RgaNode<T>)>,
}

impl<T: View> View for RGA<T> {
    type V = Map<Seq<char>, NodeState<T::V>>;

    closed spec fn view(&self) -> Map<Seq<char>, NodeState<T::V>> {
        entries_view(self.nodes@)
    }
}

impl<T> RGA<T> {
    #[verifier::type_invariant]
    spec fn wf(self) -> bool {
        &&& keys_unique(self.nodes@)
        &&& forall|i: int| 0 <= i < self.nodes@.len() ==> #[trigger] self.nodes@[i].0@ == self.nodes@[i].1.id@
    }
}

impl<T: View> RGA<T> {
    /// An array holds finitely many nodes.
    pub proof fn lemma_finite(&self)
        ensures
            self@.dom().finite(),
    {
        lemma_view_finite(self.nodes@);
    }
}

impl<T: Duplicate> Default for RGA<T> {
    fn default() -> (r: Self)
        ensures
            r@ == Map::<Seq<char>, NodeState<T::V>>::empty(),
    {
        let r = RGA { nodes: Vec::new() };
        proof {
            lemma_view_empty(r.nodes@);
        }
        r
    }
}

impl<T: Duplicate> Clone for RGA<T> {
    fn clone(&self) -> (r: Self)
        ensures
            r@ == self@,
    {
        proof {
            use_type_invariant(self);
        }
        let nodes = clone_entries(&self.nodes);
        proof {
            lemma_view_same(self.nodes@, nodes@);
        }
        RGA { nodes }
    }
}

impl<T: Duplicate> RGA<T> {
    pub fn new() -> (r: Self)
        ensures
            r@ == Map::<Seq<char>, NodeState<T::V>>::empty(),
    {
        Self::default()
    }

    /// The nodes, each under its identifier.
    pub fn nodes(&self) -> (r: Vec<(String, RgaNode<T>)>)
        ensures
            keys_unique(r@),
            forall|i: int| 0 <= i < r@.len() ==> #[trigger] r@[i].0@ == r@[i].1.id@,
            entries_view(r@) == self@,
    {
        proof {
            use_type_invariant(self);
        }
        let out = clone_entries(&self.nodes);
        proof {
            lemma_view_same(self.nodes@, out@);
            assert forall|i: int| 0 <= i < out@.len() implies #[trigger] out@[i].0@ == out@[i].1.id@ by {
                assert(self.nodes@[i].0@ == self.nodes@[i].1.id@);
            }
        }
        out
    }

    /// The array with the given nodes; `None` when an identifier occurs twice or a node
    /// is not stored under its own identifier.
    pub fn from_nodes(nodes: Vec<(String, RgaNode<T>)>) -> (r: Option<Self>)
        ensures
            r is Some <==> keys_unique(nodes@) && forall|i: int| 0 <= i < nodes@.len() ==> #[trigger] nodes@[i].0@ == nodes@[i].1.id@,
            r matches Some(a) ==> a@ == entries_view(nodes@),
    {
        if !check_unique(&nodes) {
            return None;
        }
        let n = nodes.len();
        let mut i: usize = 0;
        while i < n
            invariant
                n == nodes@.len(),
                i <= n,
                forall|j: int| 0 <= j < i ==> #[trigger] nodes@[j].0@ == nodes@[j].1.id@,
            decreases n - i,
        {
            if !nodes[i].0.same(&nodes[i].1.id) {
                return None;
            }
            i = i + 1;
        }
        Some(RGA { nodes })
    }

    /// Adds a node `id` holding `value` after `parent` (at the head for `None`), unless
    /// a node with that identifier is there already.
    pub fn insert(&mut self, parent: Option<String>, id: String, value: T)
        ensures
            final(self)@ == insert_node(old(self)@, id@, opt_view(parent), value@),
    {
        proof {
            use_type_invariant(&*self);
        }
        let mut nodes: Vec<(String, RgaNode<T>)> = Vec::new();
        std::mem::swap(&mut nodes, &mut self.nodes);
        if find_key(&nodes, &id).is_none() {
            let key = id.clone();
            let node = RgaNode { id, parent, value, is_deleted: false };
            proof {
                lemma_view_push(nodes@, key, node);
            }
            nodes.push((key, node));
            proof {
                assert forall|i: int| 0 <= i < nodes@.len() implies #[trigger] nodes@[i].0@ == nodes@[i].1.id@ by {
                    if i < nodes@.len() - 1 {
                    }
                }
            }
        }
        self.nodes = nodes;
    }

    /// Marks node `id` as removed, if it is there.
    pub fn remove(&mut self, id: &str)
        ensures
            final(self)@ == remove_node(old(self)@, id@),
    {
        proof {
            use_type_invariant(&*self);
        }
        let key = id.to_string();
        let mut nodes: Vec<(String, RgaNode<T>)> = Vec::new();
        std::mem::swap(&mut nodes, &mut self.nodes);
        match find_key(&nodes, &key) {
            Some(i) => {
                let ghost before = nodes@;
                proof {
                    lemma_view_at(nodes@, i as int);
                }
                nodes[i].1.is_deleted = true;
                proof {
                    let n = before[i as int].1;
                    let newn = RgaNode { id: n.id, parent: n.parent, value: n.value, is_deleted: true };
                    assert(nodes@ =~= before.update(i as int, (before[i as int].0, newn)));
                    lemma_view_update(before, i as int, newn);
                    assert(entries_view(nodes@) =~= remove_node(entries_view(before), id@));
                }
            },
            None => {},
        }
        self.nodes = nodes;
    }

    /// The identifiers of the children of `parent`, latest identifier first.
    fn child_ids(&self, parent: &Option<String>) -> (r: Vec<String>)
        ensures
            is_child_order(self@, opt_view(*parent), id_views(r@)),
    {
        proof {
            use_type_invariant(self);
        }
        let ghost p = opt_view(*parent);
        let ghost m = self@;
        let n = self.nodes.len();
        let mut out: Vec<String> = Vec::new();
        let mut i: usize = 0;
        proof {
            assert(id_views(out@).to_set() =~= matching(self.nodes@, 0, p));
        }
        while i < n
            invariant
                n == self.nodes@.len(),
                i <= n,
                m == entries_view(self.nodes@),
                p == opt_view(*parent),
                keys_unique(self.nodes@),
                is_descending(id_views(out@)),
                id_views(out@).to_set() == matching(self.nodes@, i as int, p),
            decreases n - i,
        {
            let entry = &self.nodes[i];
            if same_opt(&entry.1.parent, parent) {
                let x = entry.0.clone();
                let ghost xs = id_views(out@);
                proof {
                    assert(!xs.contains(x@)) by {
                        if xs.contains(x@) {
                            assert(xs.to_set().contains(x@));
                            let j = choose|j: int|
                                0 <= j < i && #[trigger] self.nodes@[j].0@ == x@ && opt_view(self.nodes@[j].1.parent) == p;
                            assert(self.nodes@[j].0@ != self.nodes@[i as int].0@);
                        }
                    }
                }
                let len = out.len();
                let mut q: usize = 0;
                while q < len && !id_less(&out[q], &x)
                    invariant
                        len == out@.len(),
                        xs == id_views(out@),
                        q <= len,
                        forall|t: int| 0 <= t < q ==> !id_lt(#[trigger] xs[t], x@),
                    decreases len - q,
                {
                    q = q + 1;
                }
                out.insert(q, x);
                proof {
                    let ys = id_views(out@);
                    assert(ys =~= xs.insert(q as int, x@));
                    assert forall|a: int, b: int| 0 <= a < b < ys.len() implies id_lt(#[trigger] ys[b], #[trigger] ys[a]) by {
                        if b < q {
                            assert(ys[a] == xs[a] && ys[b] == xs[b]);
                        } else if b == q {
                            assert(ys[a] == xs[a]);
                            assert(xs[a] != x@);
                            assert(!id_lt(xs[a], x@));
                            lemma_id_lt_total(xs[a], x@);
                        } else if a == q {
                            assert(ys[b] == xs[b - 1]);
                            assert(q < len);
                            assert(id_lt(xs[q as int], x@));
                            if b - 1 > q {
                                assert(id_lt(xs[b - 1], xs[q as int]));
                                lemma_id_lt_transitive(xs[b - 1], xs[q as int], x@);
                            }
                        } else if a < q {
                            assert(ys[a] == xs[a] && ys[b] == xs[b - 1]);
                        } else {
                            assert(ys[a] == xs[a - 1] && ys[b] == xs[b - 1]);
                        }
                    }
                    assert(ys.to_set() =~= xs.to_set().insert(x@)) by {
                        assert forall|k: Seq<char>| #[trigger] ys.to_set().contains(k) == xs.to_set().insert(x@).contains(k) by {
                            if ys.contains(k) {
                                let t = choose|t: int| 0 <= t < ys.len() && ys[t] == k;
                                if t < q {
                                    assert(xs[t] == k);
                                } else if t > q {
                                    assert(xs[t - 1] == k);
                                }
                            }
                            if xs.contains(k) {
                                let t = choose|t: int| 0 <= t < xs.len() && xs[t] == k;
                                if t < q {
                                    assert(ys[t] == k);
                                } else {
                                    assert(ys[t + 1] == k);
                                }
                            }
                            if k == x@ {
                                assert(ys[q as int] == k);
                            }
                        }
                    }
                }
            }
            proof {
                lemma_matching_step(self.nodes@, i as int, p);
            }
            i = i + 1;
        }
        proof {
            let c = id_views(out@);
            assert forall|k: Seq<char>| #[trigger] c.to_set().contains(k) == children_of(m, p).contains(k) by {
                if c.to_set().contains(k) {
                    assert(matching(self.nodes@, n as int, p).contains(k));
                    let j = choose|j: int|
                        0 <= j < n && #[trigger] self.nodes@[j].0@ == k && opt_view(self.nodes@[j].1.parent) == p;
                    lemma_view_at(self.nodes@, j);
                }
                if children_of(m, p).contains(k) {
                    let j = key_index(self.nodes@, k);
                    lemma_view_at(self.nodes@, j);
                    assert(self.nodes@[j].0@ == k && opt_view(self.nodes@[j].1.parent) == p);
                }
            }
            assert(c.to_set() =~= children_of(m, p));
        }
        out
    }

    /// Appends what node `current` contributes and then its subtree, within `fuel` levels.
    fn traverse(&self, current: Option<String>, fuel: usize, result: &mut Vec<(String, T)>)
        ensures
            pair_views(final(result)@) == pair_views(old(result)@) + walk(self@, opt_view(current), fuel as nat),
        decreases fuel, 0nat,
    {
        proof {
            use_type_invariant(self);
        }
        let ghost start = pair_views(result@);
        if fuel == 0 {
            return;
        }
        if let Some(id) = &current {
            match find_key(&self.nodes, id) {
                Some(i) => {
                    proof {
                        lemma_view_at(self.nodes@, i as int);
                    }
                    let node = &self.nodes[i].1;
                    if !node.is_deleted {
                        let ghost before = result@;
                        result.push((node.id.clone(), node.value.duplicate()));
                        proof {
                            assert(pair_views(result@) =~= pair_views(before).push((id@, self@[id@].value)));
                        }
                    }
                },
                None => {},
            }
        }
        proof {
            assert(pair_views(result@) =~= start + shown(self@, opt_view(current)));
        }
        self.traverse_children(&current, fuel - 1, result);
        proof {
            assert(pair_views(result@) =~= start + walk(self@, opt_view(current), fuel as nat));
        }
    }

    /// Appends the subtrees of the children of `parent`, latest identifier first,
    /// within `fuel` levels.
    fn traverse_children(&self, parent: &Option<String>, fuel: usize, result: &mut Vec<(String, T)>)
        ensures
            pair_views(final(result)@) == pair_views(old(result)@) + walk_list(
                self@,
                child_order(self@, opt_view(*parent)),
                fuel as nat,
            ),
        decreases fuel, 1nat,
    {
        let ghost start = pair_views(result@);
        let ghost m = self@;
        let children = self.child_ids(parent);
        let ghost c = id_views(children@);
        proof {
            let o = child_order(m, opt_view(*parent));
            assert(is_child_order(m, opt_view(*parent), o));
            lemma_descending_unique(c, o);
            assert(c.take(0) =~= Seq::<Seq<char>>::empty());
        }
        let len = children.len();
        let mut k: usize = 0;
        while k < len
            invariant
                len == children@.len(),
                c == id_views(children@),
                m == self@,
                k <= len,
                pair_views(result@) == start + walk_list(m, c.take(k as int), fuel as nat),
            decreases len - k,
        {
            let child = Some(children[k].clone());
            self.traverse(child, fuel, result);
            proof {
                let t = c.take(k + 1);
                assert(t.drop_last() =~= c.take(k as int));
                assert(t.last() == c[k as int]);
            }
            k = k + 1;
        }
        proof {
            assert(c.take(len as int) =~= c);
        }
    }

    /// The elements of the array in order: the walk from the head, removed nodes left out.
    pub fn to_vec(&self) -> (r: Vec<(String, T)>)
        ensures
            pair_views(r@) == sequence(self@),
    {
        proof {
            use_type_invariant(self);
            lemma_view_len(self.nodes@);
        }
        let mut result: Vec<(String, T)> = Vec::new();
        let n = self.nodes.len();
        self.traverse_children(&None, n, &mut result);
        proof {
            assert(pair_views(Seq::<(String, T)>::empty()) =~= Seq::<(Seq<char>, T::V)>::empty());
            assert(shown(self@, None::<Seq<char>>) =~= Seq::<(Seq<char>, T::V)>::empty());
            assert(pair_views(result@) =~= sequence(self@));
        }
        result
    }
}

impl<T: Duplicate> Crdt for RGA<T> {
    type Struct = RGA<T>;

    /// Takes in the nodes of `other` that are missing here, and marks as removed the
    /// nodes that `other` has removed.
    fn merge(&mut self, other: &Self::Struct)
        ensures
            final(self)@ == merge_nodes(old(self)@, other@),
    {
        proof {
            use_type_invariant(&*self);
            use_type_invariant(other);
        }
        let mut nodes: Vec<(String, RgaNode<T>)> = Vec::new();
        std::mem::swap(&mut nodes, &mut self.nodes);
        let ghost start = entries_view(nodes@);
        let n = other.nodes.len();
        let mut i: usize = 0;
        proof {
            lemma_view_empty(other.nodes@.take(0));
            assert(merge_nodes(start, Map::empty()) =~= start);
        }
        while i < n
            invariant
                n == other.nodes@.len(),
                i <= n,
                keys_unique(other.nodes@),
                forall|j: int| 0 <= j < other.nodes@.len() ==> #[trigger] other.nodes@[j].0@ == other.nodes@[j].1.id@,
                keys_unique(nodes@),
                forall|j: int| 0 <= j < nodes@.len() ==> #[trigger] nodes@[j].0@ == nodes@[j].1.id@,
                entries_view(nodes@) == merge_nodes(start, entries_view(other.nodes@.take(i as int))),
            decreases n - i,
        {
            let ghost before = nodes@;
            let ghost prefix = entries_view(other.nodes@.take(i as int));
            proof {
                crate::crdt::keyed::lemma_view_take(other.nodes@, i as int);
            }
            let remote = &other.nodes[i];
            let ghost k = remote.0@;
            match find_key(&nodes, &remote.0) {
                Some(j) => {
                    proof {
                        lemma_view_at(nodes@, j as int);
                    }
                    if remote.1.is_deleted {
                        nodes[j].1.is_deleted = true;
                        proof {
                            let nd = before[j as int].1;
                            let newn = RgaNode { id: nd.id, parent: nd.parent, value: nd.value, is_deleted: true };
                            assert(nodes@ =~= before.update(j as int, (before[j as int].0, newn)));
                            lemma_view_update(before, j as int, newn);
                            assert forall|t: int| 0 <= t < nodes@.len() implies #[trigger] nodes@[t].0@ == nodes@[t].1.id@ by {
                                assert(before[t].0@ == before[t].1.id@);
                            }
                            assert(!prefix.contains_key(k));
                            assert(start.contains_key(k));
                            assert(entries_view(nodes@) =~= merge_nodes(start, prefix.insert(k, remote.1@)));
                        }
                    } else {
                        proof {
                            assert(!prefix.contains_key(k));
                            assert(start.contains_key(k));
                            assert(entries_view(nodes@) =~= merge_nodes(start, prefix.insert(k, remote.1@)));
                        }
                    }
                },
                None => {
                    let key = remote.0.clone();
                    let node = remote.1.duplicate();
                    proof {
                        lemma_view_push(nodes@, key, node);
                    }
                    nodes.push((key, node));
                    proof {
                        assert forall|t: int| 0 <= t < nodes@.len() implies #[trigger] nodes@[t].0@ == nodes@[t].1.id@ by {
                            if t < before.len() {
                                assert(nodes@[t] == before[t]);
                            }
                        }
                        assert(!prefix.contains_key(k));
                        assert(!entries_view(before).contains_key(k));
                        assert(merge_nodes(start, prefix).dom().contains(k) == (start.contains_key(k)
                            || prefix.contains_key(k)));
                        assert(!start.contains_key(k));
                        assert(entries_view(nodes@) =~= merge_nodes(start, prefix.insert(k, remote.1@)));
                    }
                },
            }
            proof {
                assert(!prefix.contains_key(k));
                assert(entries_view(nodes@) =~= merge_nodes(start, prefix.insert(k, remote.1@)));
            }
            i = i + 1;
        }
        proof {
            assert(other.nodes@.take(n as int) =~= other.nodes@);
        }
        self.nodes = nodes;
    }
}

} // verus!

verus! {

/// The lowercase hexadecimal digit for `d` (below 16).
pub open spec fn hex_char(d: nat) -> char {
    seq!['0', '1', '2', '3', '4', '5', '6', '7', '8', '9', 'a', 'b', 'c', 'd', 'e', 'f'][d as int]
}

/// The last `k` hexadecimal digits of `t`, most significant first, zero-padded.
pub open spec fn hex_digits(t: nat, k: nat) -> Seq<char>
    decreases k,
{
    if k == 0 {
        seq![]
    } else {
        hex_digits(t / 16, (k - 1) as nat).push(hex_char(t % 16))
    }
}

/// The identifier a replica gives a node inserted at clock reading `time`: the reading
/// as 16 hexadecimal digits, a hyphen, and the replica's identifier. Identifiers made
/// at later readings come later in the order of identifiers.
pub open spec fn node_id_at(time: u64, replica: Seq<char>) -> Seq<char> {
    hex_digits(time as nat, 16) + seq!['-'] + replica
}

/// Appends the last `k` hexadecimal digits of `t` to `out`.
fn push_hex(t: u64, k: usize, out: &mut String)
    ensures
        final(out)@ == old(out)@ + hex_digits(t as nat, k as nat),
    decreases k,
{
    if k > 0 {
        push_hex(t / 16, k - 1, out);
        let d = (t % 16) as usize;
        let digits = "0123456789abcdef";
        proof {
            reveal_strlit("0123456789abcdef");
        }
        let ghost before = out@;
        out.append(digits.substring_char(d, d + 1));
        proof {
            assert(digits@.subrange(d as int, d + 1) =~= seq![hex_char(d as nat)]);
            assert(out@ =~= old(out)@ + hex_digits(t as nat, k as nat));
        }
    }
}

/// A node's handle on a replicated array: it names new nodes from its clock and its
/// own identifier.
pub struct RGAReplica<T> {
    pub id: String,
    pub hlc: Clock,
    pub crdt: RGA<T>,
}

impl<T: Duplicate> RGAReplica<T> {
    /// A replica with an 8-character random identifier and an empty array.
    pub fn new(hlc: Arc<uhlc::HLC>) -> (r: Self)
        ensures
            r.id@.len() == 8,
            r.hlc.source() == hlc,
            r.hlc.last() is None,
            r.crdt@ == Map::<Seq<char>, NodeState<T::V>>::empty(),
    {
        let u = fresh_uuid();
        let id = u.as_str().substring_char(0, 8).to_string();
        RGAReplica { id, hlc: Clock::new(hlc), crdt: RGA::new() }
    }

    /// Inserts `value` after `parent` (at the head for `None`) under the identifier made
    /// from clock reading `time` and this replica's identifier, which it returns.
    pub fn insert_at(&mut self, time: u64, parent: Option<String>, value: T) -> (r: String)
        ensures
            r@ == node_id_at(time, old(self).id@),
            final(self).id == old(self).id,
            final(self).hlc == old(self).hlc,
            final(self).crdt@ == insert_node(old(self).crdt@, r@, opt_view(parent), value@),
    {
        let mut id = String::new();
        push_hex(time, 16, &mut id);
        id.append("-");
        id.append(self.id.as_str());
        proof {
            reveal_strlit("-");
            assert(id@ =~= node_id_at(time, self.id@));
        }
        self.crdt.insert(parent, id.clone(), value);
        id
    }

    /// Inserts `value` after `parent` (at the head for `None`) under an identifier made
    /// from a new stamp of this replica's clock, later than every stamp this replica drew
    /// before, and this replica's identifier; returns the identifier.
    pub fn insert(&mut self, parent: Option<String>, value: T) -> (r: String)
        ensures
            final(self).hlc.last() matches Some(s) && old(self).hlc.follows(s) && r@ == node_id_at(
                s.time,
                old(self).id@,
            ),
            final(self).id == old(self).id,
            final(self).hlc.source() == old(self).hlc.source(),
            final(self).hlc.clock_id() == old(self).hlc.clock_id(),
            final(self).crdt@ == insert_node(old(self).crdt@, r@, opt_view(parent), value@),
    {
        let stamp = self.hlc.stamp();
        self.insert_at(stamp.time, parent, value)
    }

    /// Marks node `id` as removed, if it is there.
    pub fn remove(&mut self, id: &str)
        ensures
            final(self).id == old(self).id,
            final(self).hlc == old(self).hlc,
            final(self).crdt@ == remove_node(old(self).crdt@, id@),
    {
        self.crdt.remove(id);
    }

    /// The elements of the array in order.
    pub fn to_vec(&self) -> (r: Vec<(String, T)>)
        ensures
            pair_views(r@) == sequence(self.crdt@),
    {
        self.crdt.to_vec()
    }
}

impl<T: Duplicate> Crdt for RGAReplica<T> {
    type Struct = RGA<T>;

    fn merge(&mut self, other: &Self::Struct)
        ensures
            final(self).id == old(self).id,
            final(self).hlc == old(self).hlc,
            final(self).crdt@ == merge_nodes(old(self).crdt@, other@),
    {
        self.crdt.merge(other);
    }
}

} // verus!

verus! {

/// Two array states agree on every node they both hold, up to its tombstone: replicas
/// name nodes uniquely, so states that replicas exchange are always compatible.
pub open spec fn compatible<V>(a: Map<Seq<char>, NodeState<V>>, b: Map<Seq<char>, NodeState<V>>) -> bool {
    forall|k: Seq<char>|
        #[trigger] a.contains_key(k) && b.contains_key(k) ==> a[k].id == b[k].id && a[k].parent == b[k].parent
            && a[k].value == b[k].value
}

/// Merging compatible array states is commutative.
pub proof fn lemma_merge_commutative<V>(a: Map<Seq<char>, NodeState<V>>, b: Map<Seq<char>, NodeState<V>>)
    requires
        compatible(a, b),
    ensures
        merge_nodes(a, b) == merge_nodes(b, a),
{
    assert(merge_nodes(a, b) =~= merge_nodes(b, a));
}

/// Merging array states is associative.
pub proof fn lemma_merge_associative<V>(
    a: Map<Seq<char>, NodeState<V>>,
    b: Map<Seq<char>, NodeState<V>>,
    c: Map<Seq<char>, NodeState<V>>,
)
    ensures
        merge_nodes(merge_nodes(a, b), c) == merge_nodes(a, merge_nodes(b, c)),
{
    assert(merge_nodes(merge_nodes(a, b), c) =~= merge_nodes(a, merge_nodes(b, c)));
}

/// Merging an array state with itself changes nothing.
pub proof fn lemma_merge_idempotent<V>(a: Map<Seq<char>, NodeState<V>>)
    ensures
        merge_nodes(a, a) == a,
{
    assert(merge_nodes(a, a) =~= a);
}

/// Two replicas with compatible states that exchange them end in the same state, and so
/// list the same sequence.
pub proof fn lemma_exchange_converges<V>(a: Map<Seq<char>, NodeState<V>>, b: Map<Seq<char>, NodeState<V>>)
    requires
        compatible(a, b),
    ensures
        merge_nodes(b, merge_nodes(a, b)) == merge_nodes(a, b),
        sequence(merge_nodes(b, merge_nodes(a, b))) == sequence(merge_nodes(a, b)),
{
    assert(merge_nodes(b, merge_nodes(a, b)) =~= merge_nodes(a, b));
}

/// `a` lies below `b` in the lattice of array states: every node of `a` is in `b`, the
/// same but for its tombstone, and removed in `b` if it is removed in `a`.
pub open spec fn nodes_le<V>(a: Map<Seq<char>, NodeState<V>>, b: Map<Seq<char>, NodeState<V>>) -> bool {
    forall|k: Seq<char>|
        #[trigger] a.contains_key(k) ==> b.contains_key(k) && a[k].id == b[k].id && a[k].parent == b[k].parent
            && a[k].value == b[k].value && (a[k].deleted ==> b[k].deleted)
}

/// The merge of compatible array states is their join: it lies above both sides, and
/// below every state that lies above both.
pub proof fn lemma_merge_is_join<V>(
    a: Map<Seq<char>, NodeState<V>>,
    b: Map<Seq<char>, NodeState<V>>,
    c: Map<Seq<char>, NodeState<V>>,
)
    requires
        compatible(a, b),
    ensures
        nodes_le(a, merge_nodes(a, b)),
        nodes_le(b, merge_nodes(a, b)),
        nodes_le(a, c) && nodes_le(b, c) ==> nodes_le(merge_nodes(a, b), c),
{
}

/// Every entry of `s` is a node of `m` that is not removed, with its value.
pub open spec fn all_live<V>(m: Map<Seq<char>, NodeState<V>>, s: Seq<(Seq<char>, V)>) -> bool {
    forall|i: int|
        0 <= i < s.len() ==> m.contains_key(#[trigger] s[i].0) && !m[s[i].0].deleted && m[s[i].0].value
            == s[i].1
}

proof fn lemma_all_live_concat<V>(m: Map<Seq<char>, NodeState<V>>, s: Seq<(Seq<char>, V)>, t: Seq<(Seq<char>, V)>)
    requires
        all_live(m, s),
        all_live(m, t),
    ensures
        all_live(m, s + t),
{
    assert forall|i: int| 0 <= i < (s + t).len() implies m.contains_key(#[trigger] (s + t)[i].0) && !m[(s
        + t)[i].0].deleted && m[(s + t)[i].0].value == (s + t)[i].1 by {
        if i < s.len() {
            assert((s + t)[i] == s[i]);
        } else {
            assert((s + t)[i] == t[i - s.len()]);
        }
    }
}

/// A walk lists only nodes that are not removed.
pub proof fn lemma_walk_live<V>(m: Map<Seq<char>, NodeState<V>>, cur: Option<Seq<char>>, fuel: nat)
    ensures
        all_live(m, walk(m, cur, fuel)),
    decreases fuel, 0nat,
{
    if fuel > 0 {
        lemma_walk_list_live(m, child_order(m, cur), (fuel - 1) as nat);
        lemma_all_live_concat(m, shown(m, cur), walk_list(m, child_order(m, cur), (fuel - 1) as nat));
    }
}

/// Walks from a list of nodes list only nodes that are not removed.
pub proof fn lemma_walk_list_live<V>(m: Map<Seq<char>, NodeState<V>>, ids: Seq<Seq<char>>, fuel: nat)
    ensures
        all_live(m, walk_list(m, ids, fuel)),
    decreases fuel, ids.len(),
{
    if ids.len() > 0 {
        lemma_walk_list_live(m, ids.drop_last(), fuel);
        lemma_walk_live(m, Some(ids.last()), fuel);
        lemma_all_live_concat(m, walk_list(m, ids.drop_last(), fuel), walk(m, Some(ids.last()), fuel));
    }
}

/// The sequence lists each element with its value, and never a removed node.
pub proof fn lemma_sequence_live<V>(m: Map<Seq<char>, NodeState<V>>)
    ensures
        all_live(m, sequence(m)),
{
    lemma_walk_live(m, None, m.dom().len() + 1);
}

/// After node `id` is removed it is not in the sequence.
pub proof fn lemma_removed_not_listed<V>(m: Map<Seq<char>, NodeState<V>>, id: Seq<char>, i: int)
    requires
        0 <= i < sequence(remove_node(m, id)).len(),
    ensures
        sequence(remove_node(m, id))[i].0 != id,
{
    lemma_sequence_live(remove_node(m, id));
}

} // verus!

verus! {

/// The `j`-th ancestor of node `k`: `k` itself, then its parent, and so on; `None` once
/// the head is passed.
pub open spec fn up<V>(m: Map<Seq<char>, NodeState<V>>, k: Seq<char>, j: nat) -> Option<Seq<char>>
    decreases j,
{
    if j == 0 {
        Some(k)
    } else {
        match up(m, k, (j - 1) as nat) {
            Some(x) => m[x].parent,
            None => None,
        }
    }
}

/// Node `k` hangs from the head through `c` nodes of the array (itself included).
pub open spec fn in_tree<V>(m: Map<Seq<char>, NodeState<V>>, k: Seq<char>, c: nat) -> bool {
    &&& c >= 1
    &&& forall|j: nat| j < c ==> #[trigger] up(m, k, j) is Some && m.contains_key(up(m, k, j)->0)
    &&& up(m, k, c) is None
}

/// `cur` is the head (`c` is zero) or a node `c` levels below it.
pub open spec fn at_depth<V>(m: Map<Seq<char>, NodeState<V>>, cur: Option<Seq<char>>, c: nat) -> bool {
    match cur {
        None => c == 0,
        Some(k) => in_tree(m, k, c),
    }
}

proof fn lemma_up_shift<V>(m: Map<Seq<char>, NodeState<V>>, k: Seq<char>, i: nat, j: nat, t: nat)
    requires
        up(m, k, i) == up(m, k, j),
    ensures
        up(m, k, i + t) == up(m, k, j + t),
    decreases t,
{
    if t > 0 {
        lemma_up_shift(m, k, i, j, (t - 1) as nat);
        assert(up(m, k, i + t) == match up(m, k, (i + t - 1) as nat) {
            Some(x) => m[x].parent,
            None => None,
        });
        assert(up(m, k, j + t) == match up(m, k, (j + t - 1) as nat) {
            Some(x) => m[x].parent,
            None => None,
        });
    }
}

/// A node hangs at most as many levels below the head as there are nodes.
proof fn lemma_depth_bound<V>(m: Map<Seq<char>, NodeState<V>>, k: Seq<char>, c: nat)
    requires
        m.dom().finite(),
        in_tree(m, k, c),
    ensures
        c <= m.dom().len(),
{
    let s = Seq::new(c, |j: int| up(m, k, j as nat)->0);
    assert forall|a: int, b: int| 0 <= a < s.len() && 0 <= b < s.len() && a != b implies s[a] != s[b] by {
        if s[a] == s[b] {
            let (i, j) = if a < b {
                (a as nat, b as nat)
            } else {
                (b as nat, a as nat)
            };
            assert(up(m, k, i) is Some && up(m, k, j) is Some);
            assert(up(m, k, i) == up(m, k, j));
            lemma_up_shift(m, k, i, j, (c - j) as nat);
            assert(up(m, k, (i + c - j) as nat) is Some);
        }
    }
    s.unique_seq_to_set();
    assert forall|x: Seq<char>| s.to_set().contains(x) implies m.dom().contains(x) by {
        let j = choose|j: int| 0 <= j < s.len() && s[j] == x;
        assert(up(m, k, j as nat) is Some && m.contains_key(up(m, k, j as nat)->0));
    }
    vstd::set_lib::lemma_len_subset(s.to_set(), m.dom());
}

proof fn lemma_up_child<V>(m: Map<Seq<char>, NodeState<V>>, k: Seq<char>, q: Seq<char>, j: nat)
    requires
        m.contains_key(k),
        m[k].parent == Some(q),
    ensures
        up(m, k, j + 1) == up(m, q, j),
    decreases j,
{
    assert(up(m, k, 0) == Some(k));
    if j > 0 {
        lemma_up_child(m, k, q, (j - 1) as nat);
        assert(up(m, k, j + 1) == match up(m, k, j) {
            Some(x) => m[x].parent,
            None => None,
        });
        assert(up(m, q, j) == match up(m, q, (j - 1) as nat) {
            Some(x) => m[x].parent,
            None => None,
        });
    } else {
        assert(up(m, k, 1) == m[k].parent);
        assert(up(m, q, 0) == Some(q));
    }
}

/// A child of a node `c` levels below the head is `c + 1` levels below it.
proof fn lemma_child_depth<V>(m: Map<Seq<char>, NodeState<V>>, cur: Option<Seq<char>>, c: nat, k: Seq<char>)
    requires
        at_depth(m, cur, c),
        children_of(m, cur).contains(k),
    ensures
        in_tree(m, k, c + 1),
{
    match cur {
        None => {
            assert(up(m, k, 0) == Some(k));
            assert(up(m, k, 1) == m[k].parent);
            assert forall|j: nat| j < c + 1 implies #[trigger] up(m, k, j) is Some && m.contains_key(up(m, k, j)->0) by {
                assert(j == 0);
            }
        },
        Some(q) => {
            assert forall|j: nat| j < c + 1 implies #[trigger] up(m, k, j) is Some && m.contains_key(up(m, k, j)->0) by {
                if j > 0 {
                    lemma_up_child(m, k, q, (j - 1) as nat);
                    assert(up(m, q, (j - 1) as nat) is Some);
                }
            }
            lemma_up_child(m, k, q, c);
        },
    }
}

/// A finite non-empty set of identifiers has a greatest one.
proof fn lemma_max_exists(s: Set<Seq<char>>)
    requires
        s.finite(),
        s.len() > 0,
    ensures
        exists|x: Seq<char>| s.contains(x) && forall|y: Seq<char>| #[trigger] s.contains(y) && y != x ==> id_lt(y, x),
    decreases s.len(),
{
    let a = s.choose();
    let rest = s.remove(a);
    if rest.len() == 0 {
        assert forall|y: Seq<char>| #[trigger] s.contains(y) && y != a implies id_lt(y, a) by {
            assert(rest.contains(y));
        }
    } else {
        lemma_max_exists(rest);
        let b = choose|x: Seq<char>| rest.contains(x) && forall|y: Seq<char>| #[trigger] rest.contains(y) && y != x ==> id_lt(y, x);
        if id_lt(a, b) {
            assert forall|y: Seq<char>| #[trigger] s.contains(y) && y != b implies id_lt(y, b) by {
                if y != a {
                    assert(rest.contains(y));
                }
            }
        } else {
            lemma_id_lt_total(a, b);
            assert forall|y: Seq<char>| #[trigger] s.contains(y) && y != a implies id_lt(y, a) by {
                if y != b {
                    assert(rest.contains(y));
                    lemma_id_lt_transitive(y, b, a);
                }
            }
        }
    }
}

/// Every finite set of identifiers can be listed in descending order.
proof fn lemma_descending_exists(s: Set<Seq<char>>)
    requires
        s.finite(),
    ensures
        exists|c: Seq<Seq<char>>| is_descending(c) && c.to_set() == s,
    decreases s.len(),
{
    if s.len() == 0 {
        let c = Seq::<Seq<char>>::empty();
        assert(c.to_set() =~= s);
        assert(is_descending(c));
    } else {
        lemma_max_exists(s);
        let x = choose|x: Seq<char>| s.contains(x) && forall|y: Seq<char>| #[trigger] s.contains(y) && y != x ==> id_lt(y, x);
        lemma_descending_exists(s.remove(x));
        let t = choose|c: Seq<Seq<char>>| is_descending(c) && c.to_set() == s.remove(x);
        let c = seq![x] + t;
        assert forall|i: int, j: int| 0 <= i < j < c.len() implies id_lt(#[trigger] c[j], #[trigger] c[i]) by {
            assert(c[j] == t[j - 1]);
            assert(t.to_set().contains(t[j - 1]));
            if i == 0 {
                assert(c[i] == x);
            } else {
                assert(c[i] == t[i - 1]);
            }
        }
        assert forall|y: Seq<char>| #[trigger] c.to_set().contains(y) == s.contains(y) by {
            if y == x {
                assert(c[0] == x);
            } else if s.contains(y) {
                assert(t.to_set().contains(y));
                let j = choose|j: int| 0 <= j < t.len() && t[j] == y;
                assert(c[j + 1] == y);
            }
            if c.contains(y) {
                let j = choose|j: int| 0 <= j < c.len() && c[j] == y;
                if j > 0 {
                    assert(t[j - 1] == y);
                    assert(t.to_set().contains(y));
                }
            }
        }
        assert(c.to_set() =~= s);
    }
}

/// In a finite array, the children of every node can be listed latest identifier first.
proof fn lemma_child_order<V>(m: Map<Seq<char>, NodeState<V>>, p: Option<Seq<char>>)
    requires
        m.dom().finite(),
    ensures
        is_child_order(m, p, child_order(m, p)),
{
    vstd::set_lib::lemma_len_subset(children_of(m, p), m.dom());
    lemma_descending_exists(children_of(m, p));
    let w = choose|c: Seq<Seq<char>>| is_descending(c) && c.to_set() == children_of(m, p);
    assert(is_child_order(m, p, w));
}

proof fn lemma_walk_fuel<V>(m: Map<Seq<char>, NodeState<V>>, cur: Option<Seq<char>>, c: nat, f1: nat, f2: nat)
    requires
        m.dom().finite(),
        at_depth(m, cur, c),
        f1 >= m.dom().len() + 1 - c,
        f2 >= m.dom().len() + 1 - c,
    ensures
        walk(m, cur, f1) == walk(m, cur, f2),
    decreases f1, 0nat,
{
    if let Some(k) = cur {
        lemma_depth_bound(m, k, c);
    }
    lemma_child_order(m, cur);
    let ids = child_order(m, cur);
    assert forall|i: int| 0 <= i < ids.len() implies in_tree(m, #[trigger] ids[i], c + 1) by {
        assert(ids.to_set().contains(ids[i]));
        lemma_child_depth(m, cur, c, ids[i]);
    }
    lemma_walk_list_fuel(m, ids, c + 1, (f1 - 1) as nat, (f2 - 1) as nat);
}

proof fn lemma_walk_list_fuel<V>(m: Map<Seq<char>, NodeState<V>>, ids: Seq<Seq<char>>, c: nat, f1: nat, f2: nat)
    requires
        m.dom().finite(),
        forall|i: int| 0 <= i < ids.len() ==> in_tree(m, #[trigger] ids[i], c),
        f1 >= m.dom().len() + 1 - c,
        f2 >= m.dom().len() + 1 - c,
    ensures
        walk_list(m, ids, f1) == walk_list(m, ids, f2),
    decreases f1, ids.len(),
{
    if ids.len() > 0 {
        let last = ids.last();
        assert(in_tree(m, ids[ids.len() - 1], c));
        lemma_depth_bound(m, last, c);
        assert forall|i: int| 0 <= i < ids.drop_last().len() implies in_tree(m, #[trigger] ids.drop_last()[i], c) by {
            assert(ids.drop_last()[i] == ids[i]);
        }
        lemma_walk_list_fuel(m, ids.drop_last(), c, f1, f2);
        lemma_walk_fuel(m, Some(last), c, f1, f2);
    }
}

/// The bound in `sequence` never cuts the walk: every node hangs at most as many levels
/// below the head as there are nodes, so walking with any larger bound lists the same
/// sequence.
pub proof fn lemma_sequence_unbounded<V>(m: Map<Seq<char>, NodeState<V>>, fuel: nat)
    requires
        m.dom().finite(),
        fuel >= m.dom().len() + 1,
    ensures
        walk(m, None, fuel) == sequence(m),
{
    lemma_walk_fuel(m, None, 0, fuel, m.dom().len() + 1);
}

/// Whether an entry is not that of node `id`.
pub open spec fn not_of<V>(id: Seq<char>) -> spec_fn((Seq<char>, V)) -> bool {
    |e: (Seq<char>, V)| e.0 != id
}

/// The entries of `s` other than those of node `id`, in their order.
pub open spec fn without<V>(s: Seq<(Seq<char>, V)>, id: Seq<char>) -> Seq<(Seq<char>, V)> {
    s.filter(not_of(id))
}

/// Marking a node removed leaves every node's children, in their order, as they were.
proof fn lemma_remove_child_order<V>(m: Map<Seq<char>, NodeState<V>>, id: Seq<char>, p: Option<Seq<char>>)
    requires
        m.dom().finite(),
    ensures
        child_order(remove_node(m, id), p) == child_order(m, p),
{
    let r = remove_node(m, id);
    assert(r.dom() =~= m.dom());
    assert(children_of(r, p) =~= children_of(m, p));
    lemma_child_order(m, p);
    lemma_child_order(r, p);
    lemma_descending_unique(child_order(r, p), child_order(m, p));
}

/// What a node contributes itself after node `id` is removed.
proof fn lemma_shown_remove<V>(m: Map<Seq<char>, NodeState<V>>, id: Seq<char>, cur: Option<Seq<char>>)
    ensures
        shown(remove_node(m, id), cur) == without(shown(m, cur), id),
{
    reveal(Seq::filter);
    let s = shown(m, cur);
    if s.len() == 1 {
        assert(s.drop_last() =~= Seq::<(Seq<char>, V)>::empty());
        assert(s.drop_last().filter(not_of(id)) =~= Seq::<(Seq<char>, V)>::empty());
    }
    assert(shown(remove_node(m, id), cur) =~= without(shown(m, cur), id));
}

proof fn lemma_walk_remove<V>(m: Map<Seq<char>, NodeState<V>>, id: Seq<char>, cur: Option<Seq<char>>, fuel: nat)
    requires
        m.dom().finite(),
    ensures
        walk(remove_node(m, id), cur, fuel) == without(walk(m, cur, fuel), id),
    decreases fuel, 0nat,
{
    if fuel > 0 {
        lemma_remove_child_order(m, id, cur);
        let ids = child_order(m, cur);
        lemma_walk_list_remove(m, id, ids, (fuel - 1) as nat);
        lemma_shown_remove(m, id, cur);
        Seq::filter_distributes_over_add(shown(m, cur), walk_list(m, ids, (fuel - 1) as nat), not_of(id));
    } else {
        reveal(Seq::filter);
    }
}

proof fn lemma_walk_list_remove<V>(m: Map<Seq<char>, NodeState<V>>, id: Seq<char>, ids: Seq<Seq<char>>, fuel: nat)
    requires
        m.dom().finite(),
    ensures
        walk_list(remove_node(m, id), ids, fuel) == without(walk_list(m, ids, fuel), id),
    decreases fuel, ids.len(),
{
    if ids.len() > 0 {
        lemma_walk_list_remove(m, id, ids.drop_last(), fuel);
        lemma_walk_remove(m, id, Some(ids.last()), fuel);
        Seq::filter_distributes_over_add(
            walk_list(m, ids.drop_last(), fuel),
            walk(m, Some(ids.last()), fuel),
            not_of(id),
        );
    } else {
        reveal(Seq::filter);
    }
}

/// `s` with `x` placed right after each entry of node `p`; unchanged when `p` is the head.
pub open spec fn insert_after<V>(s: Seq<(Seq<char>, V)>, p: Option<Seq<char>>, x: (Seq<char>, V)) -> Seq<
    (Seq<char>, V),
>
    decreases s.len(),
{
    if s.len() == 0 {
        s
    } else {
        let t = insert_after(s.drop_last(), p, x);
        if p == Some(s.last().0) {
            t.push(s.last()).push(x)
        } else {
            t.push(s.last())
        }
    }
}

/// Node `id` can hang from `parent` as its new first child: it is not in `m`, no node
/// hangs from it, it is later than every child `parent` has, and `parent` is the head or a
/// node of `m` that is not removed.
pub open spec fn fresh_first_child<V>(m: Map<Seq<char>, NodeState<V>>, id: Seq<char>, parent: Option<Seq<char>>) -> bool {
    &&& m.dom().finite()
    &&& !m.contains_key(id)
    &&& forall|k: Seq<char>| #[trigger] m.contains_key(k) ==> m[k].parent != Some(id)
    &&& forall|k: Seq<char>| #[trigger] children_of(m, parent).contains(k) ==> id_lt(k, id)
    &&& match parent {
        Some(p) => m.contains_key(p) && !m[p].deleted,
        None => true,
    }
}

proof fn lemma_insert_after_add<V>(
    a: Seq<(Seq<char>, V)>,
    b: Seq<(Seq<char>, V)>,
    p: Option<Seq<char>>,
    x: (Seq<char>, V),
)
    ensures
        insert_after(a + b, p, x) == insert_after(a, p, x) + insert_after(b, p, x),
    decreases b.len(),
{
    let ia = insert_after(a, p, x);
    if b.len() == 0 {
        assert(a + b =~= a);
        assert(ia + insert_after(b, p, x) =~= ia);
    } else {
        assert((a + b).drop_last() =~= a + b.drop_last());
        assert((a + b).last() == b.last());
        lemma_insert_after_add(a, b.drop_last(), p, x);
        let ib = insert_after(b.drop_last(), p, x);
        if p == Some(b.last().0) {
            assert((ia + ib).push(b.last()).push(x) =~= ia + ib.push(b.last()).push(x));
        } else {
            assert((ia + ib).push(b.last()) =~= ia + ib.push(b.last()));
        }
    }
}

proof fn lemma_insert_after_absent<V>(s: Seq<(Seq<char>, V)>, p: Option<Seq<char>>, x: (Seq<char>, V))
    requires
        forall|i: int| 0 <= i < s.len() ==> Some(#[trigger] s[i].0) != p,
    ensures
        insert_after(s, p, x) == s,
    decreases s.len(),
{
    if s.len() > 0 {
        assert(Some(s[s.len() - 1].0) != p);
        assert forall|i: int| 0 <= i < s.drop_last().len() implies Some(#[trigger] s.drop_last()[i].0) != p by {
            assert(s.drop_last()[i] == s[i]);
        }
        lemma_insert_after_absent(s.drop_last(), p, x);
        assert(s.drop_last().push(s.last()) =~= s);
    }
}

/// The children of a node once `id` hangs from `parent`: `id` first among those of
/// `parent`, the others' children as they were.
proof fn lemma_insert_child_order<V>(
    m: Map<Seq<char>, NodeState<V>>,
    id: Seq<char>,
    parent: Option<Seq<char>>,
    v: V,
    q: Option<Seq<char>>,
)
    requires
        fresh_first_child(m, id, parent),
    ensures
        q != parent ==> child_order(insert_node(m, id, parent, v), q) == child_order(m, q),
        q == parent ==> child_order(insert_node(m, id, parent, v), q) == seq![id] + child_order(m, q),
{
    let m2 = insert_node(m, id, parent, v);
    assert(m2.dom() =~= m.dom().insert(id));
    lemma_child_order(m, q);
    lemma_child_order(m2, q);
    let co = child_order(m, q);
    if q != parent {
        assert(children_of(m2, q) =~= children_of(m, q));
        lemma_descending_unique(child_order(m2, q), co);
    } else {
        let c = seq![id] + co;
        assert(is_descending(c)) by {
            assert forall|i: int, j: int| 0 <= i < j < c.len() implies id_lt(#[trigger] c[j], #[trigger] c[i]) by {
                assert(c[j] == co[j - 1]);
                if i == 0 {
                    assert(co.to_set().contains(co[j - 1]));
                } else {
                    assert(c[i] == co[i - 1]);
                }
            }
        }
        assert(c.to_set() =~= children_of(m2, q)) by {
            assert forall|y: Seq<char>| c.to_set().contains(y) implies children_of(m2, q).contains(y) by {
                let i = choose|i: int| 0 <= i < c.len() && c[i] == y;
                if i > 0 {
                    assert(co[i - 1] == y);
                    assert(co.to_set().contains(y));
                }
            }
            assert forall|y: Seq<char>| children_of(m2, q).contains(y) implies c.to_set().contains(y) by {
                if y == id {
                    assert(c[0] == y);
                } else {
                    assert(children_of(m, q).contains(y));
                    assert(co.to_set().contains(y));
                    let i = choose|i: int| 0 <= i < co.len() && co[i] == y;
                    assert(c[i + 1] == y);
                }
            }
        }
        lemma_descending_unique(c, child_order(m2, q));
    }
}

proof fn lemma_walk_list_prepend<V>(m: Map<Seq<char>, NodeState<V>>, k: Seq<char>, ids: Seq<Seq<char>>, f: nat)
    ensures
        walk_list(m, seq![k] + ids, f) == walk(m, Some(k), f) + walk_list(m, ids, f),
    decreases ids.len(),
{
    let l = seq![k] + ids;
    if ids.len() == 0 {
        assert(l.drop_last() =~= Seq::<Seq<char>>::empty());
        assert(walk_list(m, l.drop_last(), f) =~= Seq::<(Seq<char>, V)>::empty());
        assert(walk_list(m, l, f) =~= walk(m, Some(k), f) + walk_list(m, ids, f));
    } else {
        assert(l.drop_last() =~= seq![k] + ids.drop_last());
        assert(l.last() == ids.last());
        lemma_walk_list_prepend(m, k, ids.drop_last(), f);
        let w = walk(m, Some(k), f);
        let d = walk_list(m, ids.drop_last(), f);
        let e = walk(m, Some(ids.last()), f);
        assert((w + d) + e =~= w + (d + e));
    }
}

/// The new node lists just itself.
proof fn lemma_walk_new_node<V>(m: Map<Seq<char>, NodeState<V>>, id: Seq<char>, parent: Option<Seq<char>>, v: V, f: nat)
    requires
        fresh_first_child(m, id, parent),
        f >= 1,
    ensures
        walk(insert_node(m, id, parent, v), Some(id), f) == seq![(id, v)],
{
    let m2 = insert_node(m, id, parent, v);
    lemma_insert_child_order(m, id, parent, v, Some(id));
    lemma_child_order(m, Some(id));
    let co = child_order(m, Some(id));
    if co.len() > 0 {
        assert(co.to_set().contains(co[0]));
    }
    assert(co =~= Seq::<Seq<char>>::empty());
    assert(shown(m2, Some(id)) =~= seq![(id, v)]);
    assert(walk(m2, Some(id), f) =~= seq![(id, v)]);
}

proof fn lemma_walk_insert<V>(
    m: Map<Seq<char>, NodeState<V>>,
    id: Seq<char>,
    parent: Option<Seq<char>>,
    v: V,
    k: Seq<char>,
    c: nat,
    f: nat,
)
    requires
        fresh_first_child(m, id, parent),
        in_tree(m, k, c),
        f >= m.dom().len() + 1 - c,
    ensures
        walk(insert_node(m, id, parent, v), Some(k), f + 1) == insert_after(walk(m, Some(k), f), parent, (id, v)),
    decreases f, 0nat,
{
    let m2 = insert_node(m, id, parent, v);
    let x = (id, v);
    let cur = Some(k);
    lemma_depth_bound(m, k, c);
    assert(up(m, k, 0) == Some(k));
    assert(m.contains_key(k));
    lemma_child_order(m, cur);
    let ids = child_order(m, cur);
    assert forall|i: int| 0 <= i < ids.len() implies in_tree(m, #[trigger] ids[i], c + 1) by {
        assert(ids.to_set().contains(ids[i]));
        lemma_child_depth(m, cur, c, ids[i]);
    }
    lemma_walk_list_insert(m, id, parent, v, ids, c + 1, (f - 1) as nat);
    lemma_insert_child_order(m, id, parent, v, cur);
    assert(shown(m2, cur) == shown(m, cur));
    let sh = shown(m, cur);
    let rest = walk_list(m, ids, (f - 1) as nat);
    lemma_insert_after_add(sh, rest, parent, x);
    if cur == parent {
        lemma_walk_list_prepend(m2, id, ids, f);
        lemma_walk_new_node(m, id, parent, v, f);
        assert(!m[k].deleted);
        assert(sh == seq![(k, m[k].value)]);
        assert(sh.drop_last() =~= Seq::<(Seq<char>, V)>::empty());
        assert(insert_after(sh.drop_last(), parent, x) == sh.drop_last());
        assert(sh.last().0 == k);
        assert(insert_after(sh, parent, x) =~= sh + seq![x]);
        assert(walk(m2, cur, f + 1) =~= insert_after(sh, parent, x) + insert_after(rest, parent, x));
    } else {
        assert forall|i: int| 0 <= i < sh.len() implies Some(#[trigger] sh[i].0) != parent by {}
        lemma_insert_after_absent(sh, parent, x);
    }
}

proof fn lemma_walk_list_insert<V>(
    m: Map<Seq<char>, NodeState<V>>,
    id: Seq<char>,
    parent: Option<Seq<char>>,
    v: V,
    ids: Seq<Seq<char>>,
    c: nat,
    f: nat,
)
    requires
        fresh_first_child(m, id, parent),
        forall|i: int| 0 <= i < ids.len() ==> in_tree(m, #[trigger] ids[i], c),
        f >= m.dom().len() + 1 - c,
    ensures
        walk_list(insert_node(m, id, parent, v), ids, f + 1) == insert_after(walk_list(m, ids, f), parent, (id, v)),
    decreases f, ids.len(),
{
    if ids.len() > 0 {
        let last = ids.last();
        assert(in_tree(m, ids[ids.len() - 1], c));
        assert forall|i: int| 0 <= i < ids.drop_last().len() implies in_tree(m, #[trigger] ids.drop_last()[i], c) by {
            assert(ids.drop_last()[i] == ids[i]);
        }
        lemma_walk_list_insert(m, id, parent, v, ids.drop_last(), c, f);
        lemma_walk_insert(m, id, parent, v, last, c, f);
        lemma_insert_after_add(walk_list(m, ids.drop_last(), f), walk(m, Some(last), f), parent, (id, v));
    }
}

/// A new node that comes first among its siblings is listed right after its parent: at
/// the head of the sequence when it hangs from the head, and otherwise right after the
/// entry of its parent, the rest of the sequence unchanged (a parent that is not listed
/// leaves the sequence as it was).
pub proof fn lemma_insert_lands_after_parent<V>(
    m: Map<Seq<char>, NodeState<V>>,
    id: Seq<char>,
    parent: Option<Seq<char>>,
    v: V,
)
    requires
        fresh_first_child(m, id, parent),
    ensures
        parent is None ==> sequence(insert_node(m, id, parent, v)) == seq![(id, v)] + sequence(m),
        parent is Some ==> sequence(insert_node(m, id, parent, v)) == insert_after(sequence(m), parent, (id, v)),
{
    let m2 = insert_node(m, id, parent, v);
    let n = m.dom().len();
    assert(m2.dom() =~= m.dom().insert(id));
    assert(m2.dom().len() == n + 1);
    lemma_child_order(m, None);
    let ids = child_order(m, None);
    assert forall|i: int| 0 <= i < ids.len() implies in_tree(m, #[trigger] ids[i], 1) by {
        assert(ids.to_set().contains(ids[i]));
        lemma_child_depth(m, None, 0, ids[i]);
    }
    lemma_walk_list_insert(m, id, parent, v, ids, 1, n);
    lemma_insert_child_order(m, id, parent, v, None);
    let old_list = walk_list(m, ids, n);
    assert(sequence(m) =~= old_list);
    if parent is None {
        lemma_walk_list_prepend(m2, id, ids, n + 1);
        lemma_walk_new_node(m, id, parent, v, n + 1);
        lemma_insert_after_absent(old_list, parent, (id, v));
        assert(sequence(m2) =~= seq![(id, v)] + old_list);
    } else {
        assert(sequence(m2) =~= insert_after(old_list, parent, (id, v)));
    }
}

/// Where the parent is listed once, at position `j`, the new node comes at `j + 1`.
proof fn lemma_insert_after_once<V>(s: Seq<(Seq<char>, V)>, p: Seq<char>, x: (Seq<char>, V), j: int)
    requires
        0 <= j < s.len(),
        s[j].0 == p,
        forall|i: int| 0 <= i < s.len() && i != j ==> #[trigger] s[i].0 != p,
    ensures
        insert_after(s, Some(p), x) == s.take(j + 1) + seq![x] + s.skip(j + 1),
    decreases s.len(),
{
    let t = s.drop_last();
    if j == s.len() - 1 {
        assert forall|i: int| 0 <= i < t.len() implies Some(#[trigger] t[i].0) != Some(p) by {
            assert(t[i] == s[i]);
        }
        lemma_insert_after_absent(t, Some(p), x);
        assert(t.push(s.last()) =~= s.take(j + 1));
        assert(s.skip(j + 1) =~= Seq::<(Seq<char>, V)>::empty());
        assert(insert_after(s, Some(p), x) =~= s.take(j + 1) + seq![x] + s.skip(j + 1));
    } else {
        assert forall|i: int| 0 <= i < t.len() && i != j implies #[trigger] t[i].0 != p by {
            assert(t[i] == s[i]);
        }
        assert(t[j] == s[j]);
        lemma_insert_after_once(t, p, x, j);
        assert(s.last().0 != p) by {
            assert(s[s.len() - 1].0 != p);
        }
        assert(insert_after(s, Some(p), x) =~= s.take(j + 1) + seq![x] + s.skip(j + 1));
    }
}

/// No two entries of `s` are for the same node.
pub open spec fn keys_distinct<V>(s: Seq<(Seq<char>, V)>) -> bool {
    forall|i: int, j: int| 0 <= i < j < s.len() ==> #[trigger] s[i].0 != #[trigger] s[j].0
}

/// Node `k` hangs in the tree at or below `cur`, which is `c` levels below the head.
spec fn under<V>(m: Map<Seq<char>, NodeState<V>>, k: Seq<char>, cur: Option<Seq<char>>, c: nat) -> bool {
    exists|d: nat| #[trigger] in_tree(m, k, d) && d >= c && up(m, k, (d - c) as nat) == cur
}

/// A node hangs at one depth only.
proof fn lemma_depth_unique<V>(m: Map<Seq<char>, NodeState<V>>, k: Seq<char>, d1: nat, d2: nat)
    requires
        in_tree(m, k, d1),
        in_tree(m, k, d2),
    ensures
        d1 == d2,
{
    if d1 < d2 {
        assert(up(m, k, d1) is Some);
    } else if d2 < d1 {
        assert(up(m, k, d2) is Some);
    }
}

proof fn lemma_walk_distinct<V>(m: Map<Seq<char>, NodeState<V>>, cur: Option<Seq<char>>, c: nat, f: nat)
    requires
        m.dom().finite(),
        at_depth(m, cur, c),
    ensures
        keys_distinct(walk(m, cur, f)),
        forall|i: int| 0 <= i < walk(m, cur, f).len() ==> under(m, #[trigger] walk(m, cur, f)[i].0, cur, c),
    decreases f, 0nat,
{
    if f > 0 {
        lemma_child_order(m, cur);
        let ids = child_order(m, cur);
        lemma_descending_no_duplicates(ids);
        assert forall|i: int| 0 <= i < ids.len() implies in_tree(m, #[trigger] ids[i], c + 1) by {
            assert(ids.to_set().contains(ids[i]));
            lemma_child_depth(m, cur, c, ids[i]);
        }
        lemma_walk_list_distinct(m, ids, c + 1, (f - 1) as nat);
        let w = walk_list(m, ids, (f - 1) as nat);
        let sh = shown(m, cur);
        let all = walk(m, cur, f);
        assert(all == sh + w);
        // every entry below a child lies one level further below `cur`
        assert forall|i: int| #![trigger w[i]] 0 <= i < w.len() implies exists|d: nat|
            #[trigger] in_tree(m, w[i].0, d) && d >= c + 1 && up(m, w[i].0, (d - c) as nat) == cur by {
            let k = w[i].0;
            assert(under_some(m, k, ids, c + 1));
            let t = choose|t: int| 0 <= t < ids.len() && #[trigger] under(m, k, Some(ids[t]), c + 1);
            let d = choose|d: nat| #[trigger] in_tree(m, k, d) && d >= c + 1 && up(m, k, (d - (c + 1)) as nat) == Some(ids[t]);
            assert(ids.to_set().contains(ids[t]));
            assert(children_of(m, cur).contains(ids[t]));
            assert(up(m, k, (d - c) as nat) == match up(m, k, (d - c - 1) as nat) {
                Some(x) => m[x].parent,
                None => None,
            });
            assert(in_tree(m, k, d) && d >= c + 1 && up(m, k, (d - c) as nat) == cur);
        }
        assert forall|i: int| 0 <= i < all.len() implies under(m, #[trigger] all[i].0, cur, c) by {
            if i < sh.len() {
                let r = cur->0;
                assert(all[i].0 == r);
                assert(up(m, r, 0) == Some(r));
                assert(in_tree(m, r, c));
            } else {
                assert(all[i] == w[i - sh.len()]);
                let k = w[i - sh.len()].0;
                let d = choose|d: nat| #[trigger] in_tree(m, k, d) && d >= c + 1 && up(m, k, (d - c) as nat) == cur;
                assert(in_tree(m, k, d));
            }
        }
        assert forall|i: int, j: int| 0 <= i < j < all.len() implies #[trigger] all[i].0 != #[trigger] all[j].0 by {
            if j < sh.len() {
            } else if i >= sh.len() {
                assert(all[i] == w[i - sh.len()] && all[j] == w[j - sh.len()]);
            } else {
                let r = cur->0;
                assert(all[i].0 == r);
                assert(in_tree(m, r, c));
                let k = w[j - sh.len()].0;
                assert(all[j] == w[j - sh.len()]);
                let d = choose|d: nat| #[trigger] in_tree(m, k, d) && d >= c + 1 && up(m, k, (d - c) as nat) == cur;
                if k == r {
                    lemma_depth_unique(m, r, c, d);
                }
            }
        }
    }
}

/// Node `k` hangs at or below one of `ids`, which are `c` levels below the head.
spec fn under_some<V>(m: Map<Seq<char>, NodeState<V>>, k: Seq<char>, ids: Seq<Seq<char>>, c: nat) -> bool {
    exists|t: int| 0 <= t < ids.len() && #[trigger] under(m, k, Some(ids[t]), c)
}

proof fn lemma_walk_list_distinct<V>(m: Map<Seq<char>, NodeState<V>>, ids: Seq<Seq<char>>, c: nat, f: nat)
    requires
        m.dom().finite(),
        ids.no_duplicates(),
        forall|i: int| 0 <= i < ids.len() ==> in_tree(m, #[trigger] ids[i], c),
    ensures
        keys_distinct(walk_list(m, ids, f)),
        forall|i: int|
            0 <= i < walk_list(m, ids, f).len() ==> under_some(m, #[trigger] walk_list(m, ids, f)[i].0, ids, c),
    decreases f, ids.len(),
{
    if ids.len() > 0 {
        let n = ids.len() - 1;
        let last = ids.last();
        let front = ids.drop_last();
        assert(in_tree(m, ids[n], c));
        assert forall|i: int| 0 <= i < front.len() implies in_tree(m, #[trigger] front[i], c) by {
            assert(front[i] == ids[i]);
        }
        assert(front.no_duplicates()) by {
            assert forall|i: int, j: int| 0 <= i < front.len() && 0 <= j < front.len() && i != j implies front[i]
                != front[j] by {
                assert(front[i] == ids[i] && front[j] == ids[j]);
            }
        }
        lemma_walk_list_distinct(m, front, c, f);
        lemma_walk_distinct(m, Some(last), c, f);
        let a = walk_list(m, front, f);
        let b = walk(m, Some(last), f);
        let all = walk_list(m, ids, f);
        assert(all == a + b);
        assert forall|i: int| 0 <= i < all.len() implies under_some(m, #[trigger] all[i].0, ids, c) by {
            if i < a.len() {
                assert(all[i] == a[i]);
                assert(under_some(m, a[i].0, front, c));
                let t = choose|t: int| 0 <= t < front.len() && #[trigger] under(m, a[i].0, Some(front[t]), c);
                assert(front[t] == ids[t]);
                assert(under(m, all[i].0, Some(ids[t]), c));
            } else {
                assert(all[i] == b[i - a.len()]);
                assert(under(m, b[i - a.len()].0, Some(last), c));
                assert(under(m, all[i].0, Some(ids[n]), c));
            }
        }
        assert forall|i: int, j: int| 0 <= i < j < all.len() implies #[trigger] all[i].0 != #[trigger] all[j].0 by {
            if j < a.len() {
                assert(all[i] == a[i] && all[j] == a[j]);
            } else if i >= a.len() {
                assert(all[i] == b[i - a.len()] && all[j] == b[j - a.len()]);
            } else {
                assert(all[i] == a[i] && all[j] == b[j - a.len()]);
                let k = a[i].0;
                if k == b[j - a.len()].0 {
                    assert(under_some(m, k, front, c));
                    let t = choose|t: int| 0 <= t < front.len() && #[trigger] under(m, k, Some(front[t]), c);
                    assert(under(m, k, Some(last), c));
                    let d1 = choose|d: nat| #[trigger] in_tree(m, k, d) && d >= c && up(m, k, (d - c) as nat) == Some(front[t]);
                    let d2 = choose|d: nat| #[trigger] in_tree(m, k, d) && d >= c && up(m, k, (d - c) as nat) == Some(last);
                    lemma_depth_unique(m, k, d1, d2);
                    assert(front[t] == ids[t]);
                    assert(ids[t] == ids[n]);
                }
            }
        }
    }
}

/// No node is listed twice in the sequence.
pub proof fn lemma_sequence_keys_distinct<V>(m: Map<Seq<char>, NodeState<V>>)
    requires
        m.dom().finite(),
    ensures
        keys_distinct(sequence(m)),
{
    lemma_walk_distinct(m, None, 0, m.dom().len() + 1);
}

/// A new node that comes first among its siblings lands right after its parent: where
/// the parent is listed at position `j`, the new element comes at `j + 1`, and the rest
/// of the sequence keeps its order.
pub proof fn lemma_insert_lands_at<V>(m: Map<Seq<char>, NodeState<V>>, id: Seq<char>, p: Seq<char>, v: V, j: int)
    requires
        fresh_first_child(m, id, Some(p)),
        0 <= j < sequence(m).len(),
        sequence(m)[j].0 == p,
    ensures
        sequence(insert_node(m, id, Some(p), v)) == sequence(m).take(j + 1) + seq![(id, v)] + sequence(m).skip(
            j + 1,
        ),
{
    let s = sequence(m);
    lemma_insert_lands_after_parent(m, id, Some(p), v);
    lemma_sequence_keys_distinct(m);
    assert forall|i: int| 0 <= i < s.len() && i != j implies #[trigger] s[i].0 != p by {
        if i < j {
            assert(s[i].0 != s[j].0);
        } else {
            assert(s[j].0 != s[i].0);
        }
    }
    lemma_insert_after_once(s, p, (id, v), j);
}

/// Removing node `id` drops exactly its entry from the sequence: every other element
/// keeps its place and order, descendants of `id` included.
pub proof fn lemma_remove_keeps_others<V>(m: Map<Seq<char>, NodeState<V>>, id: Seq<char>)
    requires
        m.dom().finite(),
    ensures
        sequence(remove_node(m, id)) == without(sequence(m), id),
{
    assert(remove_node(m, id).dom() =~= m.dom());
    lemma_walk_remove(m, id, None, m.dom().len() + 1);
}

} // verus!

verus! {

/// Sixteen to the power `k`.
pub open spec fn pow16(k: nat) -> nat
    decreases k,
{
    if k == 0 {
        1
    } else {
        16 * pow16((k - 1) as nat)
    }
}

proof fn lemma_hex_len(t: nat, k: nat)
    ensures
        hex_digits(t, k).len() == k,
    decreases k,
{
    if k > 0 {
        lemma_hex_len(t / 16, (k - 1) as nat);
    }
}

/// Of two identifiers of equal length, the smaller stays smaller whatever follows each.
proof fn lemma_lt_prefix(a: Seq<char>, b: Seq<char>, x: Seq<char>, y: Seq<char>)
    requires
        a.len() == b.len(),
        id_lt(a, b),
    ensures
        id_lt(a + x, b + y),
    decreases a.len(),
{
    assert((a + x)[0] == a[0] && (b + y)[0] == b[0]);
    if a[0] == b[0] {
        assert((a + x).drop_first() =~= a.drop_first() + x);
        assert((b + y).drop_first() =~= b.drop_first() + y);
        lemma_lt_prefix(a.drop_first(), b.drop_first(), x, y);
    }
}

/// A common prefix does not change the order.
proof fn lemma_lt_common_prefix(p: Seq<char>, x: Seq<char>, y: Seq<char>)
    ensures
        id_lt(p + x, p + y) == id_lt(x, y),
    decreases p.len(),
{
    if p.len() == 0 {
        assert(p + x =~= x);
        assert(p + y =~= y);
    } else {
        assert((p + x)[0] == p[0] && (p + y)[0] == p[0]);
        assert((p + x).drop_first() =~= p.drop_first() + x);
        assert((p + y).drop_first() =~= p.drop_first() + y);
        lemma_lt_common_prefix(p.drop_first(), x, y);
    }
}

/// Zero-padded hexadecimal numerals of the same width are ordered as the numbers are.
proof fn lemma_hex_order(t1: nat, t2: nat, k: nat)
    requires
        t1 < t2,
        t2 < pow16(k),
    ensures
        id_lt(hex_digits(t1, k), hex_digits(t2, k)),
    decreases k,
{
    if k == 0 {
        assert(t2 < 1);
    } else {
        let q1 = t1 / 16;
        let q2 = t2 / 16;
        let d1 = t1 % 16;
        let d2 = t2 % 16;
        assert(q1 <= q2 && q2 < pow16((k - 1) as nat) && (q1 == q2 ==> d1 < d2)) by (nonlinear_arith)
            requires
                t1 < t2,
                t2 < 16 * pow16((k - 1) as nat),
                q1 == t1 / 16,
                q2 == t2 / 16,
                d1 == t1 % 16,
                d2 == t2 % 16,
        ;
        lemma_hex_len(q1, (k - 1) as nat);
        lemma_hex_len(q2, (k - 1) as nat);
        let c1 = seq![hex_char(d1)];
        let c2 = seq![hex_char(d2)];
        assert(hex_digits(t1, k) =~= hex_digits(q1, (k - 1) as nat) + c1);
        assert(hex_digits(t2, k) =~= hex_digits(q2, (k - 1) as nat) + c2);
        if q1 < q2 {
            lemma_hex_order(q1, q2, (k - 1) as nat);
            lemma_lt_prefix(hex_digits(q1, (k - 1) as nat), hex_digits(q2, (k - 1) as nat), c1, c2);
        } else {
            assert(id_lt(c1, c2)) by {
                assert(c1[0] != c2[0]);
                assert((c1[0] as int) < (c2[0] as int));
            }
            lemma_lt_common_prefix(hex_digits(q1, (k - 1) as nat), c1, c2);
        }
    }
}

/// Identifiers that replicas give nodes are ordered by the clock reading they were made
/// at: a node inserted at a later reading comes before its earlier siblings.
pub proof fn lemma_node_id_order(t1: u64, t2: u64, r1: Seq<char>, r2: Seq<char>)
    requires
        t1 < t2,
    ensures
        id_lt(node_id_at(t1, r1), node_id_at(t2, r2)),
{
    assert(pow16(16) == 0x1_0000_0000_0000_0000) by {
        reveal_with_fuel(pow16, 17);
    }
    lemma_hex_order(t1 as nat, t2 as nat, 16);
    lemma_hex_len(t1 as nat, 16);
    lemma_hex_len(t2 as nat, 16);
    let h1 = hex_digits(t1 as nat, 16);
    let h2 = hex_digits(t2 as nat, 16);
    lemma_lt_prefix(h1, h2, seq!['-'] + r1, seq!['-'] + r2);
    assert(node_id_at(t1, r1) =~= h1 + (seq!['-'] + r1));
    assert(node_id_at(t2, r2) =~= h2 + (seq!['-'] + r2));
}

} // verus!
