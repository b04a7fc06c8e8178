use vstd::prelude::*;
use crate::crdt::Crdt;
use crate::crdt::element::{Duplicate, Element, ElementSet};
use crate::crdt::keyed::{
    clone_entries, entries_view, find_key, key_index, keys_unique, lemma_view_at,
    lemma_view_empty, lemma_view_push, lemma_view_same, lemma_view_take, lemma_view_update,
    check_unique,
};
use crate::ids::fresh_uuid;

verus! {

/// A unique mark of one addition: the adding replica's identifier and its count of additions.
#[derive(Debug)]
pub struct Tag {
    pub uuid: String,
    pub counter: u64,
}

impl View for Tag {
    type V = (Seq<char>, u64);

    open spec fn view(&self) -> (Seq<char>, u64) {
        (self.uuid@, self.counter)
    }
}

impl Duplicate for Tag {
    fn duplicate(&self) -> (r: Self) {
        Tag { uuid: self.uuid.clone(), counter: self.counter }
    }
}

impl Element for Tag {
    fn same(&self, other: &Self) -> (r: bool) {
        self.counter == other.counter && self.uuid.same(&other.uuid)
    }
}

impl Clone for Tag {
    fn clone(&self) -> (r: Self)
        ensures
            r@ == self@,
    {
        self.duplicate()
    }
}

/// A finite set of tags.
#[derive(Debug)]
pub struct TagSet {
    tags: Vec<Tag>,
}

impl View for TagSet {
    type V = Set<(Seq<char>, u64)>;

    closed spec fn view(&self) -> Set<(Seq<char>, u64)> {
        Set::new(|v: (Seq<char>, u64)| exists|i: int| 0 <= i < self.tags@.len() && #[trigger] self.tags@[i]@ == v)
    }
}

impl TagSet {
    pub fn new() -> (r: Self)
        ensures
            r@ == Set::<(Seq<char>, u64)>::empty(),
    {
        let r = TagSet { tags: Vec::new() };
        proof {
            assert(r@ =~= Set::<(Seq<char>, u64)>::empty());
        }
        r
    }

    /// Whether `tag` is in the set.
    pub fn contains(&self, tag: &Tag) -> (r: bool)
        ensures
            r == self@.contains(tag@),
    {
        let n = self.tags.len();
        let mut i: usize = 0;
        while i < n
            invariant
                n == self.tags@.len(),
                i <= n,
                forall|j: int| 0 <= j < i ==> #[trigger] self.tags@[j]@ != tag@,
            decreases n - i,
        {
            if self.tags[i].same(tag) {
                return true;
            }
            i = i + 1;
        }
        false
    }

    /// Adds `tag`.
    pub fn insert(&mut self, tag: Tag)
        ensures
            final(self)@ == old(self)@.insert(tag@),
    {
        if !self.contains(&tag) {
            let ghost before = self.tags@;
            self.tags.push(tag);
            proof {
                assert forall|v: (Seq<char>, u64)| #[trigger] final(self)@.contains(v) == old(self)@.insert(tag@).contains(v) by {
                    if final(self)@.contains(v) {
                        let i = choose|i: int| 0 <= i < self.tags@.len() && #[trigger] self.tags@[i]@ == v;
                        if i < before.len() {
                            assert(before[i]@ == v);
                        }
                    }
                    if old(self)@.contains(v) {
                        let i = choose|i: int| 0 <= i < before.len() && #[trigger] before[i]@ == v;
                        assert(self.tags@[i] == before[i]);
                    }
                    if v == tag@ {
                        assert(self.tags@[before.len() as int]@ == v);
                    }
                }
            }
        }
        proof {
            assert(final(self)@ =~= old(self)@.insert(tag@));
        }
    }

    /// Adds every tag of `other`.
    pub fn extend(&mut self, other: &TagSet)
        ensures
            final(self)@ == old(self)@.union(other@),
    {
        let n = other.tags.len();
        let mut i: usize = 0;
        while i < n
            invariant
                n == other.tags@.len(),
                i <= n,
                self@ == old(self)@.union(
                    Set::new(|v: (Seq<char>, u64)| exists|j: int| 0 <= j < i && #[trigger] other.tags@[j]@ == v),
                ),
            decreases n - i,
        {
            let ghost before = self@;
            self.insert(other.tags[i].duplicate());
            proof {
                assert(self@ =~= old(self)@.union(
                    Set::new(|v: (Seq<char>, u64)| exists|j: int| 0 <= j < i + 1 && #[trigger] other.tags@[j]@ == v),
                )) by {
                    assert forall|v: (Seq<char>, u64)| #[trigger] self@.contains(v) == old(self)@.union(
                        Set::new(|w: (Seq<char>, u64)| exists|j: int| 0 <= j < i + 1 && #[trigger] other.tags@[j]@ == w),
                    ).contains(v) by {
                        if v == other.tags@[i as int]@ {
                        } else if exists|j: int| 0 <= j < i + 1 && #[trigger] other.tags@[j]@ == v {
                            let j = choose|j: int| 0 <= j < i + 1 && #[trigger] other.tags@[j]@ == v;
                            assert(j < i);
                        }
                    }
                }
            }
            i = i + 1;
        }
        proof {
            assert(Set::new(|v: (Seq<char>, u64)| exists|j: int| 0 <= j < n && #[trigger] other.tags@[j]@ == v) =~= other@);
        }
    }

    /// Whether some tag of this set is not in `other`.
    pub fn has_tag_outside(&self, other: &TagSet) -> (r: bool)
        ensures
            r == exists|v: (Seq<char>, u64)| self@.contains(v) && !other@.contains(v),
    {
        let n = self.tags.len();
        let mut i: usize = 0;
        while i < n
            invariant
                n == self.tags@.len(),
                i <= n,
                forall|j: int| 0 <= j < i ==> other@.contains(#[trigger] self.tags@[j]@),
            decreases n - i,
        {
            if !other.contains(&self.tags[i]) {
                proof {
                    assert(self@.contains(self.tags@[i as int]@));
                }
                return true;
            }
            i = i + 1;
        }
        proof {
            assert forall|v: (Seq<char>, u64)| self@.contains(v) implies other@.contains(v) by {
                let j = choose|j: int| 0 <= j < n && #[trigger] self.tags@[j]@ == v;
            }
        }
        false
    }

    /// Whether the set is empty.
    pub fn is_empty(&self) -> (r: bool)
        ensures
            r == (self@ == Set::<(Seq<char>, u64)>::empty()),
    {
        proof {
            if self.tags@.len() > 0 {
                assert(self@.contains(self.tags@[0]@));
            } else {
                assert(self@ =~= Set::<(Seq<char>, u64)>::empty());
            }
        }
        self.tags.len() == 0
    }

    /// The tags, in no particular order.
    pub fn to_vec(&self) -> (r: Vec<Tag>)
        ensures
            forall|v: (Seq<char>, u64)| self@.contains(v) <==> exists|i: int| 0 <= i < r@.len() && #[trigger] r@[i]@ == v,
    {
        let n = self.tags.len();
        let mut out: Vec<Tag> = Vec::new();
        let mut i: usize = 0;
        while i < n
            invariant
                n == self.tags@.len(),
                i <= n,
                out@.len() == i,
                forall|j: int| 0 <= j < i ==> #[trigger] out@[j]@ == self.tags@[j]@,
            decreases n - i,
        {
            out.push(self.tags[i].duplicate());
            i = i + 1;
        }
        proof {
            assert forall|v: (Seq<char>, u64)| self@.contains(v) <==> exists|i: int| 0 <= i < out@.len() && #[trigger] out@[i]@ == v by {
                if self@.contains(v) {
                    let j = choose|j: int| 0 <= j < n && #[trigger] self.tags@[j]@ == v;
                    assert(out@[j]@ == v);
                }
                if exists|i: int| 0 <= i < out@.len() && #[trigger] out@[i]@ == v {
                    let j = choose|j: int| 0 <= j < out@.len() && #[trigger] out@[j]@ == v;
                    assert(self.tags@[j]@ == v);
                }
            }
        }
        out
    }
}

impl Duplicate for TagSet {
    fn duplicate(&self) -> (r: Self) {
        let mut r = TagSet::new();
        r.extend(self);
        proof {
            assert(r@ =~= self@);
        }
        r
    }
}

impl Clone for TagSet {
    fn clone(&self) -> (r: Self)
        ensures
            r@ == self@,
    {
        self.duplicate()
    }
}

/// The state of an observed-remove set, by view: the tags of each element's additions,
/// and the tags of each element's observed removals.
#[verifier::reject_recursive_types(V)]
pub struct OrState<V> {
    pub elements: Map<V, Set<(Seq<char>, u64)>>,
    pub removed: Map<V, Set<(Seq<char>, u64)>>,
}

/// The tags that `m` holds for `e`, none if it has no entry.
pub open spec fn tags_of<V>(m: Map<V, Set<(Seq<char>, u64)>>, e: V) -> Set<(Seq<char>, u64)> {
    if m.contains_key(e) {
        m[e]
    } else {
        Set::empty()
    }
}

/// An element is a member when some tag of its additions has not been removed.
pub open spec fn or_member<V>(s: OrState<V>, e: V) -> bool {
    s.elements.contains_key(e) && exists|t: (Seq<char>, u64)|
        #[trigger] s.elements[e].contains(t) && !tags_of(s.removed, e).contains(t)
}

/// The members of the set.
pub open spec fn or_members<V>(s: OrState<V>) -> Set<V> {
    s.elements.dom().filter(|e: V| or_member(s, e))
}

/// The state after `e` is added with tag `t`.
pub open spec fn or_add<V>(s: OrState<V>, e: V, t: (Seq<char>, u64)) -> OrState<V> {
    OrState { elements: s.elements.insert(e, tags_of(s.elements, e).insert(t)), removed: s.removed }
}

/// The state after `e` is removed: every tag of its additions seen so far is removed.
pub open spec fn or_remove<V>(s: OrState<V>, e: V) -> OrState<V> {
    if s.elements.contains_key(e) {
        OrState {
            elements: s.elements,
            removed: s.removed.insert(e, tags_of(s.removed, e).union(s.elements[e])),
        }
    } else {
        s
    }
}

/// The per-element union of two tag maps.
pub open spec fn union_tags<V>(a: Map<V, Set<(Seq<char>, u64)>>, b: Map<V, Set<(Seq<char>, u64)>>) -> Map<
    V,
    Set<(Seq<char>, u64)>,
> {
    Map::new(|e: V| a.contains_key(e) || b.contains_key(e), |e: V| tags_of(a, e).union(tags_of(b, e)))
}

/// The merge of two states: the union of additions and the union of removals.
pub open spec fn or_merge<V>(a: OrState<V>, b: OrState<V>) -> OrState<V> {
    OrState { elements: union_tags(a.elements, b.elements), removed: union_tags(a.removed, b.removed) }
}

/// An observed-remove set: additions carry unique tags, and a removal removes only the
/// tags it has seen, so that an addition concurrent with a removal survives it.
#[derive(Debug)]
pub struct ORSet<T: View> {
    elements: Vec<(T, TagSet)>,
    removed: Vec<(T, TagSet)>,
}

impl<T: View> View for ORSet<T> {
    type V = OrState<T::V>;

    closed spec fn view(&self) -> OrState<T::V> {
        OrState { elements: entries_view(self.elements@), removed: entries_view(self.removed@) }
    }
}

impl<T: View> ORSet<T> {
    #[verifier::type_invariant]
    spec fn wf(self) -> bool {
        keys_unique(self.elements@) && keys_unique(self.removed@)
    }
}

/// Adds `tags` to the tags that `entries` holds for `key`.
fn add_tags<T: Element>(entries: &mut Vec<(T, TagSet)>, key: &T, tags: &TagSet)
    requires
        keys_unique(old(entries)@),
    ensures
        keys_unique(final(entries)@),
        entries_view(final(entries)@) == entries_view(old(entries)@).insert(
            key@,
            tags_of(entries_view(old(entries)@), key@).union(tags@),
        ),
{
    let ghost before = entries@;
    match find_key(entries, key) {
        Some(i) => {
            proof {
                lemma_view_at(before, i as int);
            }
            let mut set = entries[i].1.duplicate();
            set.extend(tags);
            proof {
                lemma_view_update(before, i as int, set);
            }
            entries[i].1 = set;
            proof {
                assert(entries@ =~= before.update(i as int, (before[i as int].0, set)));
            }
        },
        None => {
            let k = key.duplicate();
            let mut set = TagSet::new();
            set.extend(tags);
            proof {
                lemma_view_push(before, k, set);
                assert(set@ =~= tags_of(entries_view(before), key@).union(tags@));
            }
            entries.push((k, set));
        },
    }
}

impl<T: Element> ORSet<T> {
    pub fn new() -> (r: Self)
        ensures
            r@.elements == Map::<T::V, Set<(Seq<char>, u64)>>::empty(),
            r@.removed == Map::<T::V, Set<(Seq<char>, u64)>>::empty(),
    {
        let r = ORSet { elements: Vec::new(), removed: Vec::new() };
        proof {
            lemma_view_empty(r.elements@);
            lemma_view_empty(r.removed@);
        }
        r
    }

    /// The tags of the additions of each element.
    pub fn element_entries(&self) -> (r: Vec<(T, TagSet)>)
        ensures
            keys_unique(r@),
            entries_view(r@) == self@.elements,
    {
        proof {
            use_type_invariant(self);
        }
        let out = clone_entries(&self.elements);
        proof {
            lemma_view_same(self.elements@, out@);
        }
        out
    }

    /// The tags of the removals of each element.
    pub fn removed_entries(&self) -> (r: Vec<(T, TagSet)>)
        ensures
            keys_unique(r@),
            entries_view(r@) == self@.removed,
    {
        proof {
            use_type_invariant(self);
        }
        let out = clone_entries(&self.removed);
        proof {
            lemma_view_same(self.removed@, out@);
        }
        out
    }

    /// The set with the given tags; `None` when an element occurs twice among the
    /// additions or among the removals.
    pub fn from_entries(elements: Vec<(T, TagSet)>, removed: Vec<(T, TagSet)>) -> (r: Option<Self>)
        ensures
            r is Some <==> keys_unique(elements@) && keys_unique(removed@),
            r matches Some(s) ==> s@ == (OrState { elements: entries_view(elements@), removed: entries_view(removed@) }),
    {
        if check_unique(&elements) && check_unique(&removed) {
            Some(ORSet { elements, removed })
        } else {
            None
        }
    }

    /// Records an addition of `element` under `tag`.
    pub fn add(&mut self, element: T, tag: Tag)
        ensures
            final(self)@ == or_add(old(self)@, element@, tag@),
    {
        proof {
            use_type_invariant(&*self);
        }
        let mut elements: Vec<(T, TagSet)> = Vec::new();
        std::mem::swap(&mut elements, &mut self.elements);
        let mut one = TagSet::new();
        one.insert(tag);
        add_tags(&mut elements, &element, &one);
        proof {
            assert(tags_of(entries_view(self.elements@), element@).insert(tag@) =~= tags_of(
                entries_view(self.elements@),
                element@,
            ).union(one@)) by {
                assert(self.elements@.len() == 0);
            }
        }
        self.elements = elements;
        proof {
            assert(tags_of(entries_view(old(self).elements@), element@).insert(tag@) =~= tags_of(
                entries_view(old(self).elements@),
                element@,
            ).union(one@));
        }
    }

    /// Removes `element`: the tags of its additions seen so far become removed.
    pub fn remove(&mut self, element: &T)
        ensures
            final(self)@ == or_remove(old(self)@, element@),
    {
        proof {
            use_type_invariant(&*self);
        }
        match find_key(&self.elements, element) {
            Some(i) => {
                proof {
                    lemma_view_at(self.elements@, i as int);
                }
                let tags = self.elements[i].1.duplicate();
                let mut removed: Vec<(T, TagSet)> = Vec::new();
                std::mem::swap(&mut removed, &mut self.removed);
                add_tags(&mut removed, element, &tags);
                self.removed = removed;
            },
            None => {},
        }
    }

    /// Whether `element` is a member: some tag of its additions has not been removed.
    pub fn is_member(&self, element: &T) -> (r: bool)
        ensures
            r == or_member(self@, element@),
    {
        proof {
            use_type_invariant(self);
        }
        match find_key(&self.elements, element) {
            Some(i) => {
                proof {
                    lemma_view_at(self.elements@, i as int);
                }
                let tags = &self.elements[i].1;
                match find_key(&self.removed, element) {
                    Some(j) => {
                        proof {
                            lemma_view_at(self.removed@, j as int);
                        }
                        let r = tags.has_tag_outside(&self.removed[j].1);
                        proof {
                            let rem = self.removed@[j as int].1@;
                            assert(tags_of(self@.removed, element@) == rem);
                            if r {
                                let t = choose|t: (Seq<char>, u64)| tags@.contains(t) && !rem.contains(t);
                                assert(self@.elements[element@].contains(t));
                            }
                            if or_member(self@, element@) {
                                let t = choose|t: (Seq<char>, u64)|
                                    #[trigger] self@.elements[element@].contains(t) && !tags_of(self@.removed, element@).contains(t);
                                assert(tags@.contains(t) && !rem.contains(t));
                            }
                        }
                        r
                    },
                    None => {
                        let r = !tags.is_empty();
                        proof {
                            assert(self@.elements[element@] == tags@);
                            assert(tags_of(self@.removed, element@) == Set::<(Seq<char>, u64)>::empty());
                            if !r {
                                assert(!or_member(self@, element@));
                            }
                            if r {
                                assert(exists|t: (Seq<char>, u64)| tags@.contains(t)) by {
                                    if !(exists|t: (Seq<char>, u64)| tags@.contains(t)) {
                                        assert(tags@ =~= Set::<(Seq<char>, u64)>::empty());
                                    }
                                }
                                let t = choose|t: (Seq<char>, u64)| tags@.contains(t);
                                assert(!tags_of(self@.removed, element@).contains(t));
                                assert(self@.elements[element@].contains(t));
                                assert(or_member(self@, element@));
                            }
                        }
                        r
                    },
                }
            },
            None => false,
        }
    }

    /// The members of the set.
    pub fn members(&self) -> (r: ElementSet<T>)
        ensures
            r@ == or_members(self@),
    {
        proof {
            use_type_invariant(self);
        }
        let mut out = ElementSet::new();
        let n = self.elements.len();
        let mut i: usize = 0;
        while i < n
            invariant
                n == self.elements@.len(),
                i <= n,
                keys_unique(self.elements@),
                out@ == Set::new(
                    |e: T::V|
                        exists|j: int| 0 <= j < i && #[trigger] self.elements@[j].0@ == e && or_member(self@, e),
                ),
            decreases n - i,
        {
            let e = &self.elements[i].0;
            if self.is_member(e) {
                out.insert(e.duplicate());
            }
            proof {
                assert(out@ =~= Set::new(
                    |e: T::V|
                        exists|j: int| 0 <= j < i + 1 && #[trigger] self.elements@[j].0@ == e && or_member(self@, e),
                )) by {
                    assert forall|v: T::V| #[trigger] out@.contains(v) == (exists|j: int|
                        0 <= j < i + 1 && #[trigger] self.elements@[j].0@ == v && or_member(self@, v)) by {
                        if exists|j: int| 0 <= j < i + 1 && #[trigger] self.elements@[j].0@ == v && or_member(self@, v) {
                            let j = choose|j: int| 0 <= j < i + 1 && #[trigger] self.elements@[j].0@ == v && or_member(self@, v);
                            if j < i {
                            }
                        }
                    }
                }
            }
            i = i + 1;
        }
        proof {
            assert forall|v: T::V| #[trigger] out@.contains(v) == or_members(self@).contains(v) by {
                if or_members(self@).contains(v) {
                    let j = key_index(self.elements@, v);
                    lemma_view_at(self.elements@, j);
                }
            }
            assert(out@ =~= or_members(self@));
        }
        out
    }
}

impl<T: Element> Clone for ORSet<T> {
    fn clone(&self) -> (r: Self)
        ensures
            r@ == self@,
    {
        proof {
            use_type_invariant(self);
        }
        let elements = clone_entries(&self.elements);
        let removed = clone_entries(&self.removed);
        proof {
            lemma_view_same(self.elements@, elements@);
            lemma_view_same(self.removed@, removed@);
        }
        ORSet { elements, removed }
    }
}

/// Folds every entry of `other` into `entries`, uniting tag sets.
fn union_into<T: Element>(entries: &mut Vec<(T, TagSet)>, other: &Vec<(T, TagSet)>)
    requires
        keys_unique(old(entries)@),
        keys_unique(other@),
    ensures
        keys_unique(final(entries)@),
        entries_view(final(entries)@) == union_tags(entries_view(old(entries)@), entries_view(other@)),
{
    let ghost start = entries_view(entries@);
    let n = other.len();
    let mut i: usize = 0;
    proof {
        lemma_view_empty(other@.take(0));
        assert forall|k: T::V| #[trigger] start.contains_key(k) implies union_tags(start, Map::empty())[k] == start[k] by {
            assert(tags_of(start, k).union(tags_of(Map::<T::V, Set<(Seq<char>, u64)>>::empty(), k)) =~= start[k]);
        }
        assert(union_tags(start, Map::empty()) =~= start);
    }
    while i < n
        invariant
            n == other@.len(),
            i <= n,
            keys_unique(other@),
            keys_unique(entries@),
            entries_view(entries@) == union_tags(start, entries_view(other@.take(i as int))),
        decreases n - i,
    {
        let ghost prefix = entries_view(other@.take(i as int));
        let ghost before = entries_view(entries@);
        proof {
            lemma_view_take(other@, i as int);
        }
        add_tags(entries, &other[i].0, &other[i].1);
        proof {
            let k = other@[i as int].0@;
            assert(!prefix.contains_key(k));
            assert(tags_of(before, k) =~= tags_of(start, k));
            assert forall|key: T::V| #[trigger] entries_view(entries@).contains_key(key) implies entries_view(entries@)[key]
                == union_tags(start, prefix.insert(k, other@[i as int].1@))[key] by {
                if key != k {
                    assert(tags_of(prefix.insert(k, other@[i as int].1@), key) == tags_of(prefix, key));
                }
            }
            assert(entries_view(entries@) =~= union_tags(start, prefix.insert(k, other@[i as int].1@)));
        }
        i = i + 1;
    }
    proof {
        assert(other@.take(n as int) =~= other@);
    }
}

impl<T: Element> Crdt for ORSet<T> {
    type Struct = ORSet<T>;

    /// Unites the additions and the removals of both sides.
    fn merge(&mut self, other: &Self::Struct)
        ensures
            final(self)@ == or_merge(old(self)@, other@),
    {
        proof {
            use_type_invariant(&*self);
            use_type_invariant(other);
        }
        let mut elements: Vec<(T, TagSet)> = Vec::new();
        std::mem::swap(&mut elements, &mut self.elements);
        union_into(&mut elements, &other.elements);
        let mut removed: Vec<(T, TagSet)> = Vec::new();
        std::mem::swap(&mut removed, &mut self.removed);
        union_into(&mut removed, &other.removed);
        self.elements = elements;
        self.removed = removed;
    }
}

} // verus!

verus! {

/// Every tag in `s` made by replica `uuid` has a count of at most `counter`.
pub open spec fn tags_below<V>(s: OrState<V>, uuid: Seq<char>, counter: u64) -> bool {
    forall|e: V, t: (Seq<char>, u64)|
        #![trigger tags_of(s.elements, e).contains(t)]
        #![trigger tags_of(s.removed, e).contains(t)]
        (tags_of(s.elements, e).contains(t) || tags_of(s.removed, e).contains(t)) && t.0 == uuid ==> t.1
            <= counter
}

/// A replica's handle on an observed-remove set: it tags its additions with its
/// identifier and a count of its additions.
#[derive(Debug)]
pub struct ORSetReplica<T: View> {
    pub id: String,
    pub counter: u64,
    pub crdt: ORSet<T>,
}

impl<T: View> ORSetReplica<T> {
    /// The replica's next tag is new to its set: no tag of this replica counts beyond its counter.
    pub open spec fn tags_fresh(&self) -> bool {
        tags_below(self.crdt@, self.id@, self.counter)
    }
}

impl<T: Element> ORSetReplica<T> {
    /// A replica with a fresh random identifier, a zero count and an empty set.
    pub fn new() -> (r: Self)
        ensures
            r.id@.len() == 36,
            r.counter == 0,
            r.crdt@.elements == Map::<T::V, Set<(Seq<char>, u64)>>::empty(),
            r.crdt@.removed == Map::<T::V, Set<(Seq<char>, u64)>>::empty(),
            r.tags_fresh(),
    {
        ORSetReplica { id: fresh_uuid(), counter: 0, crdt: ORSet::new() }
    }

    /// Adds `element` under the next tag of this replica. When the replica's tags are
    /// fresh, the element is a member afterwards, even if it was removed before.
    pub fn add(&mut self, element: T)
        requires
            old(self).counter < u64::MAX,
        ensures
            final(self).id == old(self).id,
            final(self).counter == old(self).counter + 1,
            final(self).crdt@ == or_add(old(self).crdt@, element@, (old(self).id@, (old(self).counter + 1) as u64)),
            old(self).tags_fresh() ==> final(self).tags_fresh() && or_member(final(self).crdt@, element@),
    {
        self.counter = self.counter + 1;
        let tag = Tag { uuid: self.id.clone(), counter: self.counter };
        let ghost ev = element@;
        self.crdt.add(element, tag);
        proof {
            let s0 = old(self).crdt@;
            let s1 = self.crdt@;
            let t = (self.id@, self.counter);
            if old(self).tags_fresh() {
                assert(s1.elements[ev].contains(t));
                assert(!tags_of(s1.removed, ev).contains(t)) by {
                    if tags_of(s0.removed, ev).contains(t) {
                        assert(t.1 <= old(self).counter);
                    }
                }
                assert(tags_below(s1, self.id@, self.counter)) by {
                    assert forall|e: T::V, u: (Seq<char>, u64)|
                        (tags_of(s1.elements, e).contains(u) || tags_of(s1.removed, e).contains(u)) && u.0
                            == self.id@ implies u.1 <= self.counter by {
                        if u != t {
                            if tags_of(s1.elements, e).contains(u) {
                                if e == ev {
                                    assert(tags_of(s0.elements, e).contains(u));
                                } else {
                                    assert(tags_of(s0.elements, e).contains(u));
                                }
                            }
                        }
                    }
                }
            }
        }
    }

    /// Removes `element`: the tags of its additions seen so far become removed.
    pub fn remove(&mut self, element: &T)
        ensures
            final(self).id == old(self).id,
            final(self).counter == old(self).counter,
            final(self).crdt@ == or_remove(old(self).crdt@, element@),
            old(self).tags_fresh() ==> final(self).tags_fresh(),
    {
        self.crdt.remove(element);
        proof {
            let s0 = old(self).crdt@;
            let s1 = self.crdt@;
            if old(self).tags_fresh() && s0.elements.contains_key(element@) {
                assert forall|e: T::V, u: (Seq<char>, u64)|
                    (tags_of(s1.elements, e).contains(u) || tags_of(s1.removed, e).contains(u)) && u.0
                        == self.id@ implies u.1 <= self.counter by {
                    if tags_of(s1.removed, e).contains(u) && e == element@ {
                        if !tags_of(s0.removed, e).contains(u) {
                            assert(tags_of(s0.elements, e).contains(u));
                        }
                    }
                }
            }
        }
    }

    /// The members of the set.
    pub fn members(&self) -> (r: ElementSet<T>)
        ensures
            r@ == or_members(self.crdt@),
    {
        self.crdt.members()
    }
}

impl<T: Element> Clone for ORSetReplica<T> {
    fn clone(&self) -> (r: Self)
        ensures
            r.id == self.id,
            r.counter == self.counter,
            r.crdt@ == self.crdt@,
    {
        ORSetReplica { id: self.id.clone(), counter: self.counter, crdt: self.crdt.clone() }
    }
}

impl<T: Element> Crdt for ORSetReplica<T> {
    type Struct = ORSet<T>;

    /// Unites the additions and removals of both sides. The replica's tags stay fresh
    /// when `other` holds no tag of this replica beyond its counter.
    fn merge(&mut self, other: &Self::Struct)
        ensures
            final(self).id == old(self).id,
            final(self).counter == old(self).counter,
            final(self).crdt@ == or_merge(old(self).crdt@, other@),
            old(self).tags_fresh() && tags_below(other@, old(self).id@, old(self).counter)
                ==> final(self).tags_fresh(),
    {
        self.crdt.merge(other);
        proof {
            let a = old(self).crdt@;
            let b = other@;
            let s1 = self.crdt@;
            if old(self).tags_fresh() && tags_below(b, self.id@, self.counter) {
                assert forall|e: T::V, u: (Seq<char>, u64)|
                    (tags_of(s1.elements, e).contains(u) || tags_of(s1.removed, e).contains(u)) && u.0
                        == self.id@ implies u.1 <= self.counter by {
                    if tags_of(s1.elements, e).contains(u) {
                        assert(tags_of(a.elements, e).contains(u) || tags_of(b.elements, e).contains(u));
                    }
                    if tags_of(s1.removed, e).contains(u) {
                        assert(tags_of(a.removed, e).contains(u) || tags_of(b.removed, e).contains(u));
                    }
                }
            }
        }
    }
}

} // verus!

verus! {

/// Uniting tag maps is commutative.
pub proof fn lemma_union_commutative<V>(a: Map<V, Set<(Seq<char>, u64)>>, b: Map<V, Set<(Seq<char>, u64)>>)
    ensures
        union_tags(a, b) == union_tags(b, a),
{
    assert forall|e: V| #[trigger] union_tags(a, b).contains_key(e) implies union_tags(a, b)[e] == union_tags(b, a)[e] by {
        assert(tags_of(a, e).union(tags_of(b, e)) =~= tags_of(b, e).union(tags_of(a, e)));
    }
    assert(union_tags(a, b) =~= union_tags(b, a));
}

/// Uniting tag maps is associative.
pub proof fn lemma_union_associative<V>(
    a: Map<V, Set<(Seq<char>, u64)>>,
    b: Map<V, Set<(Seq<char>, u64)>>,
    c: Map<V, Set<(Seq<char>, u64)>>,
)
    ensures
        union_tags(union_tags(a, b), c) == union_tags(a, union_tags(b, c)),
{
    let l = union_tags(union_tags(a, b), c);
    let r = union_tags(a, union_tags(b, c));
    assert forall|e: V| #[trigger] l.contains_key(e) implies l[e] == r[e] by {
        assert(tags_of(union_tags(a, b), e) =~= tags_of(a, e).union(tags_of(b, e)));
        assert(tags_of(union_tags(b, c), e) =~= tags_of(b, e).union(tags_of(c, e)));
        assert(l[e] =~= r[e]);
    }
    assert(l =~= r);
}

/// Uniting a tag map with itself changes nothing.
pub proof fn lemma_union_idempotent<V>(a: Map<V, Set<(Seq<char>, u64)>>)
    ensures
        union_tags(a, a) == a,
{
    assert forall|e: V| #[trigger] a.contains_key(e) implies union_tags(a, a)[e] == a[e] by {
        assert(a[e].union(a[e]) =~= a[e]);
    }
    assert(union_tags(a, a) =~= a);
}

/// Merging observed-remove sets is commutative.
pub proof fn lemma_merge_commutative<V>(a: OrState<V>, b: OrState<V>)
    ensures
        or_merge(a, b) == or_merge(b, a),
{
    lemma_union_commutative(a.elements, b.elements);
    lemma_union_commutative(a.removed, b.removed);
}

/// Merging observed-remove sets is associative.
pub proof fn lemma_merge_associative<V>(a: OrState<V>, b: OrState<V>, c: OrState<V>)
    ensures
        or_merge(or_merge(a, b), c) == or_merge(a, or_merge(b, c)),
{
    lemma_union_associative(a.elements, b.elements, c.elements);
    lemma_union_associative(a.removed, b.removed, c.removed);
}

/// Merging an observed-remove set with itself changes nothing.
pub proof fn lemma_merge_idempotent<V>(a: OrState<V>)
    ensures
        or_merge(a, a) == a,
{
    lemma_union_idempotent(a.elements);
    lemma_union_idempotent(a.removed);
}

/// Two replicas that exchange their states end in the same state.
pub proof fn lemma_exchange_converges<V>(a: OrState<V>, b: OrState<V>)
    ensures
        or_merge(b, or_merge(a, b)) == or_merge(a, b),
{
    lemma_merge_commutative(a, b);
    lemma_merge_associative(b, b, a);
    lemma_merge_idempotent(b);
}

/// `a` lies below `b` element by element: every element with tags in `a` has an entry
/// in `b` holding at least those tags.
pub open spec fn tags_le<V>(a: Map<V, Set<(Seq<char>, u64)>>, b: Map<V, Set<(Seq<char>, u64)>>) -> bool {
    forall|e: V| #[trigger] a.contains_key(e) ==> b.contains_key(e) && a[e].subset_of(b[e])
}

/// `a` lies below `b` in the lattice of observed-remove sets: in its additions and in
/// its removals.
pub open spec fn or_le<V>(a: OrState<V>, b: OrState<V>) -> bool {
    tags_le(a.elements, b.elements) && tags_le(a.removed, b.removed)
}

/// The merge is the join of the lattice of observed-remove sets: it lies above both
/// sides, and below every state that lies above both.
pub proof fn lemma_merge_is_join<V>(a: OrState<V>, b: OrState<V>, c: OrState<V>)
    ensures
        or_le(a, or_merge(a, b)),
        or_le(b, or_merge(a, b)),
        or_le(a, c) && or_le(b, c) ==> or_le(or_merge(a, b), c),
{
}

/// An addition under tag `t` joins `t` to the element's addition tags and keeps every
/// tag it had: no other element's tags and no removal change, and the old state lies
/// below the new one.
pub proof fn lemma_add_keeps_tags<V>(s: OrState<V>, e: V, t: (Seq<char>, u64))
    ensures
        tags_of(or_add(s, e, t).elements, e) == tags_of(s.elements, e).insert(t),
        forall|f: V| f != e ==> #[trigger] tags_of(or_add(s, e, t).elements, f) == tags_of(s.elements, f),
        or_add(s, e, t).removed == s.removed,
        or_le(s, or_add(s, e, t)),
{
}

/// A removal of `e` adds every addition tag of `e` seen so far to its removal tags and
/// keeps every tag there was: additions and other elements do not change, and the old
/// state lies below the new one.
pub proof fn lemma_remove_keeps_tags<V>(s: OrState<V>, e: V)
    ensures
        tags_of(or_remove(s, e).removed, e) == tags_of(s.removed, e).union(tags_of(s.elements, e)),
        forall|f: V| f != e ==> #[trigger] tags_of(or_remove(s, e).removed, f) == tags_of(s.removed, f),
        or_remove(s, e).elements == s.elements,
        or_le(s, or_remove(s, e)),
{
    if !s.elements.contains_key(e) {
        assert(tags_of(s.removed, e).union(tags_of(s.elements, e)) =~= tags_of(s.removed, e));
    }
}

/// After a removal the element is not a member.
pub proof fn lemma_remove_not_member<V>(s: OrState<V>, e: V)
    ensures
        !or_member(or_remove(s, e), e),
{
}

/// An addition under a tag that has not been removed makes the element a member.
pub proof fn lemma_add_member<V>(s: OrState<V>, e: V, t: (Seq<char>, u64))
    requires
        !tags_of(s.removed, e).contains(t),
    ensures
        or_member(or_add(s, e, t), e),
{
    assert(or_add(s, e, t).elements[e].contains(t));
}

/// An addition survives a merge with a replica whose removal did not observe it: if `b`
/// added `e` under a tag that neither side has removed, `e` is a member of the merge.
pub proof fn lemma_unobserved_add_survives<V>(a: OrState<V>, b: OrState<V>, e: V, t: (Seq<char>, u64))
    requires
        tags_of(b.elements, e).contains(t),
        !tags_of(a.removed, e).contains(t),
        !tags_of(b.removed, e).contains(t),
    ensures
        or_member(or_merge(a, b), e),
{
    let m = or_merge(a, b);
    assert(m.elements[e].contains(t));
    assert(!tags_of(m.removed, e).contains(t));
}

/// Membership is the same whichever replica merges the other.
pub proof fn lemma_members_symmetric<V>(a: OrState<V>, b: OrState<V>)
    ensures
        or_members(or_merge(a, b)) == or_members(or_merge(b, a)),
{
    lemma_merge_commutative(a, b);
}

} // verus!
