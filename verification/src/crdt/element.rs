use vstd::prelude::*;
use vstd::string::*;

verus! {

/// A value that can be copied, the copy having the same view.
pub trait Duplicate: View + Sized {
    /// A copy of this value.
    fn duplicate(&self) -> (r: Self)
        ensures
            r@ == self@,
    ;
}

/// A value that a replicated data type can hold: it is compared and copied by its
/// view, so that two replicas agree on an element exactly when its views agree.
pub trait Element: Duplicate {
    /// Whether the two values are the same element.
    fn same(&self, other: &Self) -> (r: bool)
        ensures
            r == (self@ == other@),
    ;
}

impl Duplicate for String {
    fn duplicate(&self) -> (r: Self) {
        self.clone()
    }
}

impl Element for String {
    fn same(&self, other: &Self) -> (r: bool) {
        <String as PartialEq>::eq(self, other)
    }
}

/// Character-by-character comparison of two string slices.
pub fn str_equal(a: &str, b: &str) -> (r: bool)
    ensures
        r == (a@ == b@),
{
    let n = a.unicode_len();
    if n != b.unicode_len() {
        return false;
    }
    let mut i: usize = 0;
    while i < n
        invariant
            n == a@.len(),
            n == b@.len(),
            i <= n,
            forall|j: int| 0 <= j < i ==> a@[j] == b@[j],
        decreases n - i,
    {
        if a.get_char(i) != b.get_char(i) {
            return false;
        }
        i = i + 1;
    }
    assert(a@ =~= b@);
    true
}

impl<'a> Duplicate for &'a str {
    fn duplicate(&self) -> (r: Self) {
        *self
    }
}

impl<'a> Element for &'a str {
    fn same(&self, other: &Self) -> (r: bool) {
        str_equal(*self, *other)
    }
}

impl Duplicate for u64 {
    fn duplicate(&self) -> (r: Self) {
        *self
    }
}

impl Element for u64 {
    fn same(&self, other: &Self) -> (r: bool) {
        *self == *other
    }
}

impl Duplicate for u32 {
    fn duplicate(&self) -> (r: Self) {
        *self
    }
}

impl Element for u32 {
    fn same(&self, other: &Self) -> (r: bool) {
        *self == *other
    }
}

impl Duplicate for i32 {
    fn duplicate(&self) -> (r: Self) {
        *self
    }
}

impl Element for i32 {
    fn same(&self, other: &Self) -> (r: bool) {
        *self == *other
    }
}

impl Duplicate for i64 {
    fn duplicate(&self) -> (r: Self) {
        *self
    }
}

impl Element for i64 {
    fn same(&self, other: &Self) -> (r: bool) {
        *self == *other
    }
}

impl Duplicate for usize {
    fn duplicate(&self) -> (r: Self) {
        *self
    }
}

impl Element for usize {
    fn same(&self, other: &Self) -> (r: bool) {
        *self == *other
    }
}

} // verus!

verus! {

/// The views of a sequence of values.
pub open spec fn seq_views<T: View>(s: Seq<T>) -> Seq<T::V> {
    s.map_values(|x: T| x@)
}

/// A finite set of elements, none of them twice, as the members of a set type are given
/// out. Two such sets are equal when they hold the same elements, whatever the order.
#[derive(Debug)]
pub struct ElementSet<T: View> {
    items: Vec<T>,
}

impl<T: View> View for ElementSet<T> {
    type V = Set<T::V>;

    closed spec fn view(&self) -> Set<T::V> {
        seq_views(self.items@).to_set()
    }
}

impl<T: View> ElementSet<T> {
    #[verifier::type_invariant]
    spec fn wf(self) -> bool {
        seq_views(self.items@).no_duplicates()
    }

    /// The number of elements is the number of items kept.
    proof fn lemma_len(self)
        requires
            self.wf(),
        ensures
            self@.len() == self.items@.len(),
            self@.finite(),
    {
        seq_views(self.items@).unique_seq_to_set();
    }
}

impl<T: Element> ElementSet<T> {
    /// An empty set.
    pub fn new() -> (r: Self)
        ensures
            r@ == Set::<T::V>::empty(),
    {
        let r = ElementSet { items: Vec::new() };
        proof {
            assert(seq_views(r.items@).to_set() =~= Set::<T::V>::empty());
        }
        r
    }

    /// The number of elements.
    pub fn len(&self) -> (r: usize)
        ensures
            r == self@.len(),
            self@.finite(),
    {
        proof {
            use_type_invariant(self);
            self.lemma_len();
        }
        self.items.len()
    }

    /// Whether the set holds no element.
    pub fn is_empty(&self) -> (r: bool)
        ensures
            r == (self@ == Set::<T::V>::empty()),
    {
        proof {
            use_type_invariant(self);
            self.lemma_len();
            if self.items@.len() > 0 {
                assert(self@.contains(self.items@[0]@)) by {
                    assert(seq_views(self.items@)[0] == self.items@[0]@);
                }
            } else {
                assert(self@ =~= Set::<T::V>::empty());
            }
        }
        self.items.len() == 0
    }

    /// Whether `x` is an element.
    pub fn contains(&self, x: &T) -> (r: bool)
        ensures
            r == self@.contains(x@),
    {
        let n = self.items.len();
        let mut i: usize = 0;
        while i < n
            invariant
                n == self.items@.len(),
                i <= n,
                forall|j: int| 0 <= j < i ==> #[trigger] self.items@[j]@ != x@,
            decreases n - i,
        {
            if self.items[i].same(x) {
                proof {
                    assert(seq_views(self.items@)[i as int] == x@);
                }
                return true;
            }
            i = i + 1;
        }
        proof {
            if self@.contains(x@) {
                let j = choose|j: int| 0 <= j < n && seq_views(self.items@)[j] == x@;
                assert(self.items@[j]@ == x@);
            }
        }
        false
    }

    /// Adds `x`, unless it is an element already.
    pub fn insert(&mut self, x: T)
        ensures
            final(self)@ == old(self)@.insert(x@),
    {
        proof {
            use_type_invariant(&*self);
        }
        if !self.contains(&x) {
            let mut items: Vec<T> = Vec::new();
            std::mem::swap(&mut items, &mut self.items);
            let ghost before = items@;
            let ghost xv = x@;
            items.push(x);
            proof {
                let sb = seq_views(before);
                let sa = seq_views(items@);
                assert(sa =~= sb.push(xv));
                assert forall|v: T::V| #[trigger] sa.contains(v) == sb.to_set().insert(xv).contains(v) by {
                    if sa.contains(v) {
                        let j = choose|j: int| 0 <= j < sa.len() && sa[j] == v;
                        if j < sb.len() {
                            assert(sb[j] == v);
                        }
                    }
                    if sb.contains(v) {
                        let j = choose|j: int| 0 <= j < sb.len() && sb[j] == v;
                        assert(sa[j] == v);
                    }
                    if v == xv {
                        assert(sa[sb.len() as int] == v);
                    }
                }
                assert(sb.to_set().insert(xv) =~= sa.to_set());
                assert(sa.no_duplicates()) by {
                    assert(!sb.contains(xv));
                    assert forall|a: int, b: int| 0 <= a < sa.len() && 0 <= b < sa.len() && a != b implies sa[a] != sa[b] by {
                        if a < sb.len() && b < sb.len() {
                            assert(sa[a] == sb[a] && sa[b] == sb[b]);
                        } else if a < sb.len() {
                            assert(sa[a] == sb[a]);
                        } else {
                            assert(sa[b] == sb[b]);
                        }
                    }
                }
            }
            self.items = items;
        }
        proof {
            assert(old(self)@.insert(x@) =~= final(self)@);
        }
    }

    /// The elements as a vector, each once, in no particular order.
    pub fn into_vec(self) -> (r: Vec<T>)
        ensures
            seq_views(r@).to_set() == self@,
            seq_views(r@).no_duplicates(),
    {
        proof {
            use_type_invariant(&self);
        }
        self.items
    }
}

impl<T: Element> PartialEq for ElementSet<T> {
    fn eq(&self, other: &Self) -> (r: bool) {
        proof {
            use_type_invariant(self);
            use_type_invariant(other);
            self.lemma_len();
            other.lemma_len();
        }
        let n = self.items.len();
        if n != other.items.len() {
            return false;
        }
        let mut i: usize = 0;
        while i < n
            invariant
                n == self.items@.len(),
                i <= n,
                forall|j: int| 0 <= j < i ==> #[trigger] other@.contains(self.items@[j]@),
            decreases n - i,
        {
            if !other.contains(&self.items[i]) {
                proof {
                    assert(self@.contains(self.items@[i as int]@)) by {
                        assert(seq_views(self.items@)[i as int] == self.items@[i as int]@);
                    }
                }
                return false;
            }
            i = i + 1;
        }
        proof {
            assert forall|v: T::V| #[trigger] self@.contains(v) implies other@.contains(v) by {
                let j = choose|j: int| 0 <= j < n && seq_views(self.items@)[j] == v;
                assert(self.items@[j]@ == v);
            }
            vstd::set_lib::lemma_subset_equality(self@, other@);
        }
        true
    }
}

impl<T: Element> vstd::std_specs::cmp::PartialEqSpecImpl for ElementSet<T> {
    open spec fn obeys_eq_spec() -> bool {
        true
    }

    open spec fn eq_spec(&self, other: &Self) -> bool {
        self@ == other@
    }
}

} // verus!
