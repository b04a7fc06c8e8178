use vstd::prelude::*;
use vstd::string::StrSliceExecFns;

verus! {

/// Lexicographic order on identifiers, character by character by code point, a
/// proper prefix coming first: the order of `str`.
pub open spec fn id_lt(a: Seq<char>, b: Seq<char>) -> bool
    decreases a.len(),
{
    if b.len() == 0 {
        false
    } else if a.len() == 0 {
        true
    } else if a[0] == b[0] {
        id_lt(a.drop_first(), b.drop_first())
    } else {
        (a[0] as int) < (b[0] as int)
    }
}

/// No identifier comes before itself.
pub proof fn lemma_id_lt_irreflexive(a: Seq<char>)
    ensures
        !id_lt(a, a),
    decreases a.len(),
{
    if a.len() > 0 {
        lemma_id_lt_irreflexive(a.drop_first());
    }
}

/// Of two identifiers, at most one comes before the other.
pub proof fn lemma_id_lt_asymmetric(a: Seq<char>, b: Seq<char>)
    ensures
        !(id_lt(a, b) && id_lt(b, a)),
    decreases a.len(),
{
    if a.len() > 0 && b.len() > 0 && a[0] == b[0] {
        lemma_id_lt_asymmetric(a.drop_first(), b.drop_first());
    }
}

/// Of two distinct identifiers, one comes before the other.
pub proof fn lemma_id_lt_total(a: Seq<char>, b: Seq<char>)
    requires
        a != b,
    ensures
        id_lt(a, b) || id_lt(b, a),
    decreases a.len(),
{
    if a.len() == 0 {
        assert(b.len() != 0) by {
            if b.len() == 0 {
                assert(a =~= b);
            }
        }
    } else if b.len() == 0 {
    } else if a[0] == b[0] {
        assert(a.drop_first().len() == a.len() - 1);
        assert(b.drop_first().len() == b.len() - 1);
        if a.drop_first() =~= b.drop_first() {
            assert(a.len() == b.len());
            assert(a =~= b) by {
                assert forall|i: int| 0 <= i < a.len() implies a[i] == b[i] by {
                    if i > 0 {
                        assert(a[i] == a.drop_first()[i - 1]);
                        assert(b[i] == b.drop_first()[i - 1]);
                    }
                }
            }
        }
        lemma_id_lt_total(a.drop_first(), b.drop_first());
    } else {
        assert((a[0] as int) != (b[0] as int));
    }
}

/// The order is transitive.
pub proof fn lemma_id_lt_transitive(a: Seq<char>, b: Seq<char>, c: Seq<char>)
    requires
        id_lt(a, b),
        id_lt(b, c),
    ensures
        id_lt(a, c),
    decreases a.len(),
{
    if a.len() > 0 && b.len() > 0 && c.len() > 0 && a[0] == b[0] && b[0] == c[0] {
        lemma_id_lt_transitive(a.drop_first(), b.drop_first(), c.drop_first());
    }
}

/// The identifiers of `c` are in strictly descending order.
pub open spec fn is_descending(c: Seq<Seq<char>>) -> bool {
    forall|i: int, j: int| 0 <= i < j < c.len() ==> id_lt(#[trigger] c[j], #[trigger] c[i])
}

/// A strictly descending sequence holds no identifier twice.
pub proof fn lemma_descending_no_duplicates(c: Seq<Seq<char>>)
    requires
        is_descending(c),
    ensures
        c.no_duplicates(),
{
    assert forall|i: int, j: int| 0 <= i < c.len() && 0 <= j < c.len() && i != j implies c[i] != c[j] by {
        if i < j {
            lemma_id_lt_irreflexive(c[i]);
        } else {
            lemma_id_lt_irreflexive(c[j]);
        }
    }
}

/// Two strictly descending sequences with the same identifiers are equal.
pub proof fn lemma_descending_unique(c1: Seq<Seq<char>>, c2: Seq<Seq<char>>)
    requires
        is_descending(c1),
        is_descending(c2),
        c1.to_set() == c2.to_set(),
    ensures
        c1 == c2,
    decreases c1.len(),
{
    lemma_descending_no_duplicates(c1);
    lemma_descending_no_duplicates(c2);
    c1.unique_seq_to_set();
    c2.unique_seq_to_set();
    if c1.len() > 0 {
        let x = c1[0];
        let y = c2[0];
        assert(c1.to_set().contains(x));
        assert(c2.to_set().contains(y));
        if x != y {
            assert(c2.contains(x));
            let k = choose|k: int| 0 <= k < c2.len() && c2[k] == x;
            assert(c1.contains(y));
            let l = choose|l: int| 0 <= l < c1.len() && c1[l] == y;
            assert(k != 0 && l != 0);
            assert(id_lt(c2[k], c2[0]));
            assert(id_lt(c1[l], c1[0]));
            lemma_id_lt_asymmetric(x, y);
        }
        let t1 = c1.drop_first();
        let t2 = c2.drop_first();
        assert(is_descending(t1)) by {
            assert forall|i: int, j: int| 0 <= i < j < t1.len() implies id_lt(#[trigger] t1[j], #[trigger] t1[i]) by {
                assert(t1[i] == c1[i + 1] && t1[j] == c1[j + 1]);
            }
        }
        assert(is_descending(t2)) by {
            assert forall|i: int, j: int| 0 <= i < j < t2.len() implies id_lt(#[trigger] t2[j], #[trigger] t2[i]) by {
                assert(t2[i] == c2[i + 1] && t2[j] == c2[j + 1]);
            }
        }
        assert(t1.to_set() =~= c1.to_set().remove(x)) by {
            assert forall|z: Seq<char>| #[trigger] t1.to_set().contains(z) == c1.to_set().remove(x).contains(z) by {
                if t1.contains(z) {
                    let i = choose|i: int| 0 <= i < t1.len() && t1[i] == z;
                    assert(c1[i + 1] == z);
                }
                if c1.to_set().remove(x).contains(z) {
                    let i = choose|i: int| 0 <= i < c1.len() && c1[i] == z;
                    assert(i != 0);
                    assert(t1[i - 1] == z);
                }
            }
        }
        assert(t2.to_set() =~= c2.to_set().remove(y)) by {
            assert forall|z: Seq<char>| #[trigger] t2.to_set().contains(z) == c2.to_set().remove(y).contains(z) by {
                if t2.contains(z) {
                    let i = choose|i: int| 0 <= i < t2.len() && t2[i] == z;
                    assert(c2[i + 1] == z);
                }
                if c2.to_set().remove(y).contains(z) {
                    let i = choose|i: int| 0 <= i < c2.len() && c2[i] == z;
                    assert(i != 0);
                    assert(t2[i - 1] == z);
                }
            }
        }
        lemma_descending_unique(t1, t2);
        assert(c1 =~= c2) by {
            assert forall|i: int| 0 <= i < c1.len() implies c1[i] == c2[i] by {
                if i > 0 {
                    assert(c1[i] == t1[i - 1] && c2[i] == t2[i - 1]);
                }
            }
        }
    } else {
        assert(c2.len() == 0);
    }
}

/// Whether `a` comes before `b` in the order of identifiers.
pub fn id_less(a: &String, b: &String) -> (r: bool)
    ensures
        r == id_lt(a@, b@),
{
    let sa = a.as_str();
    let sb = b.as_str();
    let n = sa.unicode_len();
    let m = sb.unicode_len();
    let mut i: usize = 0;
    proof {
        assert(a@.skip(0) =~= a@);
        assert(b@.skip(0) =~= b@);
    }
    while i < n && i < m
        invariant
            n == a@.len(),
            m == b@.len(),
            sa@ == a@,
            sb@ == b@,
            i <= n,
            i <= m,
            id_lt(a@, b@) == id_lt(a@.skip(i as int), b@.skip(i as int)),
        decreases n - i,
    {
        let ca = sa.get_char(i);
        let cb = sb.get_char(i);
        proof {
            assert(a@.skip(i as int)[0] == ca);
            assert(b@.skip(i as int)[0] == cb);
        }
        if ca != cb {
            return (ca as u32) < (cb as u32);
        }
        proof {
            assert(a@.skip(i as int).drop_first() =~= a@.skip(i + 1));
            assert(b@.skip(i as int).drop_first() =~= b@.skip(i + 1));
        }
        i = i + 1;
    }
    i < m
}

} // verus!
