use vstd::prelude::*;

verus! {

/// `lt` is a strict total order: irreflexive, transitive, and relating
/// every two distinct values one way or the other.
pub open spec fn strict_total_order<A>(lt: spec_fn(A, A) -> bool) -> bool {
    &&& forall|a: A| !(#[trigger] lt(a, a))
    &&& forall|a: A, b: A, c: A| #[trigger] lt(a, b) && #[trigger] lt(b, c) ==> lt(a, c)
    &&& forall|a: A, b: A| a != b ==> #[trigger] lt(a, b) || lt(b, a)
}

/// No element of `s` comes after an element that `lt` puts before it.
pub open spec fn sorted_by<A>(s: Seq<A>, lt: spec_fn(A, A) -> bool) -> bool {
    forall|i: int, j: int| 0 <= i < j < s.len() ==> !lt(#[trigger] s[j], #[trigger] s[i])
}

/// Every element of `s` comes strictly before each later one.
pub open spec fn strictly_sorted_by<A>(s: Seq<A>, lt: spec_fn(A, A) -> bool) -> bool {
    forall|i: int, j: int| 0 <= i < j < s.len() ==> lt(#[trigger] s[i], #[trigger] s[j])
}

/// Under a strict total order, "not before" is transitive.
pub proof fn lemma_not_lt_transitive<A>(lt: spec_fn(A, A) -> bool, x: A, y: A, z: A)
    requires
        strict_total_order(lt),
        !lt(x, y),
        !lt(y, z),
    ensures
        !lt(x, z),
{
    if lt(x, z) {
        if x != y {
            assert(lt(y, x));
            assert(lt(y, z));
        }
    }
}

proof fn lemma_drop_first_multiset<A>(s: Seq<A>)
    requires
        s.len() > 0,
    ensures
        s.drop_first().to_multiset() == s.to_multiset().remove(s[0]),
        s.to_multiset().count(s[0]) > 0,
{
    s.to_multiset_ensures();
    assert(s.remove(0) =~= s.drop_first());
}

/// Under a strict total order, two sorted arrangements of the same
/// elements are the same sequence.
pub proof fn lemma_sorted_unique<A>(s1: Seq<A>, s2: Seq<A>, lt: spec_fn(A, A) -> bool)
    requires
        strict_total_order(lt),
        sorted_by(s1, lt),
        sorted_by(s2, lt),
        s1.to_multiset() == s2.to_multiset(),
    ensures
        s1 == s2,
    decreases s1.len(),
{
    s1.to_multiset_ensures();
    s2.to_multiset_ensures();
    if s1.len() == 0 {
        assert(s2.len() == 0);
        assert(s1 =~= s2);
    } else {
        assert(s2.len() > 0);
        lemma_drop_first_multiset(s1);
        lemma_drop_first_multiset(s2);
        assert(s2.contains(s1[0]));
        assert(s1.contains(s2[0]));
        let k = choose|k: int| 0 <= k < s2.len() && s2[k] == s1[0];
        let m = choose|m: int| 0 <= m < s1.len() && s1[m] == s2[0];
        if s1[0] != s2[0] {
            if lt(s1[0], s2[0]) {
                assert(m > 0);
                assert(!lt(s1[m], s1[0]));
            } else {
                assert(lt(s2[0], s1[0]));
                assert(k > 0);
                assert(!lt(s2[k], s2[0]));
            }
        }
        assert(s1.drop_first().to_multiset() == s2.drop_first().to_multiset());
        assert(sorted_by(s1.drop_first(), lt)) by {
            assert forall|i: int, j: int| 0 <= i < j < s1.drop_first().len() implies !lt(
                #[trigger] s1.drop_first()[j],
                #[trigger] s1.drop_first()[i],
            ) by {
                assert(s1.drop_first()[j] == s1[j + 1]);
                assert(s1.drop_first()[i] == s1[i + 1]);
            }
        }
        assert(sorted_by(s2.drop_first(), lt)) by {
            assert forall|i: int, j: int| 0 <= i < j < s2.drop_first().len() implies !lt(
                #[trigger] s2.drop_first()[j],
                #[trigger] s2.drop_first()[i],
            ) by {
                assert(s2.drop_first()[j] == s2[j + 1]);
                assert(s2.drop_first()[i] == s2[i + 1]);
            }
        }
        lemma_sorted_unique(s1.drop_first(), s2.drop_first(), lt);
        assert forall|i: int| 0 <= i < s1.len() implies s1[i] == s2[i] by {
            if i > 0 {
                assert(s1[i] == s1.drop_first()[i - 1]);
                assert(s2[i] == s2.drop_first()[i - 1]);
            }
        }
        assert(s1 =~= s2);
    }
}

/// Under a strict total order, two strictly sorted sequences that hold the
/// same set of elements are the same sequence.
pub proof fn lemma_strictly_sorted_unique<A>(s1: Seq<A>, s2: Seq<A>, lt: spec_fn(A, A) -> bool)
    requires
        strict_total_order(lt),
        strictly_sorted_by(s1, lt),
        strictly_sorted_by(s2, lt),
        s1.to_set() == s2.to_set(),
    ensures
        s1 == s2,
    decreases s1.len(),
{
    if s1.len() == 0 {
        if s2.len() > 0 {
            assert(s2.to_set().contains(s2[0]));
        }
        assert(s1 =~= s2);
    } else {
        assert(s1.to_set().contains(s1[0]));
        assert(s2.len() > 0);
        assert(s2.to_set().contains(s2[0]));
        assert(s2.contains(s1[0]));
        assert(s1.contains(s2[0]));
        let k = choose|k: int| 0 <= k < s2.len() && s2[k] == s1[0];
        let m = choose|m: int| 0 <= m < s1.len() && s1[m] == s2[0];
        if k > 0 {
            assert(lt(s2[0], s2[k]));
            if m > 0 {
                assert(lt(s1[0], s1[m]));
                assert(lt(s1[0], s1[0]));
            }
        }
        assert(s1[0] == s2[0]);
        let t1 = s1.drop_first();
        let t2 = s2.drop_first();
        assert(strictly_sorted_by(t1, lt)) by {
            assert forall|i: int, j: int| 0 <= i < j < t1.len() implies lt(
                #[trigger] t1[i],
                #[trigger] t1[j],
            ) by {
                assert(t1[j] == s1[j + 1]);
                assert(t1[i] == s1[i + 1]);
            }
        }
        assert(strictly_sorted_by(t2, lt)) by {
            assert forall|i: int, j: int| 0 <= i < j < t2.len() implies lt(
                #[trigger] t2[i],
                #[trigger] t2[j],
            ) by {
                assert(t2[j] == s2[j + 1]);
                assert(t2[i] == s2[i + 1]);
            }
        }
        assert(t1.to_set() =~= t2.to_set()) by {
            assert forall|x: A| t1.to_set().contains(x) implies t2.to_set().contains(x) by {
                let i = choose|i: int| 0 <= i < t1.len() && t1[i] == x;
                assert(s1[i + 1] == x);
                assert(s1.to_set().contains(x));
                assert(s2.contains(x));
                let j = choose|j: int| 0 <= j < s2.len() && s2[j] == x;
                if j == 0 {
                    assert(lt(s1[0], s1[i + 1]));
                }
                assert(t2[j - 1] == x);
            }
            assert forall|x: A| t2.to_set().contains(x) implies t1.to_set().contains(x) by {
                let i = choose|i: int| 0 <= i < t2.len() && t2[i] == x;
                assert(s2[i + 1] == x);
                assert(s2.to_set().contains(x));
                assert(s1.contains(x));
                let j = choose|j: int| 0 <= j < s1.len() && s1[j] == x;
                if j == 0 {
                    assert(lt(s2[0], s2[i + 1]));
                }
                assert(t1[j - 1] == x);
            }
        }
        lemma_strictly_sorted_unique(t1, t2, lt);
        assert forall|i: int| 0 <= i < s1.len() implies s1[i] == s2[i] by {
            if i > 0 {
                assert(s1[i] == t1[i - 1]);
                assert(s2[i] == t2[i - 1]);
            }
        }
        assert(s1 =~= s2);
    }
}

/// `x` inserted into `s` before the first element that `x` does not come after.
pub open spec fn insert_sorted<A>(s: Seq<A>, x: A, lt: spec_fn(A, A) -> bool) -> Seq<A>
    decreases s.len(),
{
    if s.len() == 0 {
        seq![x]
    } else if !lt(s[0], x) {
        seq![x] + s
    } else {
        seq![s[0]] + insert_sorted(s.drop_first(), x, lt)
    }
}

/// The elements of `s` sorted by insertion.
pub open spec fn insertion_sorted<A>(s: Seq<A>, lt: spec_fn(A, A) -> bool) -> Seq<A>
    decreases s.len(),
{
    if s.len() == 0 {
        s
    } else {
        insert_sorted(insertion_sorted(s.drop_last(), lt), s.last(), lt)
    }
}

proof fn lemma_insert_sorted<A>(s: Seq<A>, x: A, lt: spec_fn(A, A) -> bool)
    requires
        strict_total_order(lt),
        sorted_by(s, lt),
    ensures
        sorted_by(insert_sorted(s, x, lt), lt),
        insert_sorted(s, x, lt).to_multiset() == s.to_multiset().insert(x),
        insert_sorted(s, x, lt).len() == s.len() + 1,
        forall|k: int|
            0 <= k < insert_sorted(s, x, lt).len() ==> #[trigger] insert_sorted(s, x, lt)[k] == x
                || s.contains(insert_sorted(s, x, lt)[k]),
    decreases s.len(),
{
    broadcast use vstd::seq_lib::lemma_multiset_commutative;
    broadcast use vstd::multiset::group_multiset_axioms;

    let r = insert_sorted(s, x, lt);
    s.to_multiset_ensures();
    if s.len() == 0 {
        assert(r =~= seq![x]);
        assert(seq![x] =~= Seq::<A>::empty().push(x));
        Seq::<A>::empty().to_multiset_ensures();
        assert(s =~= Seq::<A>::empty());
    } else if !lt(s[0], x) {
        assert(r =~= seq![x] + s);
        assert(seq![x] =~= Seq::<A>::empty().push(x));
        Seq::<A>::empty().to_multiset_ensures();
        assert(r.to_multiset() =~= s.to_multiset().insert(x));
        assert forall|i: int, j: int| 0 <= i < j < r.len() implies !lt(#[trigger] r[j], #[trigger] r[i]) by {
            if i == 0 {
                assert(r[j] == s[j - 1]);
                if j - 1 > 0 {
                    assert(!lt(s[j - 1], s[0]));
                    lemma_not_lt_transitive(lt, s[j - 1], s[0], x);
                }
            } else {
                assert(r[i] == s[i - 1] && r[j] == s[j - 1]);
            }
        }
        assert forall|k: int| 0 <= k < r.len() implies #[trigger] r[k] == x || s.contains(r[k]) by {
            if k > 0 {
                assert(r[k] == s[k - 1]);
            }
        }
    } else {
        let t = s.drop_first();
        assert(sorted_by(t, lt)) by {
            assert forall|i: int, j: int| 0 <= i < j < t.len() implies !lt(#[trigger] t[j], #[trigger] t[i]) by {
                assert(t[j] == s[j + 1] && t[i] == s[i + 1]);
            }
        }
        lemma_insert_sorted(t, x, lt);
        let u = insert_sorted(t, x, lt);
        assert(r =~= seq![s[0]] + u);
        assert(seq![s[0]] =~= Seq::<A>::empty().push(s[0]));
        Seq::<A>::empty().to_multiset_ensures();
        assert(s =~= seq![s[0]] + t);
        assert(r.to_multiset() =~= s.to_multiset().insert(x));
        assert forall|i: int, j: int| 0 <= i < j < r.len() implies !lt(#[trigger] r[j], #[trigger] r[i]) by {
            if i == 0 {
                assert(r[j] == u[j - 1]);
                if u[j - 1] == x {
                    // s[0] comes before x
                    if lt(x, s[0]) {
                        assert(lt(x, x));
                    }
                } else {
                    assert(t.contains(u[j - 1]));
                    let m = choose|m: int| 0 <= m < t.len() && t[m] == u[j - 1];
                    assert(s[m + 1] == u[j - 1]);
                }
            } else {
                assert(r[i] == u[i - 1] && r[j] == u[j - 1]);
            }
        }
        assert forall|k: int| 0 <= k < r.len() implies #[trigger] r[k] == x || s.contains(r[k]) by {
            if k == 0 {
                assert(s[0] == r[0]);
            } else {
                assert(r[k] == u[k - 1]);
                if u[k - 1] != x {
                    assert(t.contains(u[k - 1]));
                    let m = choose|m: int| 0 <= m < t.len() && t[m] == u[k - 1];
                    assert(s[m + 1] == r[k]);
                }
            }
        }
    }
}

/// Sorting by insertion gives a sorted arrangement of the same elements.
pub proof fn lemma_insertion_sorted<A>(s: Seq<A>, lt: spec_fn(A, A) -> bool)
    requires
        strict_total_order(lt),
    ensures
        sorted_by(insertion_sorted(s, lt), lt),
        insertion_sorted(s, lt).to_multiset() == s.to_multiset(),
    decreases s.len(),
{
    if s.len() > 0 {
        lemma_insertion_sorted(s.drop_last(), lt);
        lemma_insert_sorted(insertion_sorted(s.drop_last(), lt), s.last(), lt);
        s.drop_last().to_multiset_ensures();
        assert(s =~= s.drop_last().push(s.last()));
    }
}

} // verus!
