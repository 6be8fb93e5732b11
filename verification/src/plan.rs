//! The placement that shard_tests computes, stated over mathematical values.
use vstd::multiset::Multiset;
use vstd::prelude::*;

use crate::order::{lemma_strictly_sorted_unique, sorted_by, strict_total_order, strictly_sorted_by};
use crate::test_case::{placed_before, TestView};

verus! {

/// Shards being filled: what each holds and how much time it has left.
pub struct Packing {
    pub shards: Seq<Seq<TestView>>,
    pub remaining: Seq<int>,
}

/// The total run time of a sequence of tests.
pub open spec fn total_ms(s: Seq<TestView>) -> int
    decreases s.len(),
{
    if s.len() == 0 {
        0
    } else {
        total_ms(s.drop_last()) + s.last().duration_ms
    }
}

/// The run time of the longest test, or 0 when there is none.
pub open spec fn longest_ms(s: Seq<TestView>) -> int
    decreases s.len(),
{
    if s.len() == 0 {
        0
    } else if longest_ms(s.drop_last()) < s.last().duration_ms {
        s.last().duration_ms as int
    } else {
        longest_ms(s.drop_last())
    }
}

/// The time a shard may hold: the target, or the longest test if that is longer.
pub open spec fn capacity_ms(tests: Seq<TestView>, target_ms: u32) -> int {
    if longest_ms(tests) < target_ms {
        target_ms as int
    } else {
        longest_ms(tests)
    }
}

/// The number of shards to begin with: the total time divided by the
/// capacity, rounded up.
pub open spec fn initial_shard_count(tests: Seq<TestView>, target_ms: u32) -> int {
    let capacity = capacity_ms(tests, target_ms);
    if capacity <= 0 {
        0
    } else {
        total_ms(tests) / capacity + if total_ms(tests) % capacity == 0 {
            0int
        } else {
            1int
        }
    }
}

/// The tests in the order they are placed: longest first, and equally long
/// tests by identifier, last first. Such an arrangement exists
/// (`laws::lemma_placement_order_sorted`) and is unique
/// (`order::lemma_sorted_unique`).
pub open spec fn placement_order(tests: Seq<TestView>) -> Seq<TestView> {
    choose|s: Seq<TestView>|
        sorted_by(s, placed_before()) && s.to_multiset() == tests.to_multiset()
}

/// `count` empty shards, each with the whole capacity left.
pub open spec fn empty_shards(count: nat, capacity: int) -> Packing {
    Packing {
        shards: Seq::new(count, |i: int| Seq::<TestView>::empty()),
        remaining: Seq::new(count, |i: int| capacity),
    }
}

/// Shard `i` comes before shard `j` when it has less time left, or as much
/// time left and a smaller index.
pub open spec fn key_before(p: Packing, i: int, j: int) -> bool {
    ||| p.remaining[i] < p.remaining[j]
    ||| p.remaining[i] == p.remaining[j] && i < j
}

pub open spec fn shard_key_order(p: Packing) -> spec_fn(int, int) -> bool {
    |i: int, j: int| key_before(p, i, j)
}

/// Shard `i` has room for a test that runs `duration_ms`.
pub open spec fn fits(p: Packing, duration_ms: int, i: int) -> bool {
    0 <= i < p.remaining.len() && duration_ms <= p.remaining[i]
}

/// Shard `i` has room, and no other shard with room comes before it.
pub open spec fn best_fit(p: Packing, duration_ms: int, i: int) -> bool {
    &&& fits(p, duration_ms, i)
    &&& forall|j: int| #[trigger] fits(p, duration_ms, j) ==> !key_before(p, j, i)
}

/// The shard a test goes to: the best fit, or a new shard (the next index)
/// when none has room. There is a best fit whenever some shard has room
/// (`lemma_chosen_fits`), and only one (`lemma_best_fit_unique`).
pub open spec fn chosen_shard(p: Packing, duration_ms: int) -> int {
    if exists|i: int| best_fit(p, duration_ms, i) {
        choose|i: int| best_fit(p, duration_ms, i)
    } else {
        p.remaining.len() as int
    }
}

/// Places one test.
pub open spec fn place(p: Packing, t: TestView, capacity: int) -> Packing {
    let i = chosen_shard(p, t.duration_ms as int);
    if i < p.remaining.len() {
        Packing {
            shards: p.shards.update(i, p.shards[i].push(t)),
            remaining: p.remaining.update(i, p.remaining[i] - t.duration_ms),
        }
    } else {
        Packing {
            shards: p.shards.push(seq![t]),
            remaining: p.remaining.push(capacity - t.duration_ms),
        }
    }
}

/// Places the tests one after another, in the order given.
pub open spec fn place_all(order: Seq<TestView>, start: Packing, capacity: int) -> Packing
    decreases order.len(),
{
    if order.len() == 0 {
        start
    } else {
        place(place_all(order.drop_last(), start, capacity), order.last(), capacity)
    }
}

/// The shard indices in output order: by time left, then by index. Such a
/// listing exists (`laws::lemma_output_order_sorted`) and is unique
/// (`order::lemma_strictly_sorted_unique`).
pub open spec fn output_order(p: Packing) -> Seq<int> {
    choose|ids: Seq<int>|
        strictly_sorted_by(ids, shard_key_order(p)) && ids.to_set() == Set::new(
            |i: int| 0 <= i < p.shards.len(),
        )
}

/// The shards in output order.
pub open spec fn arranged(p: Packing) -> Seq<Seq<TestView>> {
    output_order(p).map_values(|i: int| p.shards[i])
}

/// The packing that results from placing the tests.
pub open spec fn final_packing(tests: Seq<TestView>, target_ms: u32) -> Packing {
    let capacity = capacity_ms(tests, target_ms);
    place_all(
        placement_order(tests),
        empty_shards(initial_shard_count(tests, target_ms) as nat, capacity),
        capacity,
    )
}

/// The shards that shard_tests returns, as views: start from as many empty
/// shards as the total time needs, place the tests longest first, each
/// into the shard with the least time left that still has room for it
/// (the lowest index among equals), opening a new shard when none has room;
/// then list the shards by time left, lowest index first among equals.
pub open spec fn planned_shards(tests: Seq<TestView>, target_ms: u32) -> Seq<Seq<TestView>> {
    arranged(final_packing(tests, target_ms))
}

/// Every shard's time left is what the capacity leaves after its tests.
pub open spec fn well_formed(p: Packing, capacity: int) -> bool {
    &&& p.shards.len() == p.remaining.len()
    &&& forall|k: int|
        0 <= k < p.remaining.len() ==> 0 <= #[trigger] p.remaining[k] <= capacity
            && p.remaining[k] == capacity - total_ms(p.shards[k])
}

/// The number of tests in all shards together.
pub open spec fn test_count(shards: Seq<Seq<TestView>>) -> int
    decreases shards.len(),
{
    if shards.len() == 0 {
        0
    } else {
        test_count(shards.drop_last()) + shards.last().len()
    }
}

/// All elements of all sequences, counted with multiplicity.
pub open spec fn bag<A>(s: Seq<Seq<A>>) -> Multiset<A>
    decreases s.len(),
{
    if s.len() == 0 {
        Multiset::empty()
    } else {
        bag(s.drop_last()).add(s.last().to_multiset())
    }
}

pub proof fn lemma_key_order(p: Packing)
    ensures
        strict_total_order(shard_key_order(p)),
{
}

pub proof fn lemma_best_fit_unique(p: Packing, d: int, i: int, j: int)
    requires
        best_fit(p, d, i),
        best_fit(p, d, j),
    ensures
        i == j,
{
    assert(fits(p, d, i) && fits(p, d, j));
}

pub proof fn lemma_chosen_best_fit(p: Packing, d: int, i: int)
    requires
        best_fit(p, d, i),
    ensures
        chosen_shard(p, d) == i,
{
    let c = chosen_shard(p, d);
    assert(best_fit(p, d, c));
    lemma_best_fit_unique(p, d, i, c);
}

pub proof fn lemma_chosen_none(p: Packing, d: int)
    requires
        forall|j: int| !fits(p, d, j),
    ensures
        chosen_shard(p, d) == p.remaining.len(),
{
    if exists|i: int| best_fit(p, d, i) {
        let i = choose|i: int| best_fit(p, d, i);
        assert(fits(p, d, i));
    }
}

/// Some shard has room whenever the chosen shard is an existing one, and
/// the chosen shard then has room.
pub proof fn lemma_chosen_fits(p: Packing, d: int)
    ensures
        chosen_shard(p, d) <= p.remaining.len(),
        chosen_shard(p, d) < p.remaining.len() ==> best_fit(p, d, chosen_shard(p, d)),
        chosen_shard(p, d) == p.remaining.len() ==> forall|j: int| !fits(p, d, j),
        chosen_shard(p, d) >= 0,
{
    if exists|i: int| best_fit(p, d, i) {
        let i = choose|i: int| best_fit(p, d, i);
        assert(fits(p, d, i));
    } else if exists|j: int| fits(p, d, j) {
        // A shard with room that comes first in key order is a best fit.
        let j0 = choose|j: int| fits(p, d, j);
        lemma_least_fitting(p, d, j0);
    }
}

/// A test goes into the shard that has room for it and the least time
/// left, the lowest index among equals, which then has that much less time
/// left; when no shard has room, it opens a new shard of its own.
pub proof fn lemma_place_tightest(p: Packing, t: TestView, capacity: int)
    ensures
        (exists|j: int| 0 <= j < p.remaining.len() && t.duration_ms <= #[trigger] p.remaining[j])
            ==> exists|i: int|
            {
                &&& 0 <= i < p.remaining.len()
                &&& t.duration_ms <= p.remaining[i]
                &&& forall|j: int|
                    0 <= j < p.remaining.len() && t.duration_ms <= #[trigger] p.remaining[j] ==> (
                    p.remaining[i] < p.remaining[j] || (p.remaining[i] == p.remaining[j] && i
                        <= j))
                &&& place(p, t, capacity) == (Packing {
                    shards: p.shards.update(i, p.shards[i].push(t)),
                    remaining: p.remaining.update(i, p.remaining[i] - t.duration_ms),
                })
            },
        !(exists|j: int| 0 <= j < p.remaining.len() && t.duration_ms <= #[trigger] p.remaining[j])
            ==> place(p, t, capacity) == (Packing {
            shards: p.shards.push(seq![t]),
            remaining: p.remaining.push(capacity - t.duration_ms),
        }),
{
    let d = t.duration_ms as int;
    lemma_chosen_fits(p, d);
    let i = chosen_shard(p, d);
    if exists|j: int| 0 <= j < p.remaining.len() && t.duration_ms <= #[trigger] p.remaining[j] {
        let j0 = choose|j: int| 0 <= j < p.remaining.len() && t.duration_ms <= #[trigger] p.remaining[j];
        assert(fits(p, d, j0));
        assert(best_fit(p, d, i));
        assert forall|j: int|
            0 <= j < p.remaining.len() && t.duration_ms <= #[trigger] p.remaining[j] implies (
            p.remaining[i] < p.remaining[j] || (p.remaining[i] == p.remaining[j] && i <= j)) by {
            assert(fits(p, d, j));
            assert(!key_before(p, j, i));
        }
    } else {
        if i < p.remaining.len() {
            assert(fits(p, d, i));
        }
    }
}

/// Among the shards with room there is one that comes first.
proof fn lemma_least_fitting(p: Packing, d: int, j0: int)
    requires
        fits(p, d, j0),
    ensures
        exists|i: int| best_fit(p, d, i),
    decreases p.remaining.len(),
{
    let n = p.remaining.len();
    let q = Packing { shards: p.shards, remaining: p.remaining.drop_last() };
    if n == 1 {
        assert(best_fit(p, d, 0)) by {
            assert forall|j: int| #[trigger] fits(p, d, j) implies !key_before(p, j, 0) by {
                assert(j == 0);
            }
        }
    } else if j0 == n - 1 && !(exists|j: int| fits(q, d, j)) {
        assert(best_fit(p, d, n - 1)) by {
            assert forall|j: int| #[trigger] fits(p, d, j) implies !key_before(p, j, n - 1) by {
                if j != n - 1 {
                    assert(fits(q, d, j));
                }
            }
        }
    } else {
        let j1 = if j0 == n - 1 {
            choose|j: int| fits(q, d, j)
        } else {
            j0
        };
        assert(fits(q, d, j1));
        lemma_least_fitting(q, d, j1);
        let i = choose|i: int| best_fit(q, d, i);
        assert(fits(q, d, i));
        if fits(p, d, n - 1) && key_before(p, n - 1, i) {
            assert(best_fit(p, d, n - 1)) by {
                assert forall|j: int| #[trigger] fits(p, d, j) implies !key_before(p, j, n - 1) by {
                    if j != n - 1 {
                        assert(fits(q, d, j));
                        assert(!key_before(q, j, i));
                    }
                }
            }
        } else {
            assert(best_fit(p, d, i)) by {
                assert forall|j: int| #[trigger] fits(p, d, j) implies !key_before(p, j, i) by {
                    if j != n - 1 {
                        assert(fits(q, d, j));
                        assert(!key_before(q, j, i));
                    }
                }
            }
        }
    }
}

pub proof fn lemma_bag_push<A>(s: Seq<Seq<A>>, x: Seq<A>)
    ensures
        bag(s.push(x)) == bag(s).add(x.to_multiset()),
{
    assert(s.push(x).drop_last() =~= s);
}

pub proof fn lemma_bag_update<A>(s: Seq<Seq<A>>, k: int, x: Seq<A>)
    requires
        0 <= k < s.len(),
    ensures
        bag(s.update(k, x)).add(s[k].to_multiset()) == bag(s).add(x.to_multiset()),
    decreases s.len(),
{
    broadcast use vstd::multiset::group_multiset_axioms;

    let u = s.update(k, x);
    if k == s.len() - 1 {
        assert(u.drop_last() =~= s.drop_last());
        assert(bag(u).add(s[k].to_multiset()) =~= bag(s).add(x.to_multiset()));
    } else {
        assert(u.drop_last() =~= s.drop_last().update(k, x));
        lemma_bag_update(s.drop_last(), k, x);
        assert(u.last() == s.last());
        assert(s.drop_last()[k] == s[k]);
        assert(bag(u) == bag(u.drop_last()).add(s.last().to_multiset()));
        assert(bag(s) == bag(s.drop_last()).add(s.last().to_multiset()));
        let lhs = bag(u).add(s[k].to_multiset());
        let rhs = bag(s).add(x.to_multiset());
        let ih_l = bag(u.drop_last()).add(s[k].to_multiset());
        assert forall|v: A| lhs.count(v) == rhs.count(v) by {
            assert(lhs.count(v) == ih_l.count(v) + s.last().to_multiset().count(v));
        }
        assert(bag(u).add(s[k].to_multiset()) =~= bag(s).add(x.to_multiset()));
    }
}

pub proof fn lemma_test_count_push(s: Seq<Seq<TestView>>, x: Seq<TestView>)
    ensures
        test_count(s.push(x)) == test_count(s) + x.len(),
{
    assert(s.push(x).drop_last() =~= s);
}

pub proof fn lemma_test_count_update(s: Seq<Seq<TestView>>, k: int, x: Seq<TestView>)
    requires
        0 <= k < s.len(),
    ensures
        test_count(s.update(k, x)) == test_count(s) - s[k].len() + x.len(),
    decreases s.len(),
{
    let u = s.update(k, x);
    if k == s.len() - 1 {
        assert(u.drop_last() =~= s.drop_last());
    } else {
        assert(u.drop_last() =~= s.drop_last().update(k, x));
        lemma_test_count_update(s.drop_last(), k, x);
    }
}

/// When no shard is empty there are at most as many shards as tests.
pub proof fn lemma_shards_at_most_tests(s: Seq<Seq<TestView>>)
    requires
        forall|k: int| 0 <= k < s.len() ==> #[trigger] s[k].len() > 0,
    ensures
        s.len() <= test_count(s),
    decreases s.len(),
{
    if s.len() > 0 {
        assert forall|k: int| 0 <= k < s.drop_last().len() implies #[trigger] s.drop_last()[k].len()
            > 0 by {
            assert(s.drop_last()[k] == s[k]);
        }
        lemma_shards_at_most_tests(s.drop_last());
    }
}

pub proof fn lemma_total_push(s: Seq<TestView>, t: TestView)
    ensures
        total_ms(s.push(t)) == total_ms(s) + t.duration_ms,
{
    assert(s.push(t).drop_last() =~= s);
}

/// Placing a test whose duration is within the capacity keeps the packing
/// well formed, puts the test into exactly one shard, and opens a new
/// shard exactly when no shard has room.
pub proof fn lemma_place(p: Packing, t: TestView, capacity: int)
    requires
        well_formed(p, capacity),
        t.duration_ms <= capacity,
    ensures
        well_formed(place(p, t, capacity), capacity),
        test_count(place(p, t, capacity).shards) == test_count(p.shards) + 1,
        bag(place(p, t, capacity).shards) == bag(p.shards).insert(t),
        place(p, t, capacity).shards.len() == p.shards.len() || (place(
            p,
            t,
            capacity,
        ).shards.len() == p.shards.len() + 1 && forall|j: int| !fits(p, t.duration_ms as int, j)),
{
    broadcast use vstd::multiset::group_multiset_axioms;

    let d = t.duration_ms as int;
    let i = chosen_shard(p, d);
    let q = place(p, t, capacity);
    lemma_chosen_fits(p, d);
    if i < p.remaining.len() {
        assert(fits(p, d, i));
        lemma_total_push(p.shards[i], t);
        lemma_test_count_update(p.shards, i, p.shards[i].push(t));
        lemma_bag_update(p.shards, i, p.shards[i].push(t));
        p.shards[i].to_multiset_ensures();
        let a = p.shards[i].to_multiset();
        assert(p.shards[i].push(t).to_multiset() == a.insert(t));
        assert forall|v: TestView| bag(q.shards).count(v) == bag(p.shards).insert(t).count(v) by {
            assert(bag(q.shards).add(a).count(v) == bag(p.shards).add(a.insert(t)).count(v));
        }
        assert(bag(q.shards) =~= bag(p.shards).insert(t));
        assert(well_formed(q, capacity)) by {
            assert forall|k: int| 0 <= k < q.remaining.len() implies 0 <= #[trigger] q.remaining[k]
                <= capacity && q.remaining[k] == capacity - total_ms(q.shards[k]) by {
                if k != i {
                    assert(q.shards[k] == p.shards[k]);
                }
            }
        }
    } else {
        let e = seq![t];
        assert(e.drop_last() =~= Seq::<TestView>::empty());
        assert(e.last() == t);
        assert(total_ms(Seq::<TestView>::empty()) == 0);
        assert(total_ms(e) == d);
        lemma_test_count_push(p.shards, e);
        lemma_bag_push(p.shards, e);
        assert(e =~= Seq::<TestView>::empty().push(t));
        Seq::<TestView>::empty().to_multiset_ensures();
        assert(bag(q.shards) =~= bag(p.shards).insert(t));
        assert(well_formed(q, capacity)) by {
            assert forall|k: int| 0 <= k < q.remaining.len() implies 0 <= #[trigger] q.remaining[k]
                <= capacity && q.remaining[k] == capacity - total_ms(q.shards[k]) by {
                if k < p.remaining.len() {
                    assert(q.shards[k] == p.shards[k]);
                }
            }
        }
    }
}

pub proof fn lemma_place_all_step(order: Seq<TestView>, start: Packing, capacity: int, i: int)
    requires
        0 <= i < order.len(),
    ensures
        place_all(order.take(i + 1), start, capacity) == place(
            place_all(order.take(i), start, capacity),
            order[i],
            capacity,
        ),
{
    assert(order.take(i + 1).drop_last() =~= order.take(i));
}

pub proof fn lemma_empty_shards(count: nat, capacity: int)
    requires
        capacity >= 0,
    ensures
        well_formed(empty_shards(count, capacity), capacity),
        test_count(empty_shards(count, capacity).shards) == 0,
        bag(empty_shards(count, capacity).shards) == Multiset::<TestView>::empty(),
    decreases count,
{
    let p = empty_shards(count, capacity);
    assert forall|k: int| 0 <= k < p.remaining.len() implies 0 <= #[trigger] p.remaining[k]
        <= capacity && p.remaining[k] == capacity - total_ms(p.shards[k]) by {
        assert(total_ms(p.shards[k]) == 0);
    }
    if count > 0 {
        lemma_empty_shards((count - 1) as nat, capacity);
        let q = empty_shards((count - 1) as nat, capacity);
        assert(p.shards.drop_last() =~= q.shards);
        Seq::<TestView>::empty().to_multiset_ensures();
        assert(bag(p.shards) =~= Multiset::<TestView>::empty());
    }
}

pub proof fn lemma_longest(s: Seq<TestView>)
    ensures
        0 <= longest_ms(s) <= u32::MAX,
        forall|k: int| 0 <= k < s.len() ==> #[trigger] s[k].duration_ms <= longest_ms(s),
        s.len() == 0 ==> longest_ms(s) == 0,
        s.len() > 0 ==> exists|k: int| 0 <= k < s.len() && #[trigger] s[k].duration_ms == longest_ms(s),
    decreases s.len(),
{
    if s.len() > 0 {
        lemma_longest(s.drop_last());
        if longest_ms(s.drop_last()) < s.last().duration_ms {
            assert(s[s.len() - 1].duration_ms == longest_ms(s));
        } else if s.len() == 1 {
            assert(s[0].duration_ms == longest_ms(s));
        } else {
            let k = choose|k: int|
                0 <= k < s.drop_last().len() && #[trigger] s.drop_last()[k].duration_ms
                    == longest_ms(s.drop_last());
            assert(s[k] == s.drop_last()[k]);
        }
        assert forall|k: int| 0 <= k < s.len() implies #[trigger] s[k].duration_ms <= longest_ms(
            s,
        ) by {
            if k < s.len() - 1 {
                assert(s[k] == s.drop_last()[k]);
            }
        }
    }
}

pub proof fn lemma_total_bound(s: Seq<TestView>, bound: int)
    requires
        bound >= 0,
        forall|k: int| 0 <= k < s.len() ==> #[trigger] s[k].duration_ms <= bound,
    ensures
        0 <= total_ms(s) <= s.len() * bound,
        s.len() == 0 ==> total_ms(s) == 0,
    decreases s.len(),
{
    if s.len() > 0 {
        assert forall|k: int| 0 <= k < s.drop_last().len() implies #[trigger] s.drop_last()[k].duration_ms
            <= bound by {
            assert(s.drop_last()[k] == s[k]);
        }
        lemma_total_bound(s.drop_last(), bound);
        assert(s.last().duration_ms <= bound);
        assert((s.len() - 1) * bound + bound == s.len() * bound) by (nonlinear_arith);
    }
}

/// Mapping equal multisets elementwise gives equal multisets.
pub proof fn lemma_map_multiset<A, B>(a: Seq<A>, b: Seq<A>, f: spec_fn(A) -> B)
    requires
        a.to_multiset() == b.to_multiset(),
    ensures
        a.map_values(f).to_multiset() == b.map_values(f).to_multiset(),
    decreases a.len(),
{
    a.to_multiset_ensures();
    b.to_multiset_ensures();
    if a.len() == 0 {
        assert(b.len() == 0);
        assert(a.map_values(f) =~= b.map_values(f));
    } else {
        let x = a.last();
        let a1 = a.drop_last();
        assert(a =~= a1.push(x));
        a1.to_multiset_ensures();
        assert(a[a.len() - 1] == x);
        assert(a.contains(x));
        assert(a.to_multiset().count(x) > 0);
        assert(b.to_multiset().count(x) > 0);
        assert(b.contains(x));
        let j = choose|j: int| 0 <= j < b.len() && b[j] == x;
        let b1 = b.remove(j);
        assert(b1.to_multiset() == b.to_multiset().remove(x));
        assert(a1.to_multiset() =~= a.to_multiset().remove(x));
        lemma_map_multiset(a1, b1, f);
        let ma = a.map_values(f);
        let mb = b.map_values(f);
        a1.map_values(f).to_multiset_ensures();
        mb.to_multiset_ensures();
        assert(ma =~= a1.map_values(f).push(f(x)));
        assert(mb.remove(j) =~= b1.map_values(f));
        assert(mb[j] == f(x));
        assert(mb.to_multiset().remove(f(x)) == b1.map_values(f).to_multiset());
        assert(mb.to_multiset().count(f(x)) > 0);
        assert(ma.to_multiset() =~= mb.to_multiset()) by {
            broadcast use vstd::multiset::group_multiset_axioms;

        }
    }
}

/// Tests whose total fits one shard all go, in order, into a single shard.
pub proof fn lemma_one_shard(order: Seq<TestView>, count: nat, capacity: int)
    requires
        order.len() > 0,
        count <= 1,
        total_ms(order) <= capacity,
        count == 0 ==> total_ms(order) == 0,
    ensures
        place_all(order, empty_shards(count, capacity), capacity) == (Packing {
            shards: seq![order],
            remaining: seq![capacity - total_ms(order)],
        }),
    decreases order.len(),
{
    let start = empty_shards(count, capacity);
    let t = order.last();
    let dl = order.drop_last();
    let d = t.duration_ms as int;
    assert(total_ms(order) == total_ms(dl) + d);
    assert forall|k: int| 0 <= k < dl.len() implies #[trigger] dl[k].duration_ms <= u32::MAX by {}
    lemma_total_bound(dl, u32::MAX as int);
    let p = place_all(dl, start, capacity);
    if dl.len() == 0 {
        assert(p == start);
        if count == 0 {
            assert(p.remaining.len() == 0);
            assert forall|j: int| !fits(p, d, j) by {}
            lemma_chosen_none(p, d);
            assert(seq![t] =~= order);
            assert(total_ms(dl) == 0);
            assert(place_all(order, start, capacity).shards =~= seq![order]);
            assert(place_all(order, start, capacity).remaining =~= seq![capacity - total_ms(order)]);
        } else {
            assert(best_fit(p, d, 0)) by {
                assert forall|j: int| #[trigger] fits(p, d, j) implies !key_before(p, j, 0) by {}
            }
            lemma_chosen_best_fit(p, d, 0);
            assert(p.shards[0] =~= Seq::<TestView>::empty());
            assert(p.shards[0].push(t) =~= order);
            assert(place_all(order, start, capacity).shards =~= seq![order]);
            assert(place_all(order, start, capacity).remaining =~= seq![capacity - total_ms(order)]);
        }
    } else {
        lemma_one_shard(dl, count, capacity);
        assert(best_fit(p, d, 0)) by {
            assert forall|j: int| #[trigger] fits(p, d, j) implies !key_before(p, j, 0) by {}
        }
        lemma_chosen_best_fit(p, d, 0);
        assert(dl.push(t) =~= order);
        assert(place_all(order, start, capacity).shards =~= seq![order]);
        assert(place_all(order, start, capacity).remaining =~= seq![capacity - total_ms(order)]);
    }
}

/// A packing of one shard is output as that shard.
pub proof fn lemma_arranged_one(p: Packing)
    requires
        p.shards.len() == 1,
    ensures
        arranged(p) == seq![p.shards[0]],
{
    let ids = seq![0int];
    let lt = shard_key_order(p);
    assert(ids.to_set() =~= Set::new(|i: int| 0 <= i < p.shards.len())) by {
        assert(ids[0] == 0);
        assert(ids.contains(0));
    }
    lemma_key_order(p);
    let o = output_order(p);
    assert(strictly_sorted_by(o, lt) && o.to_set() == Set::new(|i: int| 0 <= i < p.shards.len()));
    lemma_strictly_sorted_unique(o, ids, lt);
    assert(arranged(p) =~= seq![p.shards[0]]);
}

/// A packing with no shards is output as no shards.
pub proof fn lemma_arranged_none(p: Packing)
    requires
        p.shards.len() == 0,
    ensures
        arranged(p) == Seq::<Seq<TestView>>::empty(),
{
    let ids = Seq::<int>::empty();
    let lt = shard_key_order(p);
    assert(ids.to_set() =~= Set::new(|i: int| 0 <= i < p.shards.len()));
    lemma_key_order(p);
    let o = output_order(p);
    assert(strictly_sorted_by(o, lt) && o.to_set() == Set::new(|i: int| 0 <= i < p.shards.len()));
    lemma_strictly_sorted_unique(o, ids, lt);
    assert(arranged(p) =~= Seq::<Seq<TestView>>::empty());
}

/// Appending an element to one sequence adds it to the bag.
pub proof fn lemma_bag_push_into<A>(s: Seq<Seq<A>>, k: int, x: A)
    requires
        0 <= k < s.len(),
    ensures
        bag(s.update(k, s[k].push(x))) == bag(s).insert(x),
{
    broadcast use vstd::multiset::group_multiset_axioms;

    lemma_bag_update(s, k, s[k].push(x));
    s[k].to_multiset_ensures();
    let a = s[k].to_multiset();
    assert(s[k].push(x).to_multiset() == a.insert(x));
    assert forall|v: A| bag(s.update(k, s[k].push(x))).count(v) == bag(s).insert(x).count(v) by {
        assert(bag(s.update(k, s[k].push(x))).add(a).count(v) == bag(s).add(a.insert(x)).count(v));
    }
    assert(bag(s.update(k, s[k].push(x))) =~= bag(s).insert(x));
}

/// Adding an empty sequence leaves the bag as it was.
pub proof fn lemma_bag_push_empty<A>(s: Seq<Seq<A>>)
    ensures
        bag(s.push(Seq::<A>::empty())) == bag(s),
{
    broadcast use vstd::multiset::group_multiset_axioms;

    lemma_bag_push(s, Seq::<A>::empty());
    Seq::<A>::empty().to_multiset_ensures();
    assert(bag(s.push(Seq::<A>::empty())) =~= bag(s));
}

pub proof fn lemma_total_remove(s: Seq<TestView>, j: int)
    requires
        0 <= j < s.len(),
    ensures
        total_ms(s) == total_ms(s.remove(j)) + s[j].duration_ms,
    decreases s.len(),
{
    if j < s.len() - 1 {
        assert(s.remove(j).drop_last() =~= s.drop_last().remove(j));
        assert(s.remove(j).last() == s.last());
        lemma_total_remove(s.drop_last(), j);
    } else {
        assert(s.remove(j) =~= s.drop_last());
    }
}

/// The total time of tests does not depend on their order.
pub proof fn lemma_total_multiset(a: Seq<TestView>, b: Seq<TestView>)
    requires
        a.to_multiset() == b.to_multiset(),
    ensures
        total_ms(a) == total_ms(b),
    decreases a.len(),
{
    a.to_multiset_ensures();
    b.to_multiset_ensures();
    if a.len() == 0 {
        assert(b.len() == 0);
    } else {
        let x = a.last();
        let a1 = a.drop_last();
        assert(a =~= a1.push(x));
        a1.to_multiset_ensures();
        assert(a[a.len() - 1] == x);
        assert(a.to_multiset().count(x) > 0);
        assert(b.to_multiset().count(x) > 0);
        assert(b.contains(x));
        let j = choose|j: int| 0 <= j < b.len() && b[j] == x;
        let b1 = b.remove(j);
        assert(b1.to_multiset() == b.to_multiset().remove(x));
        assert(a1.to_multiset() =~= a.to_multiset().remove(x));
        lemma_total_multiset(a1, b1);
        lemma_total_remove(b, j);
    }
}

pub proof fn lemma_bag_single<A>(x: Seq<A>)
    ensures
        bag(seq![x]) == x.to_multiset(),
{
    broadcast use vstd::multiset::group_multiset_axioms;

    let s = seq![x];
    assert(s.drop_last() =~= Seq::<Seq<A>>::empty());
    assert(bag(s.drop_last()) == Multiset::<A>::empty());
    assert(s.last() == x);
    assert(bag(s) =~= x.to_multiset());
}

pub proof fn lemma_empty_multiset<A>(s: Seq<A>)
    requires
        s.len() == 0,
    ensures
        s.to_multiset() == Multiset::<A>::empty(),
{
    broadcast use vstd::multiset::group_multiset_axioms;

    s.to_multiset_ensures();
    vstd::multiset::lemma_multiset_empty_len(s.to_multiset());
}

/// Sequences that are all empty hold nothing.
pub proof fn lemma_bag_all_empty<A>(s: Seq<Seq<A>>)
    requires
        forall|k: int| 0 <= k < s.len() ==> (#[trigger] s[k]).len() == 0,
    ensures
        bag(s) == Multiset::<A>::empty(),
    decreases s.len(),
{
    broadcast use vstd::multiset::group_multiset_axioms;

    if s.len() > 0 {
        assert forall|k: int| 0 <= k < s.drop_last().len() implies (#[trigger] s.drop_last()[k]).len()
            == 0 by {
            assert(s.drop_last()[k] == s[k]);
        }
        lemma_bag_all_empty(s.drop_last());
        lemma_empty_multiset(s.last());
        assert(bag(s) =~= Multiset::<A>::empty());
    }
}

/// A prefix takes no longer than the whole.
pub proof fn lemma_total_prefix(s: Seq<TestView>, i: int)
    requires
        0 <= i <= s.len(),
    ensures
        0 <= total_ms(s.take(i)) <= total_ms(s),
    decreases s.len(),
{
    if i == s.len() {
        assert(s.take(i) =~= s);
        assert forall|k: int| 0 <= k < s.len() implies #[trigger] s[k].duration_ms <= u32::MAX by {}
        lemma_total_bound(s, u32::MAX as int);
    } else {
        assert(s.drop_last().take(i) =~= s.take(i));
        lemma_total_prefix(s.drop_last(), i);
    }
}

} // verus!
