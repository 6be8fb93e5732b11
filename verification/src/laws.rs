//! Properties of the planned shards that hold for every input.
use vstd::prelude::*;
use vstd::utf8::encode_utf8;

use crate::order::{
    insertion_sorted, lemma_insertion_sorted, sorted_by, strictly_sorted_by,
};
use crate::plan::{
    arranged, capacity_ms, empty_shards, final_packing, initial_shard_count, lemma_empty_shards,
    lemma_arranged_none, lemma_arranged_one, lemma_key_order, lemma_longest, lemma_one_shard,
    lemma_place, lemma_place_all_step, lemma_total_multiset, output_order,
    place, place_all, placement_order, planned_shards, shard_key_order, total_ms, well_formed,
    Packing,
};
use crate::test_case::{
    dictionary_before, lemma_test_order, lemma_test_order_dictionary, placed_before, TestView,
};

verus! {

/// The placement order is a longest-first arrangement of the tests.
pub proof fn lemma_placement_order_sorted(tests: Seq<TestView>)
    ensures
        sorted_by(placement_order(tests), placed_before()),
        placement_order(tests).to_multiset() == tests.to_multiset(),
{
    lemma_test_order();
    lemma_insertion_sorted(tests, placed_before());
    let w = insertion_sorted(tests, placed_before());
    assert(sorted_by(w, placed_before()) && w.to_multiset() == tests.to_multiset());
}

/// The output order lists every shard once, by time left and index.
pub proof fn lemma_output_order_sorted(p: Packing)
    ensures
        strictly_sorted_by(output_order(p), shard_key_order(p)),
        output_order(p).to_set() == Set::new(|i: int| 0 <= i < p.shards.len()),
{
    let lt = shard_key_order(p);
    lemma_key_order(p);
    let all = Seq::new(p.shards.len(), |i: int| i);
    lemma_insertion_sorted(all, lt);
    let w = insertion_sorted(all, lt);
    all.to_multiset_ensures();
    w.to_multiset_ensures();
    assert(all.no_duplicates());
    all.lemma_multiset_has_no_duplicates();
    w.lemma_multiset_has_no_duplicates_conv();
    assert(strictly_sorted_by(w, lt)) by {
        assert forall|i: int, j: int| 0 <= i < j < w.len() implies lt(#[trigger] w[i], #[trigger] w[j]) by {
            assert(!lt(w[j], w[i]));
            assert(w[i] != w[j]);
        }
    }
    assert(w.to_set() =~= Set::new(|i: int| 0 <= i < p.shards.len())) by {
        assert forall|x: int| w.to_set().contains(x) implies 0 <= x < p.shards.len() by {
            assert(w.contains(x));
            assert(w.to_multiset().count(x) > 0);
            assert(all.contains(x));
        }
        assert forall|x: int| 0 <= x < p.shards.len() implies w.to_set().contains(x) by {
            assert(all[x] == x);
            assert(all.contains(x));
            assert(all.to_multiset().count(x) > 0);
            assert(w.contains(x));
        }
    }
}

/// The output lists as many shards as the packing holds.
pub proof fn lemma_arranged_len(p: Packing)
    ensures
        output_order(p).len() == p.shards.len(),
        arranged(p).len() == p.shards.len(),
{
    lemma_output_order_sorted(p);
    let o = output_order(p);
    assert(o.no_duplicates()) by {
        assert forall|i: int, j: int| 0 <= i < o.len() && 0 <= j < o.len() && i != j implies o[i]
            != o[j] by {
            lemma_key_order(p);
            if i < j {
                assert(shard_key_order(p)(o[i], o[j]));
            } else {
                assert(shard_key_order(p)(o[j], o[i]));
            }
        }
    }
    o.unique_seq_to_set();
    vstd::set_lib::lemma_int_range(0, p.shards.len() as int);
    assert(o.to_set() =~= vstd::set_lib::set_int_range(0, p.shards.len() as int));
}

/// Shard `k` of the output is shard `output_order(p)[k]` of the packing.
proof fn lemma_arranged_entry(p: Packing, k: int)
    requires
        0 <= k < arranged(p).len(),
    ensures
        0 <= output_order(p)[k] < p.shards.len(),
        arranged(p)[k] == p.shards[output_order(p)[k]],
{
    lemma_output_order_sorted(p);
    let o = output_order(p);
    assert(o.to_set().contains(o[k]));
}

/// What placing a prefix of a longest-first order keeps: the packing stays
/// well formed, no shard disappears, each shard lists its tests longest
/// first, and no test still to come goes before a test already placed.
proof fn lemma_place_prefix(order: Seq<TestView>, start: Packing, capacity: int, i: int)
    requires
        0 <= i <= order.len(),
        capacity >= 0,
        well_formed(start, capacity),
        forall|k: int| 0 <= k < start.shards.len() ==> (#[trigger] start.shards[k]).len() == 0,
        sorted_by(order, placed_before()),
        forall|k: int| 0 <= k < order.len() ==> #[trigger] order[k].duration_ms <= capacity,
    ensures
        well_formed(place_all(order.take(i), start, capacity), capacity),
        place_all(order.take(i), start, capacity).shards.len() >= start.shards.len(),
        forall|k: int|
            0 <= k < place_all(order.take(i), start, capacity).shards.len() ==> sorted_by(
                #[trigger] place_all(order.take(i), start, capacity).shards[k],
                placed_before(),
            ),
        forall|k: int, e: int, j: int|
            0 <= k < place_all(order.take(i), start, capacity).shards.len() && 0 <= e
                < place_all(order.take(i), start, capacity).shards[k].len() && i <= j
                < order.len() ==> !placed_before()(
                #[trigger] order[j],
                #[trigger] place_all(order.take(i), start, capacity).shards[k][e],
            ),
    decreases i,
{
    let pb = placed_before();
    if i == 0 {
        assert(order.take(0) =~= Seq::<TestView>::empty());
        assert forall|k: int| 0 <= k < start.shards.len() implies sorted_by(
            #[trigger] start.shards[k],
            pb,
        ) by {
            assert(start.shards[k].len() == 0);
        }
    } else {
        lemma_place_prefix(order, start, capacity, i - 1);
        let p = place_all(order.take(i - 1), start, capacity);
        let t = order[i - 1];
        lemma_place_all_step(order, start, capacity, i - 1);
        lemma_place(p, t, capacity);
        let q = place(p, t, capacity);
        assert(q == place_all(order.take(i), start, capacity));
        let c = crate::plan::chosen_shard(p, t.duration_ms as int);
        crate::plan::lemma_chosen_fits(p, t.duration_ms as int);
        lemma_test_order();
        assert forall|k: int| 0 <= k < q.shards.len() implies sorted_by(#[trigger] q.shards[k], pb) by {
            if k == c {
                let s0 = if c < p.shards.len() {
                    p.shards[c]
                } else {
                    Seq::<TestView>::empty()
                };
                assert(q.shards[k] =~= s0.push(t));
                assert forall|a: int, b: int| 0 <= a < b < q.shards[k].len() implies !pb(
                    #[trigger] q.shards[k][b],
                    #[trigger] q.shards[k][a],
                ) by {
                    if b == s0.len() {
                        assert(q.shards[k][a] == p.shards[c][a]);
                        assert(!pb(order[i - 1], p.shards[c][a]));
                    } else {
                        assert(q.shards[k][a] == s0[a] && q.shards[k][b] == s0[b]);
                    }
                }
            } else {
                assert(q.shards[k] == p.shards[k]);
            }
        }
        assert forall|k: int, e: int, j: int|
            0 <= k < q.shards.len() && 0 <= e < q.shards[k].len() && i <= j < order.len() implies !pb(
            #[trigger] order[j],
            #[trigger] q.shards[k][e],
        ) by {
            if k == c && e == q.shards[k].len() - 1 {
                if c < p.shards.len() {
                    assert(q.shards[k] == p.shards[c].push(t));
                } else {
                    assert(q.shards[k] == seq![t]);
                }
                assert(q.shards[k][e] == t);
                assert(!pb(order[j], order[i - 1]));
            } else if k == c {
                assert(c < p.shards.len());
                assert(q.shards[k] == p.shards[c].push(t));
                assert(q.shards[k][e] == p.shards[c][e]);
            } else {
                assert(q.shards[k] == p.shards[k]);
            }
        }
    }
}

/// The final packing is well formed, has at least the initial shards, and
/// each of its shards lists its tests longest first.
proof fn lemma_final_packing(tests: Seq<TestView>, target_ms: u32)
    ensures
        well_formed(final_packing(tests, target_ms), capacity_ms(tests, target_ms)),
        final_packing(tests, target_ms).shards.len() >= initial_shard_count(tests, target_ms),
        forall|k: int|
            0 <= k < final_packing(tests, target_ms).shards.len() ==> sorted_by(
                #[trigger] final_packing(tests, target_ms).shards[k],
                placed_before(),
            ),
{
    let capacity = capacity_ms(tests, target_ms);
    let order = placement_order(tests);
    let n = initial_shard_count(tests, target_ms);
    lemma_longest(tests);
    lemma_placement_order_sorted(tests);
    order.to_multiset_ensures();
    tests.to_multiset_ensures();
    assert forall|k: int| 0 <= k < order.len() implies #[trigger] order[k].duration_ms <= capacity by {
        assert(order.contains(order[k]));
        assert(order.to_multiset().count(order[k]) > 0);
        assert(tests.contains(order[k]));
    }
    assert(n >= 0) by {
        if capacity > 0 {
            crate::plan::lemma_total_bound(tests, capacity);
        }
    }
    let start = empty_shards(n as nat, capacity);
    lemma_empty_shards(n as nat, capacity);
    lemma_place_prefix(order, start, capacity, order.len() as int);
    assert(order.take(order.len() as int) =~= order);
}

/// No shard runs longer than the capacity: the target, or the longest test
/// when that is longer.
pub proof fn lemma_shards_within_capacity(tests: Seq<TestView>, target_ms: u32)
    ensures
        forall|k: int|
            0 <= k < planned_shards(tests, target_ms).len() ==> total_ms(
                #[trigger] planned_shards(tests, target_ms)[k],
            ) <= capacity_ms(tests, target_ms),
{
    let p = final_packing(tests, target_ms);
    lemma_final_packing(tests, target_ms);
    assert forall|k: int| 0 <= k < planned_shards(tests, target_ms).len() implies total_ms(
        #[trigger] planned_shards(tests, target_ms)[k],
    ) <= capacity_ms(tests, target_ms) by {
        lemma_arranged_entry(p, k);
        let i = output_order(p)[k];
        assert(p.remaining[i] >= 0);
    }
}

/// Shards come fullest first: no shard runs longer than one before it.
pub proof fn lemma_fullest_first(tests: Seq<TestView>, target_ms: u32)
    ensures
        forall|j: int, k: int|
            0 <= j < k < planned_shards(tests, target_ms).len() ==> total_ms(
                #[trigger] planned_shards(tests, target_ms)[k],
            ) <= total_ms(#[trigger] planned_shards(tests, target_ms)[j]),
{
    let p = final_packing(tests, target_ms);
    lemma_final_packing(tests, target_ms);
    lemma_output_order_sorted(p);
    assert forall|j: int, k: int| 0 <= j < k < planned_shards(tests, target_ms).len() implies total_ms(
        #[trigger] planned_shards(tests, target_ms)[k],
    ) <= total_ms(#[trigger] planned_shards(tests, target_ms)[j]) by {
        lemma_arranged_entry(p, j);
        lemma_arranged_entry(p, k);
        let o = output_order(p);
        assert(shard_key_order(p)(o[j], o[k]));
        assert(p.remaining[o[j]] <= p.remaining[o[k]]);
    }
}

/// Each shard lists its tests longest first.
pub proof fn lemma_shards_longest_first(tests: Seq<TestView>, target_ms: u32)
    ensures
        forall|k: int|
            0 <= k < planned_shards(tests, target_ms).len() ==> sorted_by(
                #[trigger] planned_shards(tests, target_ms)[k],
                placed_before(),
            ),
{
    let p = final_packing(tests, target_ms);
    lemma_final_packing(tests, target_ms);
    assert forall|k: int| 0 <= k < planned_shards(tests, target_ms).len() implies sorted_by(
        #[trigger] planned_shards(tests, target_ms)[k],
        placed_before(),
    ) by {
        lemma_arranged_entry(p, k);
    }
}

/// There are at least as many shards as the total time divided by the
/// capacity, rounded up.
pub proof fn lemma_shard_count_at_least(tests: Seq<TestView>, target_ms: u32)
    ensures
        planned_shards(tests, target_ms).len() >= initial_shard_count(tests, target_ms),
{
    let p = final_packing(tests, target_ms);
    lemma_final_packing(tests, target_ms);
    lemma_arranged_len(p);
}

/// A shard may hold the target time, and at least the longest test; the
/// capacity is the target, or the longest test when that is longer.
pub proof fn lemma_capacity(tests: Seq<TestView>, target_ms: u32)
    ensures
        capacity_ms(tests, target_ms) >= target_ms,
        forall|k: int|
            0 <= k < tests.len() ==> #[trigger] tests[k].duration_ms <= capacity_ms(
                tests,
                target_ms,
            ),
        capacity_ms(tests, target_ms) == target_ms || exists|k: int|
            0 <= k < tests.len() && #[trigger] tests[k].duration_ms == capacity_ms(
                tests,
                target_ms,
            ),
{
    lemma_longest(tests);
}

/// Tests whose total time is within the target all go into one shard,
/// longest first; no tests give no shards.
pub proof fn lemma_within_target_one_shard(tests: Seq<TestView>, target_ms: u32)
    requires
        total_ms(tests) <= target_ms,
    ensures
        tests.len() == 0 ==> planned_shards(tests, target_ms).len() == 0,
        tests.len() > 0 ==> planned_shards(tests, target_ms) == seq![placement_order(tests)],
{
    let capacity = capacity_ms(tests, target_ms);
    let order = placement_order(tests);
    let n = initial_shard_count(tests, target_ms);
    let total = total_ms(tests);
    lemma_capacity(tests, target_ms);
    lemma_placement_order_sorted(tests);
    lemma_total_multiset(order, tests);
    order.to_multiset_ensures();
    tests.to_multiset_ensures();
    assert forall|k: int| 0 <= k < tests.len() implies #[trigger] tests[k].duration_ms
        <= u32::MAX by {}
    crate::plan::lemma_total_bound(tests, u32::MAX as int);
    assert(n <= 1 && (n == 0 ==> total == 0)) by {
        if capacity > 0 {
            if total < capacity {
                vstd::arithmetic::div_mod::lemma_small_mod(total as nat, capacity as nat);
                assert(total / capacity == 0) by (nonlinear_arith)
                    requires
                        0 <= total < capacity,
                ;
            } else {
                assert(total == capacity);
                vstd::arithmetic::div_mod::lemma_div_by_self(capacity);
                vstd::arithmetic::div_mod::lemma_mod_self_0(capacity);
            }
        }
    }
    let start = empty_shards(n as nat, capacity);
    let p = final_packing(tests, target_ms);
    if tests.len() == 0 {
        assert(order.len() == 0);
        assert(n == 0) by {
            if capacity > 0 {
                vstd::arithmetic::div_mod::lemma_small_mod(0, capacity as nat);
                assert(0int / capacity == 0) by (nonlinear_arith)
                    requires
                        capacity > 0,
                ;
            }
        }
        assert(p == start);
        assert(p.shards.len() == 0);
        lemma_empty_shards(n as nat, capacity);
        lemma_arranged_none(p);
    } else {
        lemma_one_shard(order, n as nat, capacity);
        lemma_arranged_one(p);
    }
}

/// Shards are output by time left, the lower index first among shards with
/// as much time left; each shard of the packing is output exactly once.
pub proof fn lemma_output_by_time_left(p: Packing)
    ensures
        arranged(p).len() == p.shards.len(),
        output_order(p).no_duplicates(),
        forall|k: int|
            0 <= k < arranged(p).len() ==> 0 <= #[trigger] output_order(p)[k] < p.shards.len()
                && arranged(p)[k] == p.shards[output_order(p)[k]],
        forall|j: int, k: int|
            0 <= j < k < output_order(p).len() ==> {
                let a = #[trigger] output_order(p)[j];
                let b = #[trigger] output_order(p)[k];
                p.remaining[a] < p.remaining[b] || (p.remaining[a] == p.remaining[b] && a < b)
            },
{
    lemma_output_order_sorted(p);
    lemma_arranged_len(p);
    let o = output_order(p);
    assert forall|k: int| 0 <= k < arranged(p).len() implies 0 <= #[trigger] output_order(p)[k]
        < p.shards.len() && arranged(p)[k] == p.shards[output_order(p)[k]] by {
        lemma_arranged_entry(p, k);
    }
    assert forall|j: int, k: int| 0 <= j < k < o.len() implies {
        let a = #[trigger] o[j];
        let b = #[trigger] o[k];
        p.remaining[a] < p.remaining[b] || (p.remaining[a] == p.remaining[b] && a < b)
    } by {
        assert(shard_key_order(p)(o[j], o[k]));
    }
    assert(o.no_duplicates()) by {
        assert forall|i: int, j: int| 0 <= i < o.len() && 0 <= j < o.len() && i != j implies o[i]
            != o[j] by {
            if i < j {
                assert(shard_key_order(p)(o[i], o[j]));
            } else {
                assert(shard_key_order(p)(o[j], o[i]));
            }
        }
    }
}

/// Within each shard, a test runs at least as long as every test after it,
/// and of two equally long tests the one whose identifier comes later in
/// dictionary order of UTF-8 bytes comes first.
pub proof fn lemma_shard_order_by_duration(tests: Seq<TestView>, target_ms: u32)
    ensures
        forall|k: int, i: int, j: int|
            0 <= k < planned_shards(tests, target_ms).len() && 0 <= i < j
                < planned_shards(tests, target_ms)[k].len() ==> {
                let a = #[trigger] planned_shards(tests, target_ms)[k][i];
                let b = #[trigger] planned_shards(tests, target_ms)[k][j];
                &&& a.duration_ms >= b.duration_ms
                &&& a.duration_ms == b.duration_ms ==> !dictionary_before(
                    encode_utf8(a.id),
                    encode_utf8(b.id),
                )
            },
{
    lemma_shards_longest_first(tests, target_ms);
    let shards = planned_shards(tests, target_ms);
    assert forall|k: int, i: int, j: int|
        0 <= k < shards.len() && 0 <= i < j < shards[k].len() implies {
        let a = #[trigger] shards[k][i];
        let b = #[trigger] shards[k][j];
        &&& a.duration_ms >= b.duration_ms
        &&& a.duration_ms == b.duration_ms ==> !dictionary_before(encode_utf8(a.id), encode_utf8(b.id))
    } by {
        let s = shards[k];
        assert(sorted_by(s, placed_before()));
        assert(!placed_before()(s[j], s[i]));
        lemma_test_order_dictionary(s[i], s[j]);
    }
}

/// The initial number of shards is the total time divided by the capacity,
/// rounded up: the fewest shards of that capacity whose times together
/// reach the total.
pub proof fn lemma_initial_count_rounds_up(tests: Seq<TestView>, target_ms: u32)
    requires
        capacity_ms(tests, target_ms) > 0,
    ensures
        initial_shard_count(tests, target_ms) >= 0,
        initial_shard_count(tests, target_ms) * capacity_ms(tests, target_ms) >= total_ms(tests),
        initial_shard_count(tests, target_ms) == 0 || (initial_shard_count(tests, target_ms) - 1)
            * capacity_ms(tests, target_ms) < total_ms(tests),
{
    let c = capacity_ms(tests, target_ms);
    let t = total_ms(tests);
    let n = initial_shard_count(tests, target_ms);
    assert forall|k: int| 0 <= k < tests.len() implies #[trigger] tests[k].duration_ms
        <= u32::MAX by {}
    crate::plan::lemma_total_bound(tests, u32::MAX as int);
    vstd::arithmetic::div_mod::lemma_fundamental_div_mod(t, c);
    let q = t / c;
    let r = t % c;
    assert(0 <= r < c);
    assert(q >= 0) by (nonlinear_arith)
        requires
            t >= 0,
            c > 0,
            t == c * q + r,
            0 <= r < c,
    ;
    if r == 0 {
        assert(n == q);
        assert(n * c >= t) by (nonlinear_arith)
            requires
                n == q,
                t == c * q + r,
                r == 0,
        ;
        assert(n == 0 || (n - 1) * c < t) by (nonlinear_arith)
            requires
                n == q,
                t == c * q + r,
                r == 0,
                c > 0,
        ;
    } else {
        assert(n == q + 1);
        assert(n * c >= t) by (nonlinear_arith)
            requires
                n == q + 1,
                t == c * q + r,
                0 <= r < c,
        ;
        assert((n - 1) * c < t) by (nonlinear_arith)
            requires
                n == q + 1,
                t == c * q + r,
                0 < r < c,
        ;
    }
}

/// The total time of all shards together.
spec fn packed_ms(shards: Seq<Seq<TestView>>) -> int
    decreases shards.len(),
{
    if shards.len() == 0 {
        0
    } else {
        packed_ms(shards.drop_last()) + total_ms(shards.last())
    }
}

proof fn lemma_packed_update(s: Seq<Seq<TestView>>, k: int, x: Seq<TestView>)
    requires
        0 <= k < s.len(),
    ensures
        packed_ms(s.update(k, x)) == packed_ms(s) - total_ms(s[k]) + total_ms(x),
    decreases s.len(),
{
    let u = s.update(k, x);
    if k == s.len() - 1 {
        assert(u.drop_last() =~= s.drop_last());
    } else {
        assert(u.drop_last() =~= s.drop_last().update(k, x));
        lemma_packed_update(s.drop_last(), k, x);
    }
}

proof fn lemma_packed_bound(s: Seq<Seq<TestView>>, capacity: int)
    requires
        capacity >= 0,
        forall|k: int| 0 <= k < s.len() ==> total_ms(#[trigger] s[k]) <= capacity,
    ensures
        packed_ms(s) <= s.len() * capacity,
        forall|e: int| 0 <= e < s.len() && (#[trigger] s[e]).len() == 0 ==> packed_ms(s) <= (s.len()
            - 1) * capacity,
    decreases s.len(),
{
    if s.len() > 0 {
        let d = s.drop_last();
        assert forall|k: int| 0 <= k < d.len() implies total_ms(#[trigger] d[k]) <= capacity by {
            assert(d[k] == s[k]);
        }
        lemma_packed_bound(d, capacity);
        assert(total_ms(s.last()) <= capacity);
        assert((s.len() - 1) * capacity + capacity == s.len() * capacity) by (nonlinear_arith);
        assert forall|e: int| 0 <= e < s.len() && (#[trigger] s[e]).len() == 0 implies packed_ms(s) <= (
        s.len() - 1) * capacity by {
            if e == s.len() - 1 {
                assert(total_ms(s[e]) == 0);
            } else {
                assert(d[e] == s[e]);
                assert((d.len() - 1) * capacity + capacity == d.len() * capacity) by (nonlinear_arith);
            }
        }
    }
}

/// Placing a prefix keeps every shard past the initial ones non-empty,
/// adds shards only while none is empty, and accounts for all the time.
proof fn lemma_place_prefix_counts(order: Seq<TestView>, n: nat, capacity: int, i: int)
    requires
        0 <= i <= order.len(),
        capacity >= 0,
        forall|k: int| 0 <= k < order.len() ==> #[trigger] order[k].duration_ms <= capacity,
    ensures
        place_all(order.take(i), empty_shards(n, capacity), capacity).shards.len() >= n,
        forall|k: int|
            n <= k < place_all(order.take(i), empty_shards(n, capacity), capacity).shards.len()
                ==> (#[trigger] place_all(order.take(i), empty_shards(n, capacity), capacity).shards[k]).len()
                > 0,
        (exists|e: int|
            0 <= e < place_all(order.take(i), empty_shards(n, capacity), capacity).shards.len()
                && (#[trigger] place_all(order.take(i), empty_shards(n, capacity), capacity).shards[e]).len()
                == 0) ==> place_all(order.take(i), empty_shards(n, capacity), capacity).shards.len()
            == n,
        packed_ms(place_all(order.take(i), empty_shards(n, capacity), capacity).shards) == total_ms(
            order.take(i),
        ),
        well_formed(place_all(order.take(i), empty_shards(n, capacity), capacity), capacity),
    decreases i,
{
    let start = empty_shards(n, capacity);
    if i == 0 {
        assert(order.take(0) =~= Seq::<TestView>::empty());
        lemma_empty_shards(n, capacity);
        assert(packed_ms(start.shards) == 0) by {
            lemma_packed_zero(start.shards);
        }
    } else {
        lemma_place_prefix_counts(order, n, capacity, i - 1);
        let p = place_all(order.take(i - 1), start, capacity);
        let t = order[i - 1];
        let dur = t.duration_ms as int;
        lemma_place_all_step(order, start, capacity, i - 1);
        lemma_place(p, t, capacity);
        let q = place(p, t, capacity);
        let c = crate::plan::chosen_shard(p, dur);
        crate::plan::lemma_chosen_fits(p, dur);
        assert(order.take(i).drop_last() =~= order.take(i - 1));
        assert(order.take(i).last() == t);
        if c < p.shards.len() {
            lemma_packed_update(p.shards, c, p.shards[c].push(t));
            crate::plan::lemma_total_push(p.shards[c], t);
            assert forall|k: int| n <= k < q.shards.len() implies (#[trigger] q.shards[k]).len() > 0 by {
                if k != c {
                    assert(q.shards[k] == p.shards[k]);
                }
            }
            if exists|e: int| 0 <= e < q.shards.len() && (#[trigger] q.shards[e]).len() == 0 {
                let e = choose|e: int| 0 <= e < q.shards.len() && (#[trigger] q.shards[e]).len() == 0;
                assert(e != c);
                assert(q.shards[e] == p.shards[e]);
            }
        } else {
            // No shard had room, so none was empty.
            assert forall|e: int| 0 <= e < p.shards.len() implies (#[trigger] p.shards[e]).len() > 0 by {
                if p.shards[e].len() == 0 {
                    assert(total_ms(p.shards[e]) == 0);
                    assert(crate::plan::fits(p, dur, e));
                }
            }
            assert(q.shards == p.shards.push(seq![t]));
            assert(q.shards.drop_last() =~= p.shards);
            assert(seq![t].drop_last() =~= Seq::<TestView>::empty());
            assert(seq![t].last() == t);
            assert(total_ms(Seq::<TestView>::empty()) == 0);
            assert(total_ms(seq![t]) == dur);
            assert forall|k: int| n <= k < q.shards.len() implies (#[trigger] q.shards[k]).len() > 0 by {
                if k < p.shards.len() {
                    assert(q.shards[k] == p.shards[k]);
                }
            }
            if exists|e: int| 0 <= e < q.shards.len() && (#[trigger] q.shards[e]).len() == 0 {
                let e = choose|e: int| 0 <= e < q.shards.len() && (#[trigger] q.shards[e]).len() == 0;
                if e < p.shards.len() {
                    assert(q.shards[e] == p.shards[e]);
                }
            }
        }
    }
}

proof fn lemma_packed_zero(s: Seq<Seq<TestView>>)
    requires
        forall|k: int| 0 <= k < s.len() ==> (#[trigger] s[k]).len() == 0,
    ensures
        packed_ms(s) == 0,
    decreases s.len(),
{
    if s.len() > 0 {
        assert forall|k: int| 0 <= k < s.drop_last().len() implies (#[trigger] s.drop_last()[k]).len()
            == 0 by {
            assert(s.drop_last()[k] == s[k]);
        }
        lemma_packed_zero(s.drop_last());
        assert(total_ms(s.last()) == 0);
    }
}

/// No shard is empty.
pub proof fn lemma_no_empty_shards(tests: Seq<TestView>, target_ms: u32)
    ensures
        forall|k: int|
            0 <= k < planned_shards(tests, target_ms).len() ==> (#[trigger] planned_shards(
                tests,
                target_ms,
            )[k]).len() > 0,
{
    let capacity = capacity_ms(tests, target_ms);
    let order = placement_order(tests);
    let n = initial_shard_count(tests, target_ms);
    let p = final_packing(tests, target_ms);
    lemma_longest(tests);
    lemma_placement_order_sorted(tests);
    order.to_multiset_ensures();
    tests.to_multiset_ensures();
    assert forall|k: int| 0 <= k < order.len() implies #[trigger] order[k].duration_ms <= capacity by {
        assert(order.contains(order[k]));
        assert(order.to_multiset().count(order[k]) > 0);
        assert(tests.contains(order[k]));
    }
    assert(n >= 0) by {
        if capacity > 0 {
            crate::plan::lemma_total_bound(tests, capacity);
        }
    }
    lemma_place_prefix_counts(order, n as nat, capacity, order.len() as int);
    assert(order.take(order.len() as int) =~= order);
    crate::plan::lemma_total_multiset(order, tests);
    assert forall|k: int| 0 <= k < planned_shards(tests, target_ms).len() implies (
    #[trigger] planned_shards(tests, target_ms)[k]).len() > 0 by {
        lemma_arranged_entry(p, k);
        let e = output_order(p)[k];
        if p.shards[e].len() == 0 {
            // Then no shard was added, and one of the initial shards holds
            // nothing, which the initial count leaves no room for.
            assert(p.shards.len() == n);
            assert forall|j: int| 0 <= j < p.shards.len() implies total_ms(#[trigger] p.shards[j])
                <= capacity by {
                assert(p.remaining[j] >= 0);
            }
            lemma_packed_bound(p.shards, capacity);
            let total = total_ms(tests);
            assert(total <= (n - 1) * capacity);
            assert(capacity > 0);
            vstd::arithmetic::div_mod::lemma_fundamental_div_mod(total, capacity);
            let q = total / capacity;
            let r = total % capacity;
            if r == 0 {
                assert(n == q);
                assert((n - 1) * capacity == q * capacity - capacity) by (nonlinear_arith)
                    requires
                        n == q,
                ;
                assert(total == capacity * q);
                assert(capacity * q == q * capacity) by (nonlinear_arith);
            } else {
                assert(n == q + 1);
                assert((n - 1) * capacity == q * capacity) by (nonlinear_arith)
                    requires
                        n == q + 1,
                ;
                assert(capacity * q == q * capacity) by (nonlinear_arith);
            }
        }
    }
}

} // verus!
