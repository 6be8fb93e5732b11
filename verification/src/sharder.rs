use std::collections::BTreeSet;

pub mod reference;

use vstd::multiset::Multiset;
use vstd::prelude::*;
use vstd::seq_lib::lemma_multiset_commutative;

use crate::lookup::{first_at_least, lemma_u64_keys_ordered, u64_keys_ordered};
use crate::order::{
    lemma_not_lt_transitive, lemma_sorted_unique, lemma_strictly_sorted_unique, sorted_by,
    strict_total_order, strictly_sorted_by,
};
use crate::plan::{
    arranged, bag, best_fit, capacity_ms, empty_shards, final_packing, fits, initial_shard_count,
    key_before, lemma_arranged_none, lemma_arranged_one, lemma_bag_all_empty, lemma_bag_push,
    lemma_bag_push_empty, lemma_bag_push_into, lemma_bag_single, lemma_bag_update,
    lemma_chosen_best_fit, lemma_chosen_fits, lemma_empty_multiset, lemma_empty_shards,
    lemma_key_order, lemma_longest, lemma_map_multiset, lemma_one_shard, lemma_place,
    lemma_place_all_step, lemma_shards_at_most_tests, lemma_total_bound, lemma_total_multiset,
    lemma_total_prefix, longest_ms, output_order, place, place_all, placement_order,
    planned_shards, shard_key_order, test_count, total_ms, well_formed, Packing,
};
use crate::test_case::{lemma_test_order, placed_before, test_less, test_lt, Test, TestView};

verus! {

/// The views of a sequence of tests.
pub open spec fn views(s: Seq<Test>) -> Seq<TestView> {
    s.map_values(|t: Test| t@)
}

/// Longest first when `longest_first`, shortest first otherwise.
pub open spec fn sort_order(longest_first: bool) -> spec_fn(TestView, TestView) -> bool {
    if longest_first {
        placed_before()
    } else {
        |a: TestView, b: TestView| test_lt(a, b)
    }
}

proof fn lemma_sort_orders(longest_first: bool)
    ensures
        strict_total_order(sort_order(longest_first)),
        forall|x: TestView, y: TestView| #[trigger]
            sort_order(longest_first)(x, y) == sort_order(!longest_first)(y, x),
{
    lemma_test_order();
}

/// Merges two runs sorted in the order opposite to `longest_first` into one
/// run sorted in that order, taking elements from the back of each run.
fn merge_runs(a: Vec<Test>, b: Vec<Test>, longest_first: bool) -> (out: Vec<Test>)
    requires
        sorted_by(views(a@), sort_order(!longest_first)),
        sorted_by(views(b@), sort_order(!longest_first)),
    ensures
        sorted_by(views(out@), sort_order(longest_first)),
        out@.to_multiset() == a@.to_multiset().add(b@.to_multiset()),
{
    let ghost lt = sort_order(longest_first);
    let ghost total = a@.to_multiset().add(b@.to_multiset());
    proof {
        lemma_sort_orders(longest_first);
    }
    let mut a = a;
    let mut b = b;
    let mut out: Vec<Test> = Vec::new();
    proof {
        out@.to_multiset_ensures();
        assert(out@.to_multiset().add(a@.to_multiset()).add(b@.to_multiset()) =~= total);
    }
    while a.len() > 0 || b.len() > 0
        invariant
            lt == sort_order(longest_first),
            strict_total_order(lt),
            forall|x: TestView, y: TestView| #[trigger] lt(x, y) == sort_order(!longest_first)(y, x),
            sorted_by(views(a@), sort_order(!longest_first)),
            sorted_by(views(b@), sort_order(!longest_first)),
            sorted_by(views(out@), lt),
            forall|i: int, k: int|
                0 <= i < a@.len() && 0 <= k < out@.len() ==> !lt(#[trigger] a@[i]@, #[trigger] out@[k]@),
            forall|i: int, k: int|
                0 <= i < b@.len() && 0 <= k < out@.len() ==> !lt(#[trigger] b@[i]@, #[trigger] out@[k]@),
            out@.to_multiset().add(a@.to_multiset()).add(b@.to_multiset()) == total,
        decreases a@.len() + b@.len(),
    {
        let take_a = if a.len() == 0 {
            false
        } else if b.len() == 0 {
            true
        } else {
            let x = &a[a.len() - 1];
            let y = &b[b.len() - 1];
            if longest_first {
                !test_less(x, y)
            } else {
                !test_less(y, x)
            }
        };
        let ghost a0 = a@;
        let ghost b0 = b@;
        let ghost out0 = out@;
        let e = if take_a {
            a.pop().unwrap()
        } else {
            b.pop().unwrap()
        };
        proof {
            if take_a {
                assert(a0 =~= a@.push(e));
                a@.to_multiset_ensures();
                // `e` is the first of what is left, in the order of `lt`.
                assert forall|i: int| 0 <= i < a@.len() implies !lt(#[trigger] a@[i]@, e@) by {
                    assert(views(a0)[i] == a0[i]@);
                    assert(views(a0)[a0.len() - 1] == e@);
                }
                if b@.len() > 0 {
                    assert(views(b@)[b@.len() - 1] == b@[b@.len() - 1]@);
                    assert(!lt(b@[b@.len() - 1]@, e@));
                    assert forall|i: int| 0 <= i < b@.len() implies !lt(#[trigger] b@[i]@, e@) by {
                        if i < b@.len() - 1 {
                            assert(views(b@)[i] == b@[i]@);
                            lemma_not_lt_transitive(lt, b@[i]@, b@[b@.len() - 1]@, e@);
                        }
                    }
                }
            } else {
                assert(b0 =~= b@.push(e));
                b@.to_multiset_ensures();
                assert forall|i: int| 0 <= i < b@.len() implies !lt(#[trigger] b@[i]@, e@) by {
                    assert(views(b0)[i] == b0[i]@);
                    assert(views(b0)[b0.len() - 1] == e@);
                }
                if a@.len() > 0 {
                    assert(views(a@)[a@.len() - 1] == a@[a@.len() - 1]@);
                    let last = a@[a@.len() - 1]@;
                    assert(lt(e@, last));
                    if lt(last, e@) {
                        assert(lt(e@, e@));
                    }
                    assert forall|i: int| 0 <= i < a@.len() implies !lt(#[trigger] a@[i]@, e@) by {
                        if i < a@.len() - 1 {
                            assert(views(a@)[i] == a@[i]@);
                            lemma_not_lt_transitive(lt, a@[i]@, a@[a@.len() - 1]@, e@);
                        }
                    }
                }
            }
        }
        out.push(e);
        proof {
            out0.to_multiset_ensures();
            assert(out@ == out0.push(e));
            assert(out@.to_multiset().add(a@.to_multiset()).add(b@.to_multiset()) =~= total);
            assert(sorted_by(views(a@), sort_order(!longest_first))) by {
                assert forall|i: int, j: int| 0 <= i < j < views(a@).len() implies !sort_order(
                    !longest_first,
                )(#[trigger] views(a@)[j], #[trigger] views(a@)[i]) by {
                    assert(views(a@)[j] == views(a0)[j]);
                    assert(views(a@)[i] == views(a0)[i]);
                }
            }
            assert(sorted_by(views(b@), sort_order(!longest_first))) by {
                assert forall|i: int, j: int| 0 <= i < j < views(b@).len() implies !sort_order(
                    !longest_first,
                )(#[trigger] views(b@)[j], #[trigger] views(b@)[i]) by {
                    assert(views(b@)[j] == views(b0)[j]);
                    assert(views(b@)[i] == views(b0)[i]);
                }
            }
            assert(sorted_by(views(out@), lt)) by {
                assert forall|i: int, j: int| 0 <= i < j < views(out@).len() implies !lt(
                    #[trigger] views(out@)[j],
                    #[trigger] views(out@)[i],
                ) by {
                    if j == out0.len() {
                        if take_a {
                            assert(!lt(a0[a0.len() - 1]@, out0[i]@));
                        } else {
                            assert(!lt(b0[b0.len() - 1]@, out0[i]@));
                        }
                    } else {
                        assert(views(out0)[j] == views(out@)[j]);
                        assert(views(out0)[i] == views(out@)[i]);
                    }
                }
            }
            assert forall|i: int, k: int|
                0 <= i < a@.len() && 0 <= k < out@.len() implies !lt(#[trigger] a@[i]@, #[trigger] out@[k]@) by {
                if k < out0.len() {
                    assert(a@[i] == a0[i]);
                }
            }
            assert forall|i: int, k: int|
                0 <= i < b@.len() && 0 <= k < out@.len() implies !lt(#[trigger] b@[i]@, #[trigger] out@[k]@) by {
                if k < out0.len() {
                    assert(b@[i] == b0[i]);
                }
            }
        }
    }
    proof {
        a@.to_multiset_ensures();
        b@.to_multiset_ensures();
        assert(out@.to_multiset() =~= total);
    }
    out
}

/// Sorts tests by merging sorted halves: longest first when `longest_first`,
/// shortest first otherwise.
pub(crate) fn merge_sort(v: Vec<Test>, longest_first: bool) -> (sorted: Vec<Test>)
    ensures
        sorted_by(views(sorted@), sort_order(longest_first)),
        sorted@.to_multiset() == v@.to_multiset(),
    decreases v@.len(),
{
    if v.len() <= 1 {
        return v;
    }
    let ghost whole = v@;
    let mut left = v;
    let mid = left.len() / 2;
    let right = left.split_off(mid);
    proof {
        assert(whole =~= left@ + right@);
        lemma_multiset_commutative(left@, right@);
    }
    let a = merge_sort(left, !longest_first);
    let b = merge_sort(right, !longest_first);
    merge_runs(a, b, longest_first)
}

/// Sorts tests longest first; equally long tests by identifier, last first.
fn sort_tests(tests: &mut Vec<Test>)
    ensures
        sorted_by(views(final(tests)@), placed_before()),
        final(tests)@.to_multiset() == old(tests)@.to_multiset(),
{
    let mut taken: Vec<Test> = Vec::new();
    std::mem::swap(&mut taken, tests);
    *tests = merge_sort(taken, true);
}

/// The key under which a shard with `remaining_ms` left is kept: the time
/// left in the high 32 bits and the shard index in the low 32 bits, so that
/// keys order shards by time left, then by index.
pub open spec fn shard_key(remaining_ms: int, shard_id: int) -> int {
    remaining_ms * 4294967296 + shard_id
}

/// The time left and the shard index that a key holds.
pub open spec fn key_parts(key: int) -> (int, int) {
    (key / 4294967296, key % 4294967296)
}

/// Keys order shards by time left, then by index; two shards share a key
/// only when they have the same time left and the same index.
pub proof fn lemma_shard_key_order(r1: int, i1: int, r2: int, i2: int)
    requires
        0 <= i1 <= u32::MAX,
        0 <= i2 <= u32::MAX,
    ensures
        shard_key(r1, i1) < shard_key(r2, i2) <==> (r1 < r2 || (r1 == r2 && i1 < i2)),
        shard_key(r1, i1) == shard_key(r2, i2) <==> (r1 == r2 && i1 == i2),
{
    if r1 < r2 {
        assert(shard_key(r1, i1) < shard_key(r2, i2)) by (nonlinear_arith)
            requires
                r1 < r2,
                0 <= i1 <= u32::MAX,
                0 <= i2,
        {}
    } else if r2 < r1 {
        assert(shard_key(r2, i2) < shard_key(r1, i1)) by (nonlinear_arith)
            requires
                r2 < r1,
                0 <= i2 <= u32::MAX,
                0 <= i1,
        {}
    }
}

/// Unpacking a packed key gives back the time left and the index.
pub proof fn lemma_unpack_packed(r: int, i: int)
    requires
        0 <= i <= u32::MAX,
        0 <= r,
    ensures
        key_parts(shard_key(r, i)) == (r, i),
{
    vstd::arithmetic::div_mod::lemma_fundamental_div_mod_converse(
        shard_key(r, i),
        4294967296,
        r,
        i,
    );
}

/// Packing the parts of any key gives back the key, and both parts of a
/// `u64` key fit in 32 bits.
pub proof fn lemma_pack_unpacked(key: int)
    requires
        0 <= key <= u64::MAX,
    ensures
        shard_key(key_parts(key).0, key_parts(key).1) == key,
        0 <= key_parts(key).0 <= u32::MAX,
        0 <= key_parts(key).1 <= u32::MAX,
{
    vstd::arithmetic::div_mod::lemma_fundamental_div_mod(key, 4294967296);
    assert(key / 4294967296 <= u32::MAX) by (nonlinear_arith)
        requires
            0 <= key <= u64::MAX,
    {
        vstd::arithmetic::div_mod::lemma_div_is_ordered(key, 18446744073709551615, 4294967296);
    }
}

fn pack_shard_key(remaining_ms: u32, shard_id: usize) -> (key: u64)
    requires
        shard_id <= u32::MAX,
    ensures
        key == shard_key(remaining_ms as int, shard_id as int),
{
    let r = remaining_ms as u64;
    let id = shard_id as u64;
    assert((r << 32u64) | id == r * 4294967296 + id) by (bit_vector)
        requires
            r <= 0xffff_ffff,
            id <= 0xffff_ffff,
    ;
    (r << 32) | id
}

fn unpack_shard_key(key: u64) -> (unpacked: (u32, usize))
    ensures
        (unpacked.0 as int, unpacked.1 as int) == key_parts(key as int),
{
    assert(key >> 32u64 == key / 4294967296) by (bit_vector);
    assert(key >> 32u64 <= 0xffff_ffff) by (bit_vector);
    assert(key as u32 == key % 4294967296) by (bit_vector);
    ((key >> 32) as u32, key as u32 as usize)
}

/// The longest duration and the total duration of the tests.
pub(crate) fn duration_totals(tests: &Vec<Test>) -> (totals: (u32, u64))
    requires
        total_ms(views(tests@)) <= u64::MAX,
    ensures
        totals.0 == longest_ms(views(tests@)),
        totals.1 == total_ms(views(tests@)),
{
    let ghost all = views(tests@);
    let mut longest: u32 = 0;
    let mut total: u64 = 0;
    let mut i: usize = 0;
    assert(all.take(0) =~= Seq::<TestView>::empty());
    while i < tests.len()
        invariant
            all == views(tests@),
            total_ms(all) <= u64::MAX,
            i <= tests@.len(),
            longest == longest_ms(all.take(i as int)),
            total == total_ms(all.take(i as int)),
        decreases tests@.len() - i,
    {
        let d = tests[i].duration_ms;
        let ghost prefix = all.take(i as int);
        assert(all.take(i + 1).drop_last() =~= prefix);
        assert(all.take(i + 1).last() == tests@[i as int]@);
        proof {
            lemma_total_prefix(all, i + 1);
        }
        if longest < d {
            longest = d;
        }
        total = total + d as u64;
        i = i + 1;
    }
    assert(all.take(i as int) =~= all);
    (longest, total)
}

/// The capacity of a shard and the number of shards to begin with.
pub(crate) fn shard_time_and_count(tests: &Vec<Test>, target_shard_time_ms: u32) -> (sizes: (
    u32,
    usize,
))
    requires
        total_ms(views(tests@)) <= u64::MAX,
        capacity_ms(views(tests@), target_shard_time_ms) > 0,
    ensures
        sizes.0 == capacity_ms(views(tests@), target_shard_time_ms),
        sizes.0 >= target_shard_time_ms,
        sizes.1 == initial_shard_count(views(tests@), target_shard_time_ms),
        sizes.1 <= tests@.len(),
        sizes.1 <= 1 ==> total_ms(views(tests@)) <= sizes.0,
        sizes.1 == 0 ==> total_ms(views(tests@)) == 0,
{
    let ghost input = views(tests@);
    let ghost len0 = tests@.len();
    let (longest_test_duration, total_duration) = duration_totals(tests);
    let shard_time_ms = if longest_test_duration < target_shard_time_ms {
        target_shard_time_ms
    } else {
        longest_test_duration
    };
    let ghost cap = shard_time_ms as int;
    let ghost tot = total_duration as int;
    proof {
        lemma_longest(input);
        lemma_total_bound(input, cap);
        assert(tot <= len0 * cap);
        assert(tot / cap <= len0) by (nonlinear_arith)
            requires
                tot <= len0 * cap,
                cap > 0,
        ;
        assert(tot / cap == len0 ==> tot % cap == 0) by (nonlinear_arith)
            requires
                tot <= len0 * cap,
                cap > 0,
        ;
        vstd::arithmetic::div_mod::lemma_fundamental_div_mod(tot, cap);
        if tot / cap == 0 {
            assert(tot == tot % cap) by (nonlinear_arith)
                requires
                    tot == cap * (tot / cap) + tot % cap,
                    tot / cap == 0,
            ;
        } else if tot / cap == 1 && tot % cap == 0 {
            assert(tot == cap) by (nonlinear_arith)
                requires
                    tot == cap * (tot / cap) + tot % cap,
                    tot / cap == 1,
                    tot % cap == 0,
            ;
        }
    }
    let extra: u64 = if total_duration % (shard_time_ms as u64) != 0 {
        1
    } else {
        0
    };
    let count = tests.len();
    assert(total_duration / (shard_time_ms as u64) == tot / cap);
    assert(total_duration / (shard_time_ms as u64) + extra <= count);
    let n64: u64 = total_duration / (shard_time_ms as u64) + extra;
    let n_shards = n64 as usize;
    (shard_time_ms, n_shards)
}

/// Placing the tests in ascending order from the back places them in
/// placement order.
pub(crate) proof fn lemma_placement_order(ascending: Seq<Test>, tests: Seq<Test>)
    requires
        sorted_by(views(ascending), sort_order(false)),
        ascending.to_multiset() == tests.to_multiset(),
    ensures
        ascending.len() == tests.len(),
        placement_order(views(tests)) == views(ascending).reverse(),
        forall|k: int|
            0 <= k < tests.len() ==> #[trigger] views(ascending).reverse()[k].duration_ms
                <= longest_ms(views(tests)),
{
    let input = views(tests);
    let order = views(ascending).reverse();
    let len0 = tests.len();
    lemma_test_order();
    ascending.to_multiset_ensures();
    tests.to_multiset_ensures();
    assert(ascending.len() == len0);
    let lt = |a: TestView, b: TestView| test_lt(a, b);
    assert(sorted_by(views(ascending), lt));
    assert(sorted_by(order, placed_before())) by {
        assert forall|i: int, j: int| 0 <= i < j < order.len() implies !placed_before()(
            #[trigger] order[j],
            #[trigger] order[i],
        ) by {
            let a = len0 - 1 - j;
            let b = len0 - 1 - i;
            assert(order[j] == views(ascending)[a]);
            assert(order[i] == views(ascending)[b]);
            assert(!lt(views(ascending)[b], views(ascending)[a]));
        }
    }
    lemma_map_multiset(ascending, tests, |t: Test| t@);
    views(ascending).lemma_reverse_to_multiset();
    let o = placement_order(input);
    assert(sorted_by(o, placed_before()) && o.to_multiset() == input.to_multiset());
    lemma_sorted_unique(o, order, placed_before());
    order.to_multiset_ensures();
    input.to_multiset_ensures();
    lemma_longest(input);
    assert forall|k: int| 0 <= k < len0 implies #[trigger] order[k].duration_ms <= longest_ms(
        input,
    ) by {
        assert(order.contains(order[k]));
        assert(order.to_multiset().count(order[k]) > 0);
        assert(input.contains(order[k]));
    }
}

/// The contents of each shard.
pub open spec fn shard_values(s: Seq<Vec<Test>>) -> Seq<Seq<Test>> {
    s.map_values(|v: Vec<Test>| v@)
}

/// The views of the contents of each shard.
pub open spec fn shard_views(s: Seq<Vec<Test>>) -> Seq<Seq<TestView>> {
    s.map_values(|v: Vec<Test>| views(v@))
}

spec fn remaining_view(r: Seq<u32>) -> Seq<int> {
    r.map_values(|x: u32| x as int)
}

/// `key` is the key of a shard with time left: such shards are the ones
/// kept in the set of shards available for more tests.
spec fn in_available(p: Packing, key: int) -> bool {
    let id = key % 4294967296;
    let r = key / 4294967296;
    &&& 0 <= id < p.remaining.len()
    &&& p.remaining[id] > 0
    &&& r == p.remaining[id]
}

/// `lowest` is the least index of a full shard, or there is none.
spec fn lowest_full(p: Packing, lowest: Option<usize>) -> bool {
    match lowest {
        Some(k) => {
            &&& k < p.remaining.len()
            &&& p.remaining[k as int] == 0
            &&& forall|j: int| 0 <= j < k ==> p.remaining[j] != 0
        },
        None => forall|j: int| 0 <= j < p.remaining.len() ==> p.remaining[j] != 0,
    }
}

/// The shards, the time each has left, the set of keys of shards with time
/// left, and the lowest full shard are those of the packing `p`.
spec fn tracks(
    p: Packing,
    shards: Seq<Vec<Test>>,
    remaining: Seq<u32>,
    available: Set<u64>,
    lowest_completed: Option<usize>,
) -> bool {
    &&& shard_views(shards) == p.shards
    &&& remaining_view(remaining) == p.remaining
    &&& shards.len() == remaining.len()
    &&& forall|x: u64| #[trigger] available.contains(x) <==> in_available(p, x as int)
    &&& lowest_full(p, lowest_completed)
}

/// Places one test, as `place` does on the packing that the state tracks.
fn place_test(
    test: Test,
    shards: &mut Vec<Vec<Test>>,
    remaining: &mut Vec<u32>,
    available: &mut BTreeSet<u64>,
    lowest_completed: &mut Option<usize>,
    shard_time_ms: u32,
    Ghost(p): Ghost<Packing>,
    Ghost(limit): Ghost<int>,
)
    requires
        tracks(p, old(shards)@, old(remaining)@, old(available)@, *old(lowest_completed)),
        well_formed(p, shard_time_ms as int),
        shard_time_ms > 0,
        test.duration_ms <= shard_time_ms,
        test_count(p.shards) < limit <= u32::MAX,
        p.shards.len() <= limit,
        u64_keys_ordered(),
    ensures
        tracks(
            place(p, test@, shard_time_ms as int),
            final(shards)@,
            final(remaining)@,
            final(available)@,
            *final(lowest_completed),
        ),
        bag(shard_values(final(shards)@)) == bag(shard_values(old(shards)@)).insert(test),
        final(shards)@.len() <= limit,
{
    broadcast use vstd::std_specs::btree::group_btree_axioms;

    let ghost cap = shard_time_ms as int;
    let ghost t = test@;
    let test_duration = test.duration_ms;
    let ghost d = test_duration as int;
    let ghost np = place(p, t, cap);
    let ghost old_values = shard_values(shards@);
    proof {
        lemma_place(p, t, cap);
        lemma_chosen_fits(p, d);
    }
    // Zero-duration tests must still choose the lowest-ID full shard.
    if test_duration == 0 && lowest_completed.is_some() {
        let shard_id = lowest_completed.unwrap();
        proof {
            assert(best_fit(p, 0, shard_id as int)) by {
                assert forall|j: int| #[trigger] fits(p, 0, j) implies !key_before(p, j, shard_id as int) by {
                    if key_before(p, j, shard_id as int) {
                        assert(p.remaining[j] >= 0);
                    }
                }
            }
            lemma_chosen_best_fit(p, 0, shard_id as int);
        }
        let ghost before = shards@;
        shards[shard_id].push(test);
        proof {
            assert(shards@.len() == before.len());
            assert(shards@[shard_id as int]@ == before[shard_id as int]@.push(test));
            assert(forall|k: int| 0 <= k < before.len() && k != shard_id ==> shards@[k] == before[k]);
            assert(shard_values(shards@) =~= old_values.update(shard_id as int, old_values[shard_id as int].push(test)));
            lemma_bag_push_into(old_values, shard_id as int, test);
            assert(views(before[shard_id as int]@.push(test)) =~= views(before[shard_id as int]@).push(t));
            assert(shard_views(shards@) =~= np.shards);
            assert(remaining_view(remaining@) =~= np.remaining);
        }
        return;
    }
    let lower = pack_shard_key(test_duration, 0);
    proof {
        lemma_unpack_packed(d, 0);
    }
    let found = first_at_least(available, lower);
    let ghost len = p.remaining.len();
    let remaining_ms: u32;
    let shard_id: usize;
    if let Some(key) = found {
        let unpacked = unpack_shard_key(key);
        remaining_ms = unpacked.0;
        shard_id = unpacked.1;
        proof {
            let sid = shard_id as int;
            assert(in_available(p, key as int));
            assert(fits(p, d, sid));
            assert(best_fit(p, d, sid)) by {
                assert forall|j: int| #[trigger] fits(p, d, j) implies !key_before(p, j, sid) by {
                    if p.remaining[j] > 0 {
                        lemma_unpack_packed(p.remaining[j], j);
                        let xj = shard_key(p.remaining[j], j);
                        assert(0 <= xj <= u64::MAX);
                        assert(in_available(p, (xj as u64) as int));
                        assert(available@.contains(xj as u64));
                        assert(key <= xj);
                    } else {
                        assert(d == 0);
                        assert(lowest_completed.is_none());
                        assert(p.remaining[j] != 0);
                    }
                }
            }
            lemma_chosen_best_fit(p, d, sid);
        }
        available.remove(&key);
    } else {
        proof {
            assert forall|j: int| !fits(p, d, j) by {
                if 0 <= j < len && p.remaining[j] >= d {
                    if p.remaining[j] > 0 {
                        lemma_unpack_packed(p.remaining[j], j);
                        let xj = shard_key(p.remaining[j], j);
                        assert(in_available(p, (xj as u64) as int));
                        assert(available@.contains(xj as u64));
                    } else {
                        assert(d == 0);
                        assert(lowest_completed.is_none());
                        assert(p.remaining[j] != 0);
                    }
                }
            }
            // No shard has room, so none is empty, and there are no more
            // shards than tests placed so far.
            assert forall|k: int| 0 <= k < p.shards.len() implies #[trigger] p.shards[k].len() > 0 by {
                assert(!fits(p, d, k));
                if p.shards[k].len() == 0 {
                    assert(total_ms(p.shards[k]) == 0);
                }
            }
            lemma_shards_at_most_tests(p.shards);
        }
        shard_id = shards.len();
        let ghost before = shards@;
        shards.push(Vec::new());
        remaining.push(shard_time_ms);
        remaining_ms = shard_time_ms;
        proof {
            assert(shard_values(shards@) =~= old_values.push(Seq::<Test>::empty()));
            lemma_bag_push_empty(old_values);
            assert(views(shards@[shard_id as int]@) =~= Seq::<TestView>::empty());
            assert(shard_views(shards@) =~= shard_views(before).push(Seq::<TestView>::empty()));
        }
    }
    let ghost mid_values = shard_values(shards@);
    let ghost mid = shards@;
    shards[shard_id].push(test);
    let remaining_ms = remaining_ms - test_duration;
    remaining.set(shard_id, remaining_ms);
    if remaining_ms == 0 {
        let lowest = match *lowest_completed {
            Some(old_id) => if old_id < shard_id {
                old_id
            } else {
                shard_id
            },
            None => shard_id,
        };
        *lowest_completed = Some(lowest);
    } else {
        proof {
            lemma_unpack_packed(remaining_ms as int, shard_id as int);
        }
        available.insert(pack_shard_key(remaining_ms, shard_id));
    }
    proof {
        let sid = shard_id as int;
        assert(shards@[sid]@ == mid[sid]@.push(test));
        assert(shard_values(shards@) =~= mid_values.update(sid, mid_values[sid].push(test)));
        lemma_bag_push_into(mid_values, sid, test);
        assert(views(mid[sid]@.push(test)) =~= views(mid[sid]@).push(t));
        assert(shard_views(shards@) =~= shard_views(mid).update(sid, views(mid[sid]@).push(t)));
        if sid < len {
            assert(shard_views(mid) == p.shards);
            assert(remaining_view(remaining@) =~= np.remaining);
        } else {
            assert(shard_views(mid) =~= p.shards.push(Seq::<TestView>::empty()));
            assert(views(mid[sid]@) =~= Seq::<TestView>::empty());
            assert(seq![t] =~= Seq::<TestView>::empty().push(t));
            assert(np.shards =~= p.shards.push(Seq::<TestView>::empty()).update(sid, seq![t]));
            assert(remaining_view(remaining@) =~= np.remaining);
        }
        assert(shard_views(shards@) =~= np.shards);
        assert forall|x: u64| #[trigger] available@.contains(x) <==> in_available(np, x as int) by {
            let id = (x as int) % 4294967296;
            if id == sid {
            }
        }
    }
}

/// Moves shard `j` to the end of `collected`, leaving it empty.
fn take_shard(
    shards: &mut Vec<Vec<Test>>,
    collected: &mut Vec<Vec<Test>>,
    j: usize,
    Ghost(total): Ghost<Multiset<Test>>,
)
    requires
        j < old(shards)@.len(),
        bag(shard_values(old(collected)@)).add(bag(shard_values(old(shards)@))) == total,
    ensures
        final(shards)@.len() == old(shards)@.len(),
        final(shards)@[j as int]@.len() == 0,
        forall|k: int| 0 <= k < old(shards)@.len() && k != j ==> final(shards)@[k] == old(shards)@[k],
        final(collected)@ == old(collected)@.push(old(shards)@[j as int]),
        bag(shard_values(final(collected)@)).add(bag(shard_values(final(shards)@))) == total,
{
    broadcast use vstd::multiset::group_multiset_axioms;

    let ghost before_values = shard_values(shards@);
    let ghost before_collected = shard_values(collected@);
    let mut taken: Vec<Test> = Vec::new();
    std::mem::swap(&mut taken, &mut shards[j]);
    proof {
        assert(shard_values(shards@) =~= before_values.update(j as int, Seq::<Test>::empty()));
        lemma_bag_update(before_values, j as int, Seq::<Test>::empty());
        lemma_empty_multiset(Seq::<Test>::empty());
    }
    collected.push(taken);
    proof {
        assert(shard_values(collected@) =~= before_collected.push(taken@));
        lemma_bag_push(before_collected, taken@);
        assert(taken@ == before_values[j as int]);
        let tm = taken@.to_multiset();
        assert(bag(shard_values(shards@)).add(tm) == bag(before_values).add(Multiset::<Test>::empty()));
        assert forall|v: Test| #[trigger] bag(shard_values(collected@)).add(
            bag(shard_values(shards@)),
        ).count(v) == total.count(v) by {
            assert(bag(shard_values(shards@)).add(tm).count(v) == bag(before_values).count(v));
        }
        assert(bag(shard_values(collected@)).add(bag(shard_values(shards@))) =~= total);
    }
}

/// Once shard `j` is taken and its index listed, every listed shard is
/// empty and every other shard still holds what the packing says.
proof fn lemma_taken_shards(
    p: Packing,
    before: Seq<Vec<Test>>,
    after: Seq<Vec<Test>>,
    listed: Seq<int>,
    j: int,
)
    requires
        0 <= j < before.len(),
        after.len() == before.len(),
        after[j]@.len() == 0,
        forall|k: int| 0 <= k < before.len() && k != j ==> after[k] == before[k],
        !listed.contains(j),
        forall|k: int| 0 <= k < before.len() && listed.contains(k) ==> (#[trigger] before[k])@.len() == 0,
        forall|k: int| 0 <= k < before.len() && !listed.contains(k) ==> views((#[trigger] before[k])@)
            == p.shards[k],
    ensures
        forall|k: int|
            0 <= k < after.len() && listed.push(j).contains(k) ==> (#[trigger] after[k])@.len() == 0,
        forall|k: int|
            0 <= k < after.len() && !listed.push(j).contains(k) ==> views((#[trigger] after[k])@)
                == p.shards[k],
{
    let ids = listed.push(j);
    assert(ids[ids.len() - 1] == j);
    assert forall|k: int| 0 <= k < after.len() && ids.contains(k) implies (#[trigger] after[k])@.len()
        == 0 by {
        if k != j {
            let m = choose|m: int| 0 <= m < ids.len() && ids[m] == k;
            assert(m < listed.len());
            assert(listed[m] == k);
            assert(listed.contains(k));
        }
    }
    assert forall|k: int| 0 <= k < after.len() && !ids.contains(k) implies views(
        (#[trigger] after[k])@,
    ) == p.shards[k] by {
        assert(k != j);
        if listed.contains(k) {
            let m = choose|m: int| 0 <= m < listed.len() && listed[m] == k;
            assert(ids[m] == k);
        }
    }
}

proof fn lemma_available_order(p: Packing, x: int, y: int)
    requires
        0 <= x <= u64::MAX,
        0 <= y <= u64::MAX,
        in_available(p, x),
        in_available(p, y),
        x < y,
    ensures
        key_before(p, x % 4294967296, y % 4294967296),
{
    lemma_pack_unpacked(x);
    lemma_pack_unpacked(y);
    lemma_shard_key_order(key_parts(x).0, key_parts(x).1, key_parts(y).0, key_parts(y).1);
}

/// Lists the shards: the full ones by index, then the others by time left,
/// lowest index first among equals.
fn collect_shards(
    shards: Vec<Vec<Test>>,
    remaining: &Vec<u32>,
    available: &BTreeSet<u64>,
    Ghost(p): Ghost<Packing>,
) -> (collected: Vec<Vec<Test>>)
    requires
        shard_views(shards@) == p.shards,
        remaining_view(remaining@) == p.remaining,
        shards@.len() == remaining@.len(),
        shards@.len() <= u32::MAX,
        forall|x: u64| #[trigger] available@.contains(x) <==> in_available(p, x as int),
    ensures
        shard_views(collected@) == arranged(p),
        bag(shard_values(collected@)) == bag(shard_values(shards@)),
{
    broadcast use vstd::multiset::group_multiset_axioms;

    let ghost n = shards@.len() as int;
    let ghost total = bag(shard_values(shards@));
    let ghost lt = shard_key_order(p);
    let mut shards = shards;
    let mut collected: Vec<Vec<Test>> = Vec::new();
    let ghost mut ids: Seq<int> = Seq::empty();
    proof {
        lemma_key_order(p);
        assert(shard_values(collected@) =~= Seq::<Seq<Test>>::empty());
    }
    let mut id: usize = 0;
    while id < shards.len()
        invariant
            n == shards@.len(),
            n == remaining@.len(),
            n <= u32::MAX,
            id <= n,
            remaining_view(remaining@) == p.remaining,
            p.shards.len() == n,
            strict_total_order(lt),
            lt == shard_key_order(p),
            ids.len() == collected@.len(),
            strictly_sorted_by(ids, lt),
            forall|k: int|
                0 <= k < ids.len() ==> 0 <= #[trigger] ids[k] < id && p.remaining[ids[k]] == 0,
            forall|k: int|
                0 <= k < ids.len() ==> views(#[trigger] collected@[k]@) == p.shards[ids[k]],
            forall|j: int| 0 <= j < id && p.remaining[j] == 0 ==> ids.contains(j),
            forall|j: int| 0 <= j < n && ids.contains(j) ==> (#[trigger] shards@[j])@.len() == 0,
            forall|j: int| 0 <= j < n && !ids.contains(j) ==> views((#[trigger] shards@[j])@) == p.shards[j],
            bag(shard_values(collected@)).add(bag(shard_values(shards@))) == total,
        decreases n - id,
    {
        if remaining[id] == 0 {
            let ghost before = shards@;
            take_shard(&mut shards, &mut collected, id, Ghost(total));
            proof {
                let j = id as int;
                assert(remaining_view(remaining@)[j] == 0);
                let old_ids = ids;
                assert(!old_ids.contains(j));
                ids = ids.push(j);
                assert forall|a: int, b: int| 0 <= a < b < ids.len() implies lt(
                    #[trigger] ids[a],
                    #[trigger] ids[b],
                ) by {
                    if b < old_ids.len() {
                        assert(ids[a] == old_ids[a] && ids[b] == old_ids[b]);
                    } else {
                        assert(ids[a] == old_ids[a]);
                        assert(ids[a] < j);
                    }
                }
                assert forall|jj: int| 0 <= jj < id + 1 && p.remaining[jj] == 0 implies ids.contains(
                    jj,
                ) by {
                    if jj < id {
                        assert(old_ids.contains(jj));
                        let k = choose|k: int| 0 <= k < old_ids.len() && old_ids[k] == jj;
                        assert(ids[k] == jj);
                    } else {
                        assert(ids[ids.len() - 1] == jj);
                    }
                }
                lemma_taken_shards(p, before, shards@, old_ids, j);
            }
        }
        id = id + 1;
    }

    let keys = crate::lookup::ascending_keys(available);
    let ghost ids1 = ids;
    let ghost c1 = ids.len();
    proof {
        assert forall|k: int, r: int| 0 <= k < ids.len() && 0 <= r < keys@.len() implies lt(
            #[trigger] ids[k],
            (#[trigger] keys@[r]) as int % 4294967296,
        ) by {
            assert(keys@.contains(keys@[r]));
            assert(keys@.to_set().contains(keys@[r]));
            assert(in_available(p, keys@[r] as int));
        }
    }
    let mut m: usize = 0;
    while m < keys.len()
        invariant
            n == shards@.len(),
            n == remaining@.len(),
            n <= u32::MAX,
            remaining_view(remaining@) == p.remaining,
            p.shards.len() == n,
            strict_total_order(lt),
            lt == shard_key_order(p),
            keys@.to_set() == available@,
            forall|a: int, b: int| 0 <= a < b < keys@.len() ==> keys@[a] < keys@[b],
            forall|x: u64| #[trigger] available@.contains(x) <==> in_available(p, x as int),
            m <= keys@.len(),
            ids.len() == collected@.len(),
            ids.len() == c1 + m,
            c1 == ids1.len(),
            forall|k: int| 0 <= k < c1 ==> ids[k] == ids1[k],
            forall|k: int| 0 <= k < c1 ==> p.remaining[#[trigger] ids1[k]] == 0,
            forall|j: int| 0 <= j < n && p.remaining[j] == 0 ==> ids1.contains(j),
            forall|r: int| 0 <= r < m ==> ids[c1 + r] == (#[trigger] keys@[r]) as int % 4294967296,
            forall|k: int| 0 <= k < ids.len() ==> 0 <= #[trigger] ids[k] < n,
            strictly_sorted_by(ids, lt),
            forall|k: int, r: int|
                0 <= k < ids.len() && m <= r < keys@.len() ==> lt(
                    #[trigger] ids[k],
                    (#[trigger] keys@[r]) as int % 4294967296,
                ),
            forall|k: int|
                0 <= k < ids.len() ==> views(#[trigger] collected@[k]@) == p.shards[ids[k]],
            forall|j: int| 0 <= j < n && ids.contains(j) ==> (#[trigger] shards@[j])@.len() == 0,
            forall|j: int| 0 <= j < n && !ids.contains(j) ==> views((#[trigger] shards@[j])@) == p.shards[j],
            bag(shard_values(collected@)).add(bag(shard_values(shards@))) == total,
        decreases keys@.len() - m,
    {
        let key = keys[m];
        let unpacked = unpack_shard_key(key);
        let shard_id = unpacked.1;
        let ghost before = shards@;
        let ghost sid = shard_id as int;
        proof {
            assert(keys@.contains(key));
            assert(keys@.to_set().contains(key));
            assert(in_available(p, key as int));
            assert(!ids.contains(sid)) by {
                if ids.contains(sid) {
                    let k = choose|k: int| 0 <= k < ids.len() && ids[k] == sid;
                    assert(lt(ids[k], keys@[m as int] as int % 4294967296));
                }
            }
        }
        take_shard(&mut shards, &mut collected, shard_id, Ghost(total));
        proof {
            let old_ids = ids;
            ids = ids.push(sid);
            assert forall|a: int, b: int| 0 <= a < b < ids.len() implies lt(
                #[trigger] ids[a],
                #[trigger] ids[b],
            ) by {
                if b < old_ids.len() {
                    assert(ids[a] == old_ids[a] && ids[b] == old_ids[b]);
                } else {
                    assert(ids[a] == old_ids[a]);
                    assert(lt(old_ids[a], keys@[m as int] as int % 4294967296));
                }
            }
            assert forall|k: int, r: int|
                0 <= k < ids.len() && m + 1 <= r < keys@.len() implies lt(
                    #[trigger] ids[k],
                    (#[trigger] keys@[r]) as int % 4294967296,
                ) by {
                if k < old_ids.len() {
                    assert(ids[k] == old_ids[k]);
                } else {
                    assert(keys@.contains(keys@[r]));
                    assert(keys@.to_set().contains(keys@[r]));
                    assert(in_available(p, keys@[r] as int));
                    lemma_available_order(p, key as int, keys@[r] as int);
                }
            }
            lemma_taken_shards(p, before, shards@, old_ids, sid);
            assert forall|r: int| 0 <= r < m + 1 implies ids[c1 + r] == (#[trigger] keys@[r]) as int
                % 4294967296 by {
                if r < m {
                    assert(ids[c1 + r] == old_ids[c1 + r]);
                }
            }
            assert forall|k: int| 0 <= k < c1 implies ids[k] == ids1[k] by {
                assert(ids[k] == old_ids[k]);
            }
        }
        m = m + 1;
    }
    proof {
        let all = Set::new(|i: int| 0 <= i < n);
        assert(ids.to_set() =~= all) by {
            assert forall|j: int| all.contains(j) implies ids.to_set().contains(j) by {
                if p.remaining[j] == 0 {
                    assert(ids1.contains(j));
                    let k = choose|k: int| 0 <= k < ids1.len() && ids1[k] == j;
                    assert(ids[k] == j);
                } else {
                    lemma_unpack_packed(p.remaining[j], j);
                    let x = shard_key(p.remaining[j], j);
                    assert(in_available(p, (x as u64) as int));
                    assert(available@.contains(x as u64));
                    assert(keys@.to_set().contains(x as u64));
                    assert(keys@.contains(x as u64));
                    let r = choose|r: int| 0 <= r < keys@.len() && keys@[r] == x as u64;
                    assert(ids[c1 + r] == j);
                }
                assert(ids.contains(j));
            }
            assert forall|j: int| ids.to_set().contains(j) implies all.contains(j) by {
                assert(ids.contains(j));
                let k = choose|k: int| 0 <= k < ids.len() && ids[k] == j;
            }
        }
        let o = output_order(p);
        assert(strictly_sorted_by(o, lt) && o.to_set() == all);
        lemma_strictly_sorted_unique(o, ids, lt);
        assert(shard_views(collected@) =~= arranged(p));
        assert forall|j: int| 0 <= j < n implies (#[trigger] shard_values(shards@)[j]).len() == 0 by {
            assert(ids.to_set().contains(j));
            assert(ids.contains(j));
        }
        lemma_bag_all_empty(shard_values(shards@));
        assert(bag(shard_values(collected@)) =~= total);
    }
    collected
}

/// Splits tests into shards of about `target_shard_time_ms` each.
///
/// A shard holds at most the target time, or the longest test's time if
/// that is longer. Tests are placed longest first, each into the shard
/// with the least time left that still has room for it; the count of
/// shards starts at the total time divided by the capacity, rounded up,
/// and a shard is added whenever no shard has room. Full shards come
/// first, then the others by time left.
pub fn shard_tests(tests: Vec<Test>, target_shard_time_ms: u32) -> (shards: Vec<Vec<Test>>)
    requires
        tests@.len() <= u32::MAX,
        capacity_ms(views(tests@), target_shard_time_ms) > 0,
    ensures
        shard_views(shards@) == planned_shards(views(tests@), target_shard_time_ms),
        bag(shard_values(shards@)) == tests@.to_multiset(),
{
    broadcast use vstd::std_specs::btree::group_btree_axioms;

    proof {
        lemma_u64_keys_ordered();
    }

    let ghost input = views(tests@);
    let ghost len0 = tests@.len();
    let ghost all_tests = tests@.to_multiset();
    proof {
        assert forall|k: int| 0 <= k < input.len() implies #[trigger] input[k].duration_ms
            <= u32::MAX by {}
        lemma_total_bound(input, u32::MAX as int);
        assert(len0 * u32::MAX <= u64::MAX) by (nonlinear_arith)
            requires
                len0 <= u32::MAX,
        ;
    }
    let (shard_time_ms, n_shards) = shard_time_and_count(&tests, target_shard_time_ms);
    let ghost cap = shard_time_ms as int;

    // With at most one shard, sorted input is already the complete result.
    if n_shards <= 1 {
        if tests.len() == 0 {
            proof {
                let o = placement_order(input);
                assert(input =~= Seq::<TestView>::empty());
                assert(sorted_by(input, placed_before()));
                o.to_multiset_ensures();
                input.to_multiset_ensures();
                assert(o.len() == 0);
                lemma_arranged_none(final_packing(input, target_shard_time_ms));
                lemma_empty_multiset(tests@);
            }
            let shards: Vec<Vec<Test>> = Vec::new();
            proof {
                assert(shard_values(shards@) =~= Seq::<Seq<Test>>::empty());
            }
            return shards;
        }
        let ghost unsorted = tests@;
        let mut tests = tests;
        sort_tests(&mut tests);
        proof {
            let order = views(tests@);
            tests@.to_multiset_ensures();
            unsorted.to_multiset_ensures();
            assert(order.len() > 0);
            lemma_map_multiset(tests@, unsorted, |t: Test| t@);
            lemma_test_order();
            let o = placement_order(input);
            assert(sorted_by(o, placed_before()) && o.to_multiset() == input.to_multiset());
            lemma_sorted_unique(o, order, placed_before());
            lemma_total_multiset(order, input);
            lemma_one_shard(order, n_shards as nat, cap);
            lemma_arranged_one(final_packing(input, target_shard_time_ms));
        }
        let mut shards: Vec<Vec<Test>> = Vec::new();
        shards.push(tests);
        proof {
            assert(shard_views(shards@) =~= seq![views(shards@[0]@)]);
            assert(shard_values(shards@).drop_last() =~= Seq::<Seq<Test>>::empty());
            assert(shard_values(shards@) =~= seq![tests@]);
            lemma_bag_single(tests@);
        }
        return shards;
    }

    let mut shards: Vec<Vec<Test>> = Vec::new();
    let mut remaining: Vec<u32> = Vec::new();
    let mut available: BTreeSet<u64> = BTreeSet::new();
    let mut opened: usize = 0;
    proof {
        lemma_empty_shards(0, cap);
        assert(shard_views(shards@) =~= empty_shards(0, cap).shards);
        assert(remaining_view(remaining@) =~= empty_shards(0, cap).remaining);
        assert(shard_values(shards@) =~= Seq::<Seq<Test>>::empty());
    }
    while opened < n_shards
        invariant
            n_shards <= len0 <= u32::MAX,
            opened <= n_shards,
            cap == shard_time_ms,
            cap > 0,
            shard_views(shards@) == empty_shards(opened as nat, cap).shards,
            remaining_view(remaining@) == empty_shards(opened as nat, cap).remaining,
            shards@.len() == opened,
            remaining@.len() == opened,
            bag(shard_values(shards@)) == Multiset::<Test>::empty(),
            forall|x: u64| #[trigger]
                available@.contains(x) <==> in_available(empty_shards(opened as nat, cap), x as int),
            u64_keys_ordered(),
        decreases n_shards - opened,
    {
        let ghost old_values = shard_values(shards@);
        let ghost old_views = shard_views(shards@);
        let ghost old_rem = remaining_view(remaining@);
        let key = pack_shard_key(shard_time_ms, opened);
        proof {
            lemma_unpack_packed(cap, opened as int);
        }
        shards.push(Vec::new());
        remaining.push(shard_time_ms);
        available.insert(key);
        opened = opened + 1;
        proof {
            let e = empty_shards(opened as nat, cap);
            let e0 = empty_shards((opened - 1) as nat, cap);
            assert(views(shards@[opened - 1]@) =~= Seq::<TestView>::empty());
            assert(shard_views(shards@) =~= old_views.push(Seq::<TestView>::empty()));
            assert(e.shards =~= e0.shards.push(Seq::<TestView>::empty()));
            assert(shard_views(shards@) =~= e.shards);
            assert(remaining_view(remaining@) =~= old_rem.push(cap));
            assert(e.remaining =~= e0.remaining.push(cap));
            assert(remaining_view(remaining@) =~= e.remaining);
            assert(shard_values(shards@) =~= old_values.push(Seq::<Test>::empty()));
            lemma_bag_push_empty(old_values);
            assert forall|x: u64| #[trigger]
                available@.contains(x) <==> in_available(e, x as int) by {
                if x as int == key as int {
                    assert(in_available(e, x as int));
                }
            }
        }
    }

    // Shortest first, so that popping from the back yields the longest first.
    let mut queue = merge_sort(tests, false);
    let ghost q0 = queue@;
    let ghost order = views(q0).reverse();
    let ghost start = empty_shards(n_shards as nat, cap);
    proof {
        lemma_placement_order(q0, tests@);
        assert(final_packing(input, target_shard_time_ms) == place_all(order, start, cap));
        assert(order.take(0) =~= Seq::<TestView>::empty());
        lemma_empty_shards(n_shards as nat, cap);
        assert(bag(shard_values(shards@)).add(queue@.to_multiset()) =~= all_tests) by {
            broadcast use vstd::multiset::group_multiset_axioms;

        }
    }
    let mut lowest_completed: Option<usize> = None;
    let ghost mut done: int = 0;
    while queue.len() > 0
        invariant
            0 <= done <= len0,
            queue@.len() + done == len0,
            forall|k: int| 0 <= k < queue@.len() ==> queue@[k] == q0[k],
            q0.len() == len0,
            order == views(q0).reverse(),
            forall|k: int| 0 <= k < len0 ==> #[trigger] order[k].duration_ms <= cap,
            tracks(
                place_all(order.take(done), start, cap),
                shards@,
                remaining@,
                available@,
                lowest_completed,
            ),
            well_formed(place_all(order.take(done), start, cap), cap),
            test_count(place_all(order.take(done), start, cap).shards) == done,
            shards@.len() <= len0,
            bag(shard_values(shards@)).add(queue@.to_multiset()) == all_tests,
            cap == shard_time_ms,
            cap > 0,
            len0 <= u32::MAX,
            u64_keys_ordered(),
        decreases queue@.len(),
    {
        let ghost p = place_all(order.take(done), start, cap);
        let ghost qb = queue@;
        let test = queue.pop().unwrap();
        proof {
            assert(qb =~= queue@.push(test));
            assert(test == q0[len0 - 1 - done]);
            assert(test@ == order[done]);
            lemma_place_all_step(order, start, cap, done);
            lemma_place(p, test@, cap);
        }
        place_test(
            test,
            &mut shards,
            &mut remaining,
            &mut available,
            &mut lowest_completed,
            shard_time_ms,
            Ghost(p),
            Ghost(len0 as int),
        );
        proof {
            done = done + 1;
            queue@.to_multiset_ensures();
            assert(bag(shard_values(shards@)).add(queue@.to_multiset()) =~= all_tests) by {
                broadcast use vstd::multiset::group_multiset_axioms;

            }
        }
    }
    proof {
        assert(order.take(done) =~= order);
        queue@.to_multiset_ensures();
        lemma_empty_multiset(queue@);
        assert(bag(shard_values(shards@)) =~= all_tests) by {
            broadcast use vstd::multiset::group_multiset_axioms;

        }
    }
    // Full shards precede all shards with remaining capacity in the result.
    collect_shards(shards, &remaining, &available, Ghost(place_all(order, start, cap)))
}

} // verus!
