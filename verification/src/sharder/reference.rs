//! A simpler sharding that keeps every shard in one map keyed by time left
//! and index; it places tests exactly as `sharder::shard_tests` does, and
//! serves as a point of comparison for it.
use std::collections::BTreeMap;

use vstd::multiset::Multiset;
use vstd::prelude::*;

use crate::lookup::{first_key_at_least, lemma_pair_keys_ordered, pair_keys_ordered, pair_lt};
use crate::order::{lemma_strictly_sorted_unique, strict_total_order, strictly_sorted_by};
use crate::plan::{
    arranged, bag, best_fit, capacity_ms, empty_shards, final_packing, fits, key_before,
    lemma_bag_all_empty, lemma_bag_push, lemma_bag_push_into, lemma_bag_update,
    lemma_chosen_best_fit, lemma_chosen_fits, lemma_chosen_none, lemma_empty_multiset,
    lemma_empty_shards, lemma_key_order, lemma_place, lemma_place_all_step, output_order, place,
    place_all, planned_shards, shard_key_order, total_ms, well_formed, Packing,
};
use crate::sharder::{
    lemma_placement_order, merge_sort, shard_time_and_count, shard_values, shard_views, views,
};
use crate::test_case::{Test, TestView};

verus! {

/// The map holds, under key `(r, i)`, the tests of shard `i` when `r` is
/// the time that shard has left; `contents` lists those tests by index.
spec fn keyed(p: Packing, contents: Seq<Seq<Test>>, map: Map<(u32, usize), Vec<Test>>) -> bool {
    &&& contents.len() == p.shards.len()
    &&& forall|i: int| 0 <= i < contents.len() ==> views(#[trigger] contents[i]) == p.shards[i]
    &&& forall|k: (u32, usize)| #[trigger]
        map.contains_key(k) <==> (k.1 < p.shards.len() && k.0 == p.remaining[k.1 as int])
    &&& forall|k: (u32, usize)| #[trigger] map.contains_key(k) ==> map[k]@ == contents[k.1 as int]
    &&& map.dom().len() == p.shards.len()
}

/// Splits tests into shards as the faster `sharder::shard_tests` does,
/// keeping every shard in a map ordered by time left and index.
pub fn shard_tests(tests: Vec<Test>, target_shard_time_ms: u32) -> (shards: Vec<Vec<Test>>)
    requires
        total_ms(views(tests@)) <= u64::MAX,
        capacity_ms(views(tests@), target_shard_time_ms) > 0,
    ensures
        shard_views(shards@) == planned_shards(views(tests@), target_shard_time_ms),
        bag(shard_values(shards@)) == tests@.to_multiset(),
{
    broadcast use vstd::std_specs::btree::group_btree_axioms;
    broadcast use vstd::set::group_set_axioms;

    proof {
        lemma_pair_keys_ordered();
    }
    let ghost input = views(tests@);
    let ghost len0 = tests@.len();
    let ghost all_tests = tests@.to_multiset();
    let (shard_time_ms, n_shards) = shard_time_and_count(&tests, target_shard_time_ms);
    let ghost cap = shard_time_ms as int;
    let ghost start = empty_shards(n_shards as nat, cap);

    let mut shards: BTreeMap<(u32, usize), Vec<Test>> = BTreeMap::new();
    let ghost mut contents: Seq<Seq<Test>> = Seq::empty();
    let mut id: usize = 0;
    proof {
        lemma_empty_shards(0, cap);
        assert(shards@.dom() =~= Set::<(u32, usize)>::empty());
    }
    while id < n_shards
        invariant
            id <= n_shards,
            cap == shard_time_ms,
            cap > 0,
            keyed(empty_shards(id as nat, cap), contents, shards@),
            forall|i: int| 0 <= i < contents.len() ==> (#[trigger] contents[i]).len() == 0,
            pair_keys_ordered(),
        decreases n_shards - id,
    {
        let ghost e0 = empty_shards(id as nat, cap);
        let ghost m0 = shards@;
        let ghost c0 = contents;
        proof {
            assert(!shards@.contains_key((shard_time_ms, id)));
        }
        shards.insert((shard_time_ms, id), Vec::new());
        proof {
            contents = contents.push(Seq::<Test>::empty());
        }
        id = id + 1;
        proof {
            let e = empty_shards(id as nat, cap);
            assert(e.shards =~= e0.shards.push(Seq::<TestView>::empty()));
            assert(e.remaining =~= e0.remaining.push(cap));
            assert(shards@.dom() =~= m0.dom().insert((shard_time_ms, (id - 1) as usize)));
            assert forall|i: int| 0 <= i < contents.len() implies views(#[trigger] contents[i])
                == e.shards[i] by {
                if i < c0.len() {
                    assert(contents[i] == c0[i]);
                } else {
                    assert(views(contents[i]) =~= Seq::<TestView>::empty());
                }
            }
            assert forall|k: (u32, usize)| #[trigger] shards@.contains_key(k) implies shards@[k]@
                == contents[k.1 as int] by {
                if k.1 < id - 1 {
                    assert(contents[k.1 as int] == c0[k.1 as int]);
                }
            }
            assert forall|i: int| 0 <= i < contents.len() implies (#[trigger] contents[i]).len()
                == 0 by {
                if i < c0.len() {
                    assert(contents[i] == c0[i]);
                }
            }
        }
    }

    let mut queue = merge_sort(tests, false);
    let ghost q0 = queue@;
    let ghost order = views(q0).reverse();
    proof {
        lemma_placement_order(q0, tests@);
        assert(final_packing(input, target_shard_time_ms) == place_all(order, start, cap));
        assert(order.take(0) =~= Seq::<TestView>::empty());
        lemma_empty_shards(n_shards as nat, cap);
        lemma_bag_all_empty(contents);
        assert(bag(contents).add(queue@.to_multiset()) =~= all_tests) by {
            broadcast use vstd::multiset::group_multiset_axioms;

        }
    }
    let ghost mut done: int = 0;
    while queue.len() > 0
        invariant
            0 <= done <= len0,
            queue@.len() + done == len0,
            forall|k: int| 0 <= k < queue@.len() ==> queue@[k] == q0[k],
            q0.len() == len0,
            order == views(q0).reverse(),
            forall|k: int| 0 <= k < len0 ==> #[trigger] order[k].duration_ms <= cap,
            keyed(place_all(order.take(done), start, cap), contents, shards@),
            well_formed(place_all(order.take(done), start, cap), cap),
            bag(contents).add(queue@.to_multiset()) == all_tests,
            cap == shard_time_ms,
            cap > 0,
            pair_keys_ordered(),
        decreases queue@.len(),
    {
        let ghost p = place_all(order.take(done), start, cap);
        let ghost qb = queue@;
        let ghost m0 = shards@;
        let ghost c0 = contents;
        let test = queue.pop().unwrap();
        let test_duration = test.duration_ms;
        let ghost t = test@;
        let ghost d = test_duration as int;
        proof {
            assert(qb =~= queue@.push(test));
            assert(test == q0[len0 - 1 - done]);
            assert(t == order[done]);
            lemma_place_all_step(order, start, cap, done);
            lemma_place(p, t, cap);
            lemma_chosen_fits(p, d);
        }
        let ghost np = place(p, t, cap);
        proof {
            assert(shards@.len() == vstd::std_specs::btree::spec_btree_map_len(&shards));
        }
        let candidate_key = first_key_at_least(&shards, (test_duration, 0));
        if let Some((remaining_ms, shard_id)) = candidate_key {
            let ghost sid = shard_id as int;
            proof {
                assert(shards@.contains_key((remaining_ms, shard_id)));
                assert(fits(p, d, sid));
                assert(best_fit(p, d, sid)) by {
                    assert forall|j: int| #[trigger] fits(p, d, j) implies !key_before(p, j, sid) by {
                        let kj = (p.remaining[j] as u32, j as usize);
                        assert(p.remaining[j] <= cap);
                        assert(j < shards@.dom().len());
                        assert(kj.0 as int == p.remaining[j]);
                        assert(kj.1 as int == j);
                        assert(shards@.contains_key(kj));
                        assert(!pair_lt(kj, (test_duration, 0usize)));
                        assert(!pair_lt(kj, (remaining_ms, shard_id)));
                    }
                }
                lemma_chosen_best_fit(p, d, sid);
            }
            let mut shard_tests = shards.remove(&(remaining_ms, shard_id)).unwrap();
            shard_tests.push(test);
            let ghost m1 = shards@;
            shards.insert((remaining_ms - test_duration, shard_id), shard_tests);
            proof {
                contents = c0.update(sid, c0[sid].push(test));
                lemma_bag_push_into(c0, sid, test);
                let k_old = (remaining_ms, shard_id);
                let k_new = ((remaining_ms - test_duration) as u32, shard_id);
                assert(m1.dom() =~= m0.dom().remove(k_old));
                assert(shards@.dom() =~= m1.dom().insert(k_new));
                assert(!m1.dom().contains(k_new));
                assert(views(c0[sid].push(test)) =~= views(c0[sid]).push(t));
                assert forall|i: int| 0 <= i < contents.len() implies views(#[trigger] contents[i])
                    == np.shards[i] by {
                    if i != sid {
                        assert(contents[i] == c0[i]);
                    }
                }
                assert forall|k: (u32, usize)| #[trigger] shards@.contains_key(k) implies shards@[k]@
                    == contents[k.1 as int] by {
                    if k.1 != shard_id {
                        assert(m0.contains_key(k));
                    }
                }
                assert forall|k: (u32, usize)| #[trigger]
                    shards@.contains_key(k) <==> (k.1 < np.shards.len() && k.0
                        == np.remaining[k.1 as int]) by {
                    if k.1 != shard_id {
                        assert(m0.contains_key(k) == m1.contains_key(k));
                    }
                }
            }
        } else {
            proof {
                assert forall|j: int| !fits(p, d, j) by {
                    if 0 <= j < p.remaining.len() {
                        let kj = (p.remaining[j] as u32, j as usize);
                        assert(p.remaining[j] <= cap);
                        assert(j < shards@.dom().len());
                        assert(kj.0 as int == p.remaining[j]);
                        assert(kj.1 as int == j);
                        assert(shards@.contains_key(kj));
                        assert(pair_lt(kj, (test_duration, 0usize)));
                    }
                }
                lemma_chosen_none(p, d);
            }
            let shard_id = shards.len();
            let mut shard_tests: Vec<Test> = Vec::new();
            shard_tests.push(test);
            proof {
                assert(!shards@.contains_key(((shard_time_ms - test_duration) as u32, shard_id)));
            }
            shards.insert((shard_time_ms - test_duration, shard_id), shard_tests);
            proof {
                let sid = shard_id as int;
                contents = c0.push(seq![test]);
                assert(seq![test] =~= Seq::<Test>::empty().push(test));
                lemma_bag_push(c0, seq![test]);
                Seq::<Test>::empty().to_multiset_ensures();
                lemma_empty_multiset(Seq::<Test>::empty());
                assert(views(seq![test]) =~= seq![t]);
                assert(shards@.dom() =~= m0.dom().insert(((shard_time_ms - test_duration) as u32, shard_id)));
                assert forall|i: int| 0 <= i < contents.len() implies views(#[trigger] contents[i])
                    == np.shards[i] by {
                    if i < c0.len() {
                        assert(contents[i] == c0[i]);
                    }
                }
                assert forall|k: (u32, usize)| #[trigger] shards@.contains_key(k) implies shards@[k]@
                    == contents[k.1 as int] by {
                    if k.1 != shard_id {
                        assert(m0.contains_key(k));
                    }
                }
                assert forall|k: (u32, usize)| #[trigger]
                    shards@.contains_key(k) <==> (k.1 < np.shards.len() && k.0
                        == np.remaining[k.1 as int]) by {
                    if k.1 != shard_id {
                        assert(m0.contains_key(k) == shards@.contains_key(k));
                    }
                }
            }
        }
        proof {
            done = done + 1;
            queue@.to_multiset_ensures();
            assert(bag(contents).add(queue@.to_multiset()) =~= all_tests) by {
                broadcast use vstd::multiset::group_multiset_axioms;

            }
        }
    }

    let ghost fin = place_all(order, start, cap);
    let ghost n = fin.shards.len();
    let ghost lt = shard_key_order(fin);
    let ghost mut ids: Seq<int> = Seq::empty();
    let ghost mut rest = contents;
    let mut result: Vec<Vec<Test>> = Vec::new();
    proof {
        assert(shards@.len() == vstd::std_specs::btree::spec_btree_map_len(&shards));
        assert(order.take(done) =~= order);
        queue@.to_multiset_ensures();
        lemma_empty_multiset(queue@);
        lemma_key_order(fin);
        assert(shard_values(result@) =~= Seq::<Seq<Test>>::empty());
        assert(bag(shard_values(result@)).add(bag(rest)) =~= all_tests) by {
            broadcast use vstd::multiset::group_multiset_axioms;

        }
    }
    // Entries come out by key: time left, then index.
    while shards.len() > 0
        invariant
            n == fin.shards.len(),
            n <= usize::MAX,
            rest.len() == n,
            strict_total_order(lt),
            lt == shard_key_order(fin),
            well_formed(fin, cap),
            cap == shard_time_ms,
            pair_keys_ordered(),
            forall|k: (u32, usize)| #[trigger]
                shards@.contains_key(k) <==> (k.1 < n && k.0 == fin.remaining[k.1 as int]
                    && !ids.contains(k.1 as int)),
            forall|k: (u32, usize)| #[trigger] shards@.contains_key(k) ==> shards@[k]@ == rest[k.1 as int],
            forall|i: int| 0 <= i < n && ids.contains(i) ==> (#[trigger] rest[i]).len() == 0,
            forall|i: int| 0 <= i < n && !ids.contains(i) ==> views(#[trigger] rest[i]) == fin.shards[i],
            ids.len() == result@.len(),
            forall|k: int| 0 <= k < ids.len() ==> views(#[trigger] result@[k]@) == fin.shards[ids[k]],
            forall|k: int| 0 <= k < ids.len() ==> 0 <= #[trigger] ids[k] < n,
            strictly_sorted_by(ids, lt),
            forall|k: int, key: (u32, usize)|
                0 <= k < ids.len() && #[trigger] shards@.contains_key(key) ==> lt(
                    #[trigger] ids[k],
                    key.1 as int,
                ),
            bag(shard_values(result@)).add(bag(rest)) == all_tests,
        decreases shards@.dom().len(),
    {
        let ghost some = shards@.dom().choose();
        proof {
            assert(shards@.dom().len() > 0);
            assert(shards@.dom().contains(some));
        }
        let found = first_key_at_least(&shards, (0, 0));
        proof {
            if found is None {
                assert(pair_lt(some, (0u32, 0usize)));
            }
        }
        let key = found.unwrap();
        let ghost sid = key.1 as int;
        let ghost m0 = shards@;
        let ghost r0 = rest;
        let ghost res0 = shard_values(result@);
        let shard = shards.remove(&key).unwrap();
        proof {
            assert(m0.contains_key(key));
            assert(shard@ == r0[sid]);
            assert(shards@.dom() =~= m0.dom().remove(key));
            rest = r0.update(sid, Seq::<Test>::empty());
            lemma_bag_update(r0, sid, Seq::<Test>::empty());
            lemma_empty_multiset(Seq::<Test>::empty());
        }
        result.push(shard);
        proof {
            let old_ids = ids;
            ids = ids.push(sid);
            assert(shard_values(result@) =~= res0.push(shard@));
            lemma_bag_push(res0, shard@);
            let tm = shard@.to_multiset();
            assert(bag(rest).add(tm) == bag(r0).add(Multiset::<Test>::empty()));
            assert forall|v: Test| #[trigger] bag(shard_values(result@)).add(bag(rest)).count(v)
                == all_tests.count(v) by {
                assert(bag(rest).add(tm).count(v) == bag(r0).count(v));
            }
            assert(bag(shard_values(result@)).add(bag(rest)) =~= all_tests);
            assert(ids[ids.len() - 1] == sid);
            assert forall|k: (u32, usize)| #[trigger]
                shards@.contains_key(k) <==> (k.1 < n && k.0 == fin.remaining[k.1 as int]
                    && !ids.contains(k.1 as int)) by {
                if ids.contains(k.1 as int) && !old_ids.contains(k.1 as int) {
                    assert(k.1 as int == sid);
                }
                if old_ids.contains(k.1 as int) {
                    let j = choose|j: int| 0 <= j < old_ids.len() && old_ids[j] == k.1 as int;
                    assert(ids[j] == k.1 as int);
                }
            }
            assert forall|k: (u32, usize)| #[trigger] shards@.contains_key(k) implies shards@[k]@
                == rest[k.1 as int] by {
                assert(m0.contains_key(k));
                assert(k.1 as int != sid);
            }
            assert forall|i: int| 0 <= i < n && ids.contains(i) implies (#[trigger] rest[i]).len()
                == 0 by {
                if i != sid {
                    let j = choose|j: int| 0 <= j < ids.len() && ids[j] == i;
                    assert(old_ids.contains(i));
                }
            }
            assert forall|i: int| 0 <= i < n && !ids.contains(i) implies views(#[trigger] rest[i])
                == fin.shards[i] by {
                assert(i != sid);
                if old_ids.contains(i) {
                    let j = choose|j: int| 0 <= j < old_ids.len() && old_ids[j] == i;
                    assert(ids[j] == i);
                }
            }
            assert forall|a: int, b: int| 0 <= a < b < ids.len() implies lt(
                #[trigger] ids[a],
                #[trigger] ids[b],
            ) by {
                if b < old_ids.len() {
                    assert(ids[a] == old_ids[a] && ids[b] == old_ids[b]);
                } else {
                    assert(ids[a] == old_ids[a]);
                    assert(m0.contains_key(key));
                }
            }
            assert forall|k: int, other: (u32, usize)|
                0 <= k < ids.len() && #[trigger] shards@.contains_key(other) implies lt(
                #[trigger] ids[k],
                other.1 as int,
            ) by {
                assert(m0.contains_key(other));
                if k < old_ids.len() {
                    assert(ids[k] == old_ids[k]);
                } else {
                    assert(other != key);
                    assert(!pair_lt(other, key));
                }
            }
        }
    }
    proof {
        let all = Set::new(|i: int| 0 <= i < n);
        assert(ids.to_set() =~= all) by {
            assert forall|j: int| all.contains(j) implies ids.to_set().contains(j) by {
                let kj = (fin.remaining[j] as u32, j as usize);
                assert(fin.remaining[j] <= cap);
                if !ids.contains(j) {
                    assert(shards@.contains_key(kj));
                    assert(shards@.dom().contains(kj));
                }
            }
            assert forall|j: int| ids.to_set().contains(j) implies all.contains(j) by {
                assert(ids.contains(j));
                let k = choose|k: int| 0 <= k < ids.len() && ids[k] == j;
            }
        }
        let o = output_order(fin);
        assert(strictly_sorted_by(o, lt) && o.to_set() == all);
        lemma_strictly_sorted_unique(o, ids, lt);
        assert(shard_views(result@) =~= arranged(fin));
        assert forall|j: int| 0 <= j < n implies (#[trigger] rest[j]).len() == 0 by {
            assert(ids.to_set().contains(j));
        }
        lemma_bag_all_empty(rest);
        assert(bag(shard_values(result@)) =~= all_tests) by {
            broadcast use vstd::multiset::group_multiset_axioms;

        }
    }
    result
}

} // verus!
