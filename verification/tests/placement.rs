use tests_sharder::sharder::reference;
use tests_sharder::sharder::shard_tests;
use tests_sharder::test_case::{test_less, Test};

fn ids(shards: &[Vec<Test>]) -> Vec<Vec<String>> {
    shards
        .iter()
        .map(|shard| shard.iter().map(|test| test.id.clone()).collect())
        .collect()
}

fn zero(id: &str) -> Test {
    Test { duration_ms: 0, id: id.to_string() }
}

fn shard_ms(shard: &[Test]) -> u64 {
    shard.iter().map(|test| u64::from(test.duration_ms)).sum()
}

#[test]
fn new_keeps_id_and_duration() {
    let test = Test::new("login", 1200);
    assert_eq!(test.id, "login");
    assert_eq!(test.duration_ms, 1200);
}

#[test]
fn test_order_is_duration_then_identifier_bytes() {
    assert!(test_less(&Test::new("b", 1), &Test::new("a", 2)));
    assert!(!test_less(&Test::new("a", 2), &Test::new("b", 1)));
    assert!(test_less(&Test::new("a", 2), &Test::new("b", 2)));
    assert!(test_less(&Test::new("B", 2), &Test::new("a", 2)));
    assert!(test_less(&Test::new("ab", 2), &Test::new("abc", 2)));
    assert!(!test_less(&Test::new("ab", 2), &Test::new("ab", 2)));
    assert!(test_less(&Test::new("z", 2), &Test::new("é", 2)));
}

#[test]
fn greedy_edge_case_places_pairs_of_equal_tests() {
    let tests = vec![
        Test::new("1", 3),
        Test::new("2", 2),
        Test::new("3", 3),
        Test::new("4", 2),
        Test::new("5", 2),
    ];
    let shards = shard_tests(tests.clone(), 6);
    assert_eq!(ids(&shards), vec![vec!["3", "1"], vec!["5", "4", "2"]]);
    assert_eq!(shards, reference::shard_tests(tests, 6));
}

#[test]
fn extra_shard_comes_last_among_equal_remaining_time() {
    let tests = vec![Test::new("1", 3), Test::new("2", 4), Test::new("3", 3)];
    let shards = shard_tests(tests.clone(), 5);
    assert_eq!(ids(&shards), vec![vec!["2"], vec!["3"], vec!["1"]]);
    assert_eq!(shards, reference::shard_tests(tests, 5));
}

#[test]
fn zero_duration_test_joins_lowest_full_shard() {
    let tests = vec![Test::new("a", 5), Test::new("b", 5), zero("z")];
    let shards = shard_tests(tests.clone(), 5);
    assert_eq!(ids(&shards), vec![vec!["b", "z"], vec!["a"]]);
    assert_eq!(shards, reference::shard_tests(tests, 5));
}

#[test]
fn zero_duration_test_joins_tightest_shard_when_none_is_full() {
    let tests = vec![Test::new("a", 3), Test::new("b", 3), zero("z")];
    let shards = shard_tests(tests.clone(), 5);
    assert_eq!(ids(&shards), vec![vec!["b", "z"], vec!["a"]]);
    assert_eq!(shards, reference::shard_tests(tests, 5));
}

#[test]
fn only_zero_duration_tests_share_one_shard() {
    let tests = vec![zero("x"), zero("y")];
    let shards = shard_tests(tests.clone(), 3);
    assert_eq!(ids(&shards), vec![vec!["y", "x"]]);
    assert_eq!(shards, reference::shard_tests(tests, 3));
}

#[test]
fn zero_target_uses_longest_test() {
    let tests = vec![Test::new("a", 4), Test::new("b", 1)];
    let shards = shard_tests(tests.clone(), 0);
    assert_eq!(ids(&shards), vec![vec!["a"], vec!["b"]]);
    assert_eq!(shards, reference::shard_tests(tests, 0));
}

#[test]
fn single_shard_is_sorted_longest_first() {
    let tests = vec![Test::new("1", 2), Test::new("2", 1), Test::new("3", 3), Test::new("0", 2)];
    let shards = shard_tests(tests.clone(), 100);
    assert_eq!(ids(&shards), vec![vec!["3", "1", "0", "2"]]);
    assert_eq!(shards, reference::shard_tests(tests, 100));
}

#[test]
fn reference_handles_empty_input() {
    assert!(reference::shard_tests(Vec::new(), 5).is_empty());
}

#[test]
fn reference_total_duration_can_exceed_u32_max() {
    let tests = vec![Test::new("1", u32::MAX), Test::new("2", u32::MAX)];
    let shards = reference::shard_tests(tests.clone(), u32::MAX);
    assert_eq!(shards, shard_tests(tests, u32::MAX));
    assert_eq!(shards.len(), 2);
}

#[test]
fn duplicate_tests_are_all_kept() {
    let tests = vec![Test::new("a", 2), Test::new("a", 2), Test::new("a", 2)];
    let shards = shard_tests(tests.clone(), 4);
    assert_eq!(ids(&shards), vec![vec!["a", "a"], vec!["a"]]);
    assert_eq!(shards, reference::shard_tests(tests, 4));
}

/// A small deterministic generator, so that every run covers the same cases.
struct Lcg(u64);

impl Lcg {
    fn next(&mut self, bound: u32) -> u32 {
        self.0 = self.0.wrapping_mul(6364136223846793005).wrapping_add(1442695040888963407);
        ((self.0 >> 33) % u64::from(bound)) as u32
    }
}

fn generated(rng: &mut Lcg) -> (Vec<Test>, u32) {
    let count = rng.next(30) as usize;
    let tests = (0..count)
        .map(|_| {
            let id = format!("t{}", rng.next(12));
            let duration = if rng.next(8) == 0 { 0 } else { 1 + rng.next(20) };
            Test { duration_ms: duration, id }
        })
        .collect();
    (tests, 1 + rng.next(40))
}

#[test]
fn generated_cases_agree_with_reference_and_keep_the_laws() {
    let mut rng = Lcg(42);
    for _ in 0..2000 {
        let (tests, target) = generated(&mut rng);
        let capacity = tests
            .iter()
            .map(|test| test.duration_ms)
            .max()
            .unwrap_or(0)
            .max(target);
        let shards = shard_tests(tests.clone(), target);
        assert_eq!(shards, reference::shard_tests(tests.clone(), target));

        let total: u64 = tests.iter().map(|test| u64::from(test.duration_ms)).sum();
        let initial = total.div_ceil(u64::from(capacity));
        assert!(shards.len() as u64 >= initial);
        for (index, shard) in shards.iter().enumerate() {
            assert!(!shard.is_empty());
            assert!(shard_ms(shard) <= u64::from(capacity));
            if index > 0 {
                assert!(shard_ms(shard) <= shard_ms(&shards[index - 1]));
            }
            for pair in shard.windows(2) {
                assert!(!test_less(&pair[0], &pair[1]));
            }
        }
        let mut actual: Vec<Test> = shards.into_iter().flatten().collect();
        let mut expected = tests;
        actual.sort();
        expected.sort();
        assert_eq!(actual, expected);
    }
}
