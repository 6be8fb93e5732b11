use vstd::prelude::*;
use vstd::utf8::encode_utf8;
use vstd::utf8::encode_utf8_decode_utf8;

use crate::order::strict_total_order;

verus! {

/// One test to be scheduled: its identifier and how long it runs.
///
/// The derived `Ord` compares the duration first and the identifier
/// second, the order in which the fields are declared. The duration is a
/// plain `u32`: `Test::new` requires it to be positive, and `shard_tests`
/// places a zero-duration test too (into the lowest full shard when there
/// is one).
#[derive(Debug, PartialEq, Eq, PartialOrd, Ord, Clone)]
pub struct Test {
    pub duration_ms: u32,
    pub id: String,
}

/// What a test is, as a mathematical value.
pub struct TestView {
    pub duration_ms: u32,
    pub id: Seq<char>,
}

impl View for Test {
    type V = TestView;

    open spec fn view(&self) -> TestView {
        TestView { duration_ms: self.duration_ms, id: self.id@ }
    }
}

impl Test {
    /// Builds a test; a zero duration is not a test that can be scheduled.
    pub fn new(id: &str, duration_ms: u32) -> (test: Test)
        requires
            duration_ms > 0,
        ensures
            test.id@ == id@,
            test.duration_ms == duration_ms,
    {
        Test { duration_ms, id: id.to_owned() }
    }
}

/// Byte-wise lexicographic order, the order of `str`.
pub open spec fn bytes_lt(a: Seq<u8>, b: Seq<u8>) -> bool
    decreases a.len(),
{
    if a.len() == 0 {
        b.len() > 0
    } else if b.len() == 0 {
        false
    } else if a[0] != b[0] {
        a[0] < b[0]
    } else {
        bytes_lt(a.drop_first(), b.drop_first())
    }
}

/// The order of tests: shorter first, and between equally long tests the
/// identifier whose UTF-8 bytes come first.
pub open spec fn test_lt(a: TestView, b: TestView) -> bool {
    ||| a.duration_ms < b.duration_ms
    ||| a.duration_ms == b.duration_ms && bytes_lt(encode_utf8(a.id), encode_utf8(b.id))
}

/// The order in which tests are placed: longest first.
pub open spec fn placed_before() -> spec_fn(TestView, TestView) -> bool {
    |a: TestView, b: TestView| test_lt(b, a)
}

proof fn lemma_bytes_lt_irreflexive(a: Seq<u8>)
    ensures
        !bytes_lt(a, a),
    decreases a.len(),
{
    if a.len() > 0 {
        lemma_bytes_lt_irreflexive(a.drop_first());
    }
}

proof fn lemma_bytes_lt_transitive(a: Seq<u8>, b: Seq<u8>, c: Seq<u8>)
    requires
        bytes_lt(a, b),
        bytes_lt(b, c),
    ensures
        bytes_lt(a, c),
    decreases a.len(),
{
    if a.len() > 0 && b.len() > 0 && c.len() > 0 && a[0] == b[0] && b[0] == c[0] {
        lemma_bytes_lt_transitive(a.drop_first(), b.drop_first(), c.drop_first());
    }
}

proof fn lemma_bytes_lt_total(a: Seq<u8>, b: Seq<u8>)
    requires
        a != b,
    ensures
        bytes_lt(a, b) || bytes_lt(b, a),
    decreases a.len(),
{
    if a.len() > 0 && b.len() > 0 && a[0] == b[0] {
        if a.drop_first() == b.drop_first() {
            assert(a.drop_first().len() == b.drop_first().len());
            assert(a.len() == b.len());
            assert(a =~= b) by {
                assert forall|i: int| 0 <= i < a.len() implies a[i] == b[i] by {
                    if i > 0 {
                        assert(a[i] == a.drop_first()[i - 1]);
                        assert(b[i] == b.drop_first()[i - 1]);
                    }
                }
            }
        }
        lemma_bytes_lt_total(a.drop_first(), b.drop_first());
    } else if a.len() == 0 && b.len() == 0 {
        assert(a =~= b);
    }
}

/// The order of tests is a strict total order on their views.
pub proof fn lemma_test_order()
    ensures
        strict_total_order(|a: TestView, b: TestView| test_lt(a, b)),
        strict_total_order(placed_before()),
{
    let lt = |a: TestView, b: TestView| test_lt(a, b);
    assert forall|a: TestView| !(#[trigger] lt(a, a)) by {
        lemma_bytes_lt_irreflexive(encode_utf8(a.id));
    }
    assert forall|a: TestView, b: TestView, c: TestView| #[trigger] lt(a, b) && #[trigger] lt(
        b,
        c,
    ) implies lt(a, c) by {
        if a.duration_ms == b.duration_ms && b.duration_ms == c.duration_ms {
            lemma_bytes_lt_transitive(encode_utf8(a.id), encode_utf8(b.id), encode_utf8(c.id));
        }
    }
    assert forall|a: TestView, b: TestView| a != b implies #[trigger] lt(a, b) || lt(b, a) by {
        if a.duration_ms == b.duration_ms {
            assert(a.id != b.id);
            encode_utf8_decode_utf8(a.id);
            encode_utf8_decode_utf8(b.id);
            lemma_bytes_lt_total(encode_utf8(a.id), encode_utf8(b.id));
        }
    }
    let gt = placed_before();
    assert forall|a: TestView| !(#[trigger] gt(a, a)) by {
        assert(!lt(a, a));
    }
    assert forall|a: TestView, b: TestView, c: TestView| #[trigger] gt(a, b) && #[trigger] gt(
        b,
        c,
    ) implies gt(a, c) by {
        assert(lt(c, b) && lt(b, a));
    }
    assert forall|a: TestView, b: TestView| a != b implies #[trigger] gt(a, b) || gt(b, a) by {
        assert(lt(a, b) || lt(b, a));
    }
}

/// `x` comes before `y` in dictionary order of bytes: `x` is a proper
/// prefix of `y`, or at the first byte where they differ the byte of `x`
/// is smaller.
pub open spec fn dictionary_before(x: Seq<u8>, y: Seq<u8>) -> bool {
    ||| x.len() < y.len() && x == y.take(x.len() as int)
    ||| exists|k: int| 0 <= k < x.len() && k < y.len() && x.take(k) == y.take(k) && x[k] < y[k]
}

proof fn lemma_bytes_lt_dictionary(x: Seq<u8>, y: Seq<u8>)
    ensures
        bytes_lt(x, y) <==> dictionary_before(x, y),
    decreases x.len(),
{
    if x.len() == 0 {
        assert(x =~= y.take(0));
    } else if y.len() == 0 {
    } else if x[0] != y[0] {
        assert(x.take(0) =~= y.take(0));
        if dictionary_before(x, y) {
            if !(x.len() < y.len() && x == y.take(x.len() as int)) {
                let k = choose|k: int|
                    0 <= k < x.len() && k < y.len() && x.take(k) == y.take(k) && x[k] < y[k];
                if k > 0 {
                    assert(x.take(k)[0] == y.take(k)[0]);
                }
            } else {
                assert(x[0] == y.take(x.len() as int)[0]);
            }
        }
    } else {
        let x1 = x.drop_first();
        let y1 = y.drop_first();
        lemma_bytes_lt_dictionary(x1, y1);
        assert(x1.len() < y1.len() <==> x.len() < y.len());
        assert(x.len() < y.len() ==> (x == y.take(x.len() as int) <==> x1 == y1.take(
            x1.len() as int,
        ))) by {
            if x.len() < y.len() {
                if x == y.take(x.len() as int) {
                    assert(x1 =~= y1.take(x1.len() as int)) by {
                        assert forall|i: int| 0 <= i < x1.len() implies x1[i] == y1.take(
                            x1.len() as int,
                        )[i] by {
                            assert(x[i + 1] == y.take(x.len() as int)[i + 1]);
                        }
                    }
                }
                if x1 == y1.take(x1.len() as int) {
                    assert(x =~= y.take(x.len() as int)) by {
                        assert forall|i: int| 0 <= i < x.len() implies x[i] == y.take(
                            x.len() as int,
                        )[i] by {
                            if i > 0 {
                                assert(x1[i - 1] == y1.take(x1.len() as int)[i - 1]);
                            }
                        }
                    }
                }
            }
        }
        let dx = exists|k: int|
            0 <= k < x.len() && k < y.len() && x.take(k) == y.take(k) && x[k] < y[k];
        let dx1 = exists|k: int|
            0 <= k < x1.len() && k < y1.len() && x1.take(k) == y1.take(k) && x1[k] < y1[k];
        assert(dx <==> dx1) by {
            if dx {
                let k = choose|k: int|
                    0 <= k < x.len() && k < y.len() && x.take(k) == y.take(k) && x[k] < y[k];
                if k == 0 {
                    assert(x[0] == y[0]);
                }
                assert(x1.take(k - 1) =~= y1.take(k - 1)) by {
                    assert forall|i: int| 0 <= i < k - 1 implies #[trigger] x1.take(k - 1)[i]
                        == y1.take(k - 1)[i] by {
                        assert(x.take(k)[i + 1] == y.take(k)[i + 1]);
                    }
                }
                assert(x1[k - 1] == x[k] && y1[k - 1] == y[k]);
            }
            if dx1 {
                let k = choose|k: int|
                    0 <= k < x1.len() && k < y1.len() && x1.take(k) == y1.take(k) && x1[k] < y1[k];
                assert(x.take(k + 1) =~= y.take(k + 1)) by {
                    assert forall|i: int| 0 <= i < k + 1 implies #[trigger] x.take(k + 1)[i]
                        == y.take(k + 1)[i] by {
                        if i > 0 {
                            assert(x1.take(k)[i - 1] == y1.take(k)[i - 1]);
                        }
                    }
                }
                assert(x[k + 1] == x1[k] && y[k + 1] == y1[k]);
            }
        }
    }
}

/// Tests order by duration, and equally long tests in dictionary order of
/// their identifiers' UTF-8 bytes: a proper prefix comes first, and
/// otherwise the smaller byte at the first place where they differ decides,
/// whatever the lengths.
pub proof fn lemma_test_order_dictionary(a: TestView, b: TestView)
    ensures
        test_lt(a, b) <==> (a.duration_ms < b.duration_ms || (a.duration_ms == b.duration_ms
            && dictionary_before(encode_utf8(a.id), encode_utf8(b.id)))),
{
    lemma_bytes_lt_dictionary(encode_utf8(a.id), encode_utf8(b.id));
}

/// Whether `a` orders before `b`: the shorter test, or between equally
/// long tests the one whose identifier sorts first.
pub fn test_less(a: &Test, b: &Test) -> (less: bool)
    ensures
        less == test_lt(a@, b@),
        less == (a.duration_ms < b.duration_ms || (a.duration_ms == b.duration_ms
            && dictionary_before(encode_utf8(a.id@), encode_utf8(b.id@)))),
{
    proof {
        lemma_bytes_lt_dictionary(encode_utf8(a.id@), encode_utf8(b.id@));
    }
    if a.duration_ms != b.duration_ms {
        return a.duration_ms < b.duration_ms;
    }
    let x = a.id.as_str().as_bytes();
    let y = b.id.as_str().as_bytes();
    let mut i: usize = 0;
    assert(x@.skip(0) =~= x@);
    assert(y@.skip(0) =~= y@);
    while i < x.len() && i < y.len()
        invariant
            a.duration_ms == b.duration_ms,
            x@ == encode_utf8(a.id@),
            y@ == encode_utf8(b.id@),
            i <= x@.len(),
            i <= y@.len(),
            bytes_lt(x@, y@) == bytes_lt(x@.skip(i as int), y@.skip(i as int)),
            bytes_lt(x@, y@) == dictionary_before(x@, y@),
        decreases x@.len() - i,
    {
        if x[i] != y[i] {
            assert(x@.skip(i as int).len() > 0 && y@.skip(i as int).len() > 0);
            assert(x@.skip(i as int)[0] == x[i as int]);
            assert(y@.skip(i as int)[0] == y[i as int]);
            return x[i] < y[i];
        }
        assert(x@.skip(i as int).drop_first() =~= x@.skip(i + 1));
        assert(y@.skip(i as int).drop_first() =~= y@.skip(i + 1));
        i = i + 1;
    }
    x.len() < y.len()
}

} // verus!
