//! The order of keys.
//!
//! Keys are byte strings and are ordered lexicographically by unsigned byte value.
use vstd::prelude::*;

verus! {

/// `a` comes strictly before `b` in lexicographic byte order: at the first position
/// where the two differ `a` has the smaller byte, or `a` is a proper prefix of `b`.
#[verifier::opaque]
pub open spec fn key_lt(a: Seq<u8>, b: Seq<u8>) -> bool
    decreases a.len(),
{
    if b.len() == 0 {
        false
    } else if a.len() == 0 {
        true
    } else if a[0] != b[0] {
        a[0] < b[0]
    } else {
        key_lt(a.drop_first(), b.drop_first())
    }
}

/// `a` is equal to `b` or comes before it.
pub open spec fn key_le(a: Seq<u8>, b: Seq<u8>) -> bool {
    a == b || key_lt(a, b)
}

/// How two keys compare.
#[derive(Clone, Copy, Debug, PartialEq, Eq, Structural)]
pub enum KeyOrder {
    /// The first key comes before the second.
    Before,
    /// The keys are the same byte string.
    Same,
    /// The first key comes after the second.
    After,
}

/// No key comes before itself.
pub proof fn lemma_key_irreflexive(a: Seq<u8>)
    ensures
        !key_lt(a, a),
    decreases a.len(),
{
    reveal_with_fuel(key_lt, 2);
    if a.len() > 0 {
        lemma_key_irreflexive(a.drop_first());
    }
}

/// The order of keys is transitive.
pub proof fn lemma_key_transitive(a: Seq<u8>, b: Seq<u8>, c: Seq<u8>)
    requires
        key_lt(a, b),
        key_lt(b, c),
    ensures
        key_lt(a, c),
    decreases a.len(),
{
    reveal_with_fuel(key_lt, 2);
    if a.len() > 0 && a[0] == b[0] && b[0] == c[0] {
        lemma_key_transitive(a.drop_first(), b.drop_first(), c.drop_first());
    }
}

/// Any two keys are equal, or one comes before the other.
pub proof fn lemma_key_total(a: Seq<u8>, b: Seq<u8>)
    ensures
        a == b || key_lt(a, b) || key_lt(b, a),
    decreases a.len(),
{
    reveal_with_fuel(key_lt, 2);
    if a.len() > 0 && b.len() > 0 && a[0] == b[0] {
        lemma_key_total(a.drop_first(), b.drop_first());
        if a.drop_first() == b.drop_first() {
            assert(a =~= seq![a[0]] + a.drop_first());
            assert(b =~= seq![b[0]] + b.drop_first());
        }
    } else {
        assert(a.len() == 0 && b.len() == 0 ==> a =~= b);
    }
}

/// The three properties above, for all keys at once: the order is strict and total.
pub proof fn lemma_key_order()
    ensures
        forall|a: Seq<u8>| !#[trigger] key_lt(a, a),
        forall|a: Seq<u8>, b: Seq<u8>, c: Seq<u8>|
            #[trigger] key_lt(a, b) && #[trigger] key_lt(b, c) ==> key_lt(a, c),
        forall|a: Seq<u8>, b: Seq<u8>|
            #![trigger key_lt(a, b)]
            a == b || key_lt(a, b) || key_lt(b, a),
{
    assert forall|a: Seq<u8>| !#[trigger] key_lt(a, a) by {
        lemma_key_irreflexive(a);
    }
    assert forall|a: Seq<u8>, b: Seq<u8>, c: Seq<u8>|
        #[trigger] key_lt(a, b) && #[trigger] key_lt(b, c) implies key_lt(a, c) by {
        lemma_key_transitive(a, b, c);
    }
    assert forall|a: Seq<u8>, b: Seq<u8>|
        #![trigger key_lt(a, b)]
        a == b || key_lt(a, b) || key_lt(b, a) by {
        lemma_key_total(a, b);
    }
}

/// Keys compare by their bytes, as unsigned numbers: of two keys that agree up to some
/// position, the one with the smaller byte there comes first; and a key comes before every
/// longer key that it begins.
pub proof fn law_keys_compare_by_their_bytes(a: Seq<u8>, b: Seq<u8>, i: int)
    requires
        0 <= i <= a.len(),
        i < b.len(),
        forall|j: int| 0 <= j < i ==> a[j] == b[j],
        i == a.len() || a[i] < b[i],
    ensures
        key_lt(a, b),
        !key_lt(b, a),
        a != b,
    decreases i,
{
    reveal_with_fuel(key_lt, 2);
    if i > 0 {
        let (x, y) = (a.drop_first(), b.drop_first());
        assert forall|j: int| 0 <= j < i - 1 implies x[j] == y[j] by {
            assert(a[j + 1] == b[j + 1]);
        }
        assert(a[0] == b[0]);
        law_keys_compare_by_their_bytes(x, y, i - 1);
    }
    lemma_key_order();
}

/// Keys whose first `i` bytes are the same agree at every position before `i`.
proof fn lemma_taken(a: Seq<u8>, b: Seq<u8>, i: int)
    requires
        0 <= i <= a.len(),
        i <= b.len(),
        a.take(i) == b.take(i),
    ensures
        forall|j: int| 0 <= j < i ==> a[j] == b[j],
{
    assert forall|j: int| 0 <= j < i implies a[j] == b[j] by {
        assert(a.take(i)[j] == a[j]);
        assert(b.take(i)[j] == b[j]);
    }
}

/// A key that comes before another has the smaller byte where the two first differ, or
/// begins the other.
pub proof fn law_the_earlier_key_has_the_smaller_byte(a: Seq<u8>, b: Seq<u8>) -> (i: int)
    requires
        key_lt(a, b),
    ensures
        0 <= i <= a.len(),
        i < b.len(),
        forall|j: int| 0 <= j < i ==> a[j] == b[j],
        i == a.len() || a[i] < b[i],
    decreases a.len(),
{
    reveal_with_fuel(key_lt, 2);
    if a.len() == 0 || a[0] != b[0] {
        0
    } else {
        let i = law_the_earlier_key_has_the_smaller_byte(a.drop_first(), b.drop_first());
        assert forall|j: int| 0 <= j < i + 1 implies a[j] == b[j] by {
            if j > 0 {
                assert(a.drop_first()[j - 1] == b.drop_first()[j - 1]);
            }
        }
        i + 1
    }
}

/// Compares two keys byte by byte.
pub fn compare_keys(a: &[u8], b: &[u8]) -> (order: KeyOrder)
    ensures
        forall|i: int|
            0 <= i <= a@.len() && i < b@.len() && #[trigger] a@.take(i) == b@.take(i) && (i
                == a@.len() || a@[i] < b@[i]) ==> order == KeyOrder::Before,
        forall|i: int|
            0 <= i <= b@.len() && i < a@.len() && #[trigger] b@.take(i) == a@.take(i) && (i
                == b@.len() || b@[i] < a@[i]) ==> order == KeyOrder::After,
        order == KeyOrder::Before <==> key_lt(a@, b@),
        order == KeyOrder::Same <==> a@ == b@,
        order == KeyOrder::After <==> key_lt(b@, a@),
{
    let mut i: usize = 0;
    proof {
        lemma_key_irreflexive(a@);
        lemma_key_order();
        assert forall|k: int|
            0 <= k <= a@.len() && k < b@.len() && #[trigger] a@.take(k) == b@.take(k) && (k
                == a@.len() || a@[k] < b@[k]) implies key_lt(a@, b@) by {
            lemma_taken(a@, b@, k);
            law_keys_compare_by_their_bytes(a@, b@, k);
        }
        assert forall|k: int|
            0 <= k <= b@.len() && k < a@.len() && #[trigger] b@.take(k) == a@.take(k) && (k
                == b@.len() || b@[k] < a@[k]) implies key_lt(b@, a@) by {
            lemma_taken(b@, a@, k);
            law_keys_compare_by_their_bytes(b@, a@, k);
        }
        assert(a@.skip(0) =~= a@);
        assert(b@.skip(0) =~= b@);
    }
    while i < a.len() && i < b.len()
        invariant
            i <= a@.len(),
            i <= b@.len(),
            a@.take(i as int) == b@.take(i as int),
            key_lt(a@, b@) == key_lt(a@.skip(i as int), b@.skip(i as int)),
            key_lt(b@, a@) == key_lt(b@.skip(i as int), a@.skip(i as int)),
            forall|k: int|
                0 <= k <= a@.len() && k < b@.len() && #[trigger] a@.take(k) == b@.take(k) && (k
                    == a@.len() || a@[k] < b@[k]) ==> key_lt(a@, b@),
            forall|k: int|
                0 <= k <= b@.len() && k < a@.len() && #[trigger] b@.take(k) == a@.take(k) && (k
                    == b@.len() || b@[k] < a@[k]) ==> key_lt(b@, a@),
        decreases a@.len() - i,
    {
        proof {
            reveal_with_fuel(key_lt, 2);
            lemma_key_order();
            assert(a@.skip(i as int).drop_first() =~= a@.skip(i + 1));
            assert(b@.skip(i as int).drop_first() =~= b@.skip(i + 1));
        }
        if a[i] < b[i] {
            return KeyOrder::Before;
        }
        if a[i] > b[i] {
            return KeyOrder::After;
        }
        proof {
            assert(a@.take(i + 1) =~= a@.take(i as int).push(a@[i as int]));
            assert(b@.take(i + 1) =~= b@.take(i as int).push(b@[i as int]));
        }
        i += 1;
    }
    proof {
        reveal_with_fuel(key_lt, 2);
        lemma_key_order();
        assert(a@.take(i as int) + a@.skip(i as int) =~= a@);
        assert(b@.take(i as int) + b@.skip(i as int) =~= b@);
    }
    if i < b.len() {
        KeyOrder::Before
    } else if i < a.len() {
        KeyOrder::After
    } else {
        proof {
            assert(a@.take(i as int) =~= a@);
            assert(b@.take(i as int) =~= b@);
        }
        KeyOrder::Same
    }
}

/// Whether `a` comes strictly before `b`.
pub fn key_before(a: &[u8], b: &[u8]) -> (before: bool)
    ensures
        before == key_lt(a@, b@),
{
    match compare_keys(a, b) {
        KeyOrder::Before => true,
        _ => false,
    }
}

/// Whether two keys are the same byte string.
pub fn same_key(a: &[u8], b: &[u8]) -> (same: bool)
    ensures
        same == (a@ == b@),
{
    match compare_keys(a, b) {
        KeyOrder::Same => true,
        _ => false,
    }
}

} // verus!
