//! What a set of sorted sources says about a key.
//!
//! A *source* is a strictly ascending sequence of entries: the write buffer, or the
//! contents of one run. Several sources are listed newest first. The newest source
//! that mentions a key decides it: a value there is the key's value, a deletion there
//! hides every older value.
use vstd::prelude::*;
use crate::keys;
use crate::record::Entry;

verus! {

/// The entries are in strictly ascending key order.
pub open spec fn ascending(source: Seq<Entry>) -> bool {
    forall|i: int, j: int|
        #![trigger source[i], source[j]]
        0 <= i < j < source.len() ==> keys::key_lt(source[i].0, source[j].0)
}

/// Some entry of the source is for `key`.
pub open spec fn mentions(source: Seq<Entry>, key: Seq<u8>) -> bool {
    exists|i: int| 0 <= i < source.len() && (#[trigger] source[i]).0 == key
}

/// Where the source has an entry for `key`, if it has one.
pub open spec fn position(source: Seq<Entry>, key: Seq<u8>) -> int {
    choose|i: int| 0 <= i < source.len() && (#[trigger] source[i]).0 == key
}

/// What a source holds for `key`: nothing, `Some(None)` for a deletion, or
/// `Some(Some(value))`.
pub open spec fn find(source: Seq<Entry>, key: Seq<u8>) -> Option<Option<Seq<u8>>> {
    if mentions(source, key) {
        Some(source[position(source, key)].1)
    } else {
        None
    }
}

/// The record of the newest source that mentions `key`.
pub open spec fn newest(sources: Seq<Seq<Entry>>, key: Seq<u8>) -> Option<Option<Seq<u8>>>
    decreases sources.len(),
{
    if sources.len() == 0 {
        None
    } else {
        match find(sources[0], key) {
            Some(record) => Some(record),
            None => newest(sources.drop_first(), key),
        }
    }
}

/// The live value behind a record, if there is one.
pub open spec fn live(record: Option<Option<Seq<u8>>>) -> Option<Seq<u8>> {
    match record {
        Some(value) => value,
        None => None,
    }
}

/// The value a reader of the sources sees under `key`: `None` if the key is absent or
/// deleted.
pub open spec fn visible(sources: Seq<Seq<Entry>>, key: Seq<u8>) -> Option<Seq<u8>> {
    live(newest(sources, key))
}

/// A key with its live value.
pub type Pair = (Seq<u8>, Seq<u8>);

/// The pairs as entries.
pub open spec fn pair_entries(pairs: Seq<Pair>) -> Seq<Entry> {
    pairs.map_values(|p: Pair| (p.0, Some(p.1)))
}

/// `pairs` lists, in strictly ascending key order, exactly the keys that satisfy `keep`
/// and have a live value in the sources, each with that value.
pub open spec fn lists(
    pairs: Seq<Pair>,
    sources: Seq<Seq<Entry>>,
    keep: spec_fn(Seq<u8>) -> bool,
) -> bool {
    &&& ascending(pair_entries(pairs))
    &&& forall|key: Seq<u8>|
        #![trigger find(pair_entries(pairs), key)]
        live(find(pair_entries(pairs), key)) == (if keep(key) {
            visible(sources, key)
        } else {
            None
        })
}

/// In an ascending source the entry at `i` is what the source holds for its key.
pub proof fn lemma_find_at(source: Seq<Entry>, i: int)
    requires
        ascending(source),
        0 <= i < source.len(),
    ensures
        mentions(source, source[i].0),
        find(source, source[i].0) == Some(source[i].1),
{
    keys::lemma_key_order();
    assert(source[i].0 == source[i].0);
    let j = position(source, source[i].0);
    if i < j {
        assert(keys::key_lt(source[i].0, source[j].0));
    } else if j < i {
        assert(keys::key_lt(source[j].0, source[i].0));
    }
}

/// A key that no entry is for is not found.
pub proof fn lemma_find_absent(source: Seq<Entry>, key: Seq<u8>)
    requires
        forall|i: int| 0 <= i < source.len() ==> (#[trigger] source[i]).0 != key,
    ensures
        !mentions(source, key),
        find(source, key) is None,
{
}

/// What is found comes from an entry of the source.
pub proof fn lemma_find_witness(source: Seq<Entry>, key: Seq<u8>) -> (i: int)
    requires
        find(source, key) is Some,
    ensures
        0 <= i < source.len(),
        source[i].0 == key,
        find(source, key) == Some(source[i].1),
{
    position(source, key)
}

/// Searching two ascending halves of an ascending source.
pub proof fn lemma_find_concat(a: Seq<Entry>, b: Seq<Entry>, key: Seq<u8>)
    requires
        ascending(a + b),
    ensures
        ascending(a),
        ascending(b),
        find(a + b, key) == (match find(a, key) {
            Some(record) => Some(record),
            None => find(b, key),
        }),
{
    let c = a + b;
    assert forall|i: int, j: int| #![trigger a[i], a[j]]
        0 <= i < j < a.len() implies keys::key_lt(a[i].0, a[j].0) by {
        assert(c[i] == a[i] && c[j] == a[j]);
    }
    assert forall|i: int, j: int| #![trigger b[i], b[j]]
        0 <= i < j < b.len() implies keys::key_lt(b[i].0, b[j].0) by {
        assert(c[a.len() + i] == b[i] && c[a.len() + j] == b[j]);
    }
    if mentions(a, key) {
        let i = lemma_find_witness(a, key);
        assert(c[i] == a[i]);
        lemma_find_at(c, i);
    } else if mentions(b, key) {
        let i = lemma_find_witness(b, key);
        assert(c[a.len() + i] == b[i]);
        lemma_find_at(c, a.len() + i);
    } else {
        assert forall|i: int| 0 <= i < c.len() implies (#[trigger] c[i]).0 != key by {
            if i < a.len() {
                assert(c[i] == a[i]);
            } else {
                assert(c[i] == b[i - a.len()]);
            }
        }
        lemma_find_absent(c, key);
    }
}

/// Two ascending sources with the same contents are the same sequence.
pub proof fn lemma_same_contents(a: Seq<Entry>, b: Seq<Entry>)
    requires
        ascending(a),
        ascending(b),
        forall|key: Seq<u8>| #![trigger find(a, key)] find(a, key) == find(b, key),
    ensures
        a == b,
    decreases a.len(),
{
    keys::lemma_key_order();
    if a.len() == 0 {
        if b.len() > 0 {
            lemma_find_at(b, 0);
            assert(find(a, b[0].0) is None);
        }
        assert(a =~= b);
    } else if b.len() == 0 {
        lemma_find_at(a, 0);
        assert(find(b, a[0].0) is None);
    } else {
        lemma_find_at(a, 0);
        lemma_find_at(b, 0);
        assert(find(a, b[0].0) is Some);
        let i = lemma_find_witness(b, a[0].0);
        let j = lemma_find_witness(a, b[0].0);
        if i > 0 {
            assert(keys::key_lt(b[0].0, b[i].0));
            if j > 0 {
                assert(keys::key_lt(a[0].0, a[j].0));
            }
        }
        assert(a[0] == b[0]);
        let (ra, rb) = (a.drop_first(), b.drop_first());
        assert(a =~= seq![a[0]] + ra);
        assert(b =~= seq![b[0]] + rb);
        assert forall|key: Seq<u8>| #![trigger find(ra, key)] find(ra, key) == find(rb, key) by {
            assert(find(a, key) == find(b, key));
            lemma_find_concat(seq![a[0]], ra, key);
            lemma_find_concat(seq![b[0]], rb, key);
            if key == a[0].0 {
                assert forall|k: int| 0 <= k < ra.len() implies (#[trigger] ra[k]).0 != key by {
                    assert(ra[k] == a[k + 1]);
                    assert(keys::key_lt(a[0].0, a[k + 1].0));
                }
                assert forall|k: int| 0 <= k < rb.len() implies (#[trigger] rb[k]).0 != key by {
                    assert(rb[k] == b[k + 1]);
                    assert(keys::key_lt(b[0].0, b[k + 1].0));
                }
            } else {
                assert(seq![a[0]][0].0 != key);
                lemma_find_absent(seq![a[0]], key);
            }
        }
        assert forall|p: int, q: int| #![trigger ra[p], ra[q]]
            0 <= p < q < ra.len() implies keys::key_lt(ra[p].0, ra[q].0) by {
            assert(ra[p] == a[p + 1] && ra[q] == a[q + 1]);
        }
        assert forall|p: int, q: int| #![trigger rb[p], rb[q]]
            0 <= p < q < rb.len() implies keys::key_lt(rb[p].0, rb[q].0) by {
            assert(rb[p] == b[p + 1] && rb[q] == b[q + 1]);
        }
        lemma_same_contents(ra, rb);
    }
}

/// `rest` is what is left of `source` once every entry up to and including `key` is gone.
pub open spec fn trimmed(rest: Seq<Entry>, source: Seq<Entry>, key: Seq<u8>) -> bool {
    &&& ascending(rest)
    &&& forall|k: Seq<u8>|
        #![trigger find(rest, k)]
        find(rest, k) == (if keys::key_lt(key, k) {
            find(source, k)
        } else {
            None
        })
}

/// Dropping the first entry of an ascending source drops just its key.
pub proof fn lemma_find_drop_first(source: Seq<Entry>, key: Seq<u8>)
    requires
        ascending(source),
        source.len() > 0,
    ensures
        ascending(source.drop_first()),
        find(source.drop_first(), key) == (if key == source[0].0 {
            None
        } else {
            find(source, key)
        }),
{
    let rest = source.drop_first();
    assert(source =~= seq![source[0]] + rest);
    lemma_find_concat(seq![source[0]], rest, key);
    if key == source[0].0 {
        keys::lemma_key_order();
        assert forall|k: int| 0 <= k < rest.len() implies (#[trigger] rest[k]).0 != key by {
            assert(rest[k] == source[k + 1]);
            assert(keys::key_lt(source[0].0, source[k + 1].0));
        }
        lemma_find_absent(rest, key);
    } else {
        assert(seq![source[0]][0].0 != key);
        lemma_find_absent(seq![source[0]], key);
    }
}

/// An ascending source holds nothing below its first key.
pub proof fn lemma_find_below(source: Seq<Entry>, key: Seq<u8>)
    requires
        ascending(source),
        source.len() > 0 ==> keys::key_lt(key, source[0].0),
    ensures
        find(source, key) is None,
{
    keys::lemma_key_order();
    assert forall|i: int| 0 <= i < source.len() implies (#[trigger] source[i]).0 != key by {
        if i > 0 {
            assert(keys::key_lt(source[0].0, source[i].0));
        }
    }
    lemma_find_absent(source, key);
}

/// Taking `key` off the front of a source whose keys are not below it trims it by `key`.
pub proof fn lemma_trim_head(source: Seq<Entry>, key: Seq<u8>)
    requires
        ascending(source),
        source.len() > 0 ==> keys::key_le(key, source[0].0),
    ensures
        trimmed(
            if source.len() > 0 && source[0].0 == key {
                source.drop_first()
            } else {
                source
            },
            source,
            key,
        ),
{
    keys::lemma_key_order();
    let rest = if source.len() > 0 && source[0].0 == key {
        source.drop_first()
    } else {
        source
    };
    if source.len() > 0 {
        lemma_find_drop_first(source, key);
    }
    assert forall|k: Seq<u8>| #![trigger find(rest, k)]
        find(rest, k) == (if keys::key_lt(key, k) {
            find(source, k)
        } else {
            None
        }) by {
        if source.len() > 0 {
            lemma_find_drop_first(source, k);
            if !keys::key_lt(key, k) && k != source[0].0 {
                assert(keys::key_lt(k, source[0].0)) by {
                    keys::lemma_key_total(key, k);
                    keys::lemma_key_total(k, source[0].0);
                    if key != source[0].0 && k != key {
                        keys::lemma_key_transitive(k, key, source[0].0);
                    }
                }
                lemma_find_below(source, k);
            }
        }
    }
}

/// Trimming twice is trimming by the later key.
pub proof fn lemma_trim_twice(
    rest: Seq<Entry>,
    middle: Seq<Entry>,
    source: Seq<Entry>,
    first: Seq<u8>,
    second: Seq<u8>,
)
    requires
        trimmed(middle, source, first),
        trimmed(rest, middle, second),
        keys::key_lt(first, second),
    ensures
        trimmed(rest, source, second),
{
    assert forall|k: Seq<u8>| #![trigger find(rest, k)]
        find(rest, k) == (if keys::key_lt(second, k) {
            find(source, k)
        } else {
            None
        }) by {
        assert(find(rest, k) == (if keys::key_lt(second, k) {
            find(middle, k)
        } else {
            None
        }));
        assert(find(middle, k) == (if keys::key_lt(first, k) {
            find(source, k)
        } else {
            None
        }));
        if keys::key_lt(second, k) {
            keys::lemma_key_transitive(first, second, k);
        }
    }
}

/// The newest record depends only on what each source holds for the key.
pub proof fn lemma_newest_congruent(a: Seq<Seq<Entry>>, b: Seq<Seq<Entry>>, key: Seq<u8>)
    requires
        a.len() == b.len(),
        forall|i: int| 0 <= i < a.len() ==> find(#[trigger] a[i], key) == find(b[i], key),
    ensures
        newest(a, key) == newest(b, key),
    decreases a.len(),
{
    if a.len() > 0 {
        let (ra, rb) = (a.drop_first(), b.drop_first());
        assert(find(a[0], key) == find(b[0], key));
        assert forall|i: int| 0 <= i < ra.len() implies find(#[trigger] ra[i], key) == find(
            rb[i],
            key,
        ) by {
            assert(ra[i] == a[i + 1] && rb[i] == b[i + 1]);
        }
        lemma_newest_congruent(ra, rb, key);
    }
}

/// What is newest comes from one of the sources.
pub proof fn lemma_newest_witness(sources: Seq<Seq<Entry>>, key: Seq<u8>) -> (i: int)
    requires
        newest(sources, key) is Some,
    ensures
        0 <= i < sources.len(),
        find(sources[i], key) == newest(sources, key),
    decreases sources.len(),
{
    if find(sources[0], key) is Some {
        0
    } else {
        let j = lemma_newest_witness(sources.drop_first(), key);
        assert(sources.drop_first()[j] == sources[j + 1]);
        j + 1
    }
}

/// Nothing is newest where no source mentions the key.
pub proof fn lemma_newest_absent(sources: Seq<Seq<Entry>>, key: Seq<u8>)
    requires
        forall|i: int| 0 <= i < sources.len() ==> find(#[trigger] sources[i], key) is None,
    ensures
        newest(sources, key) is None,
    decreases sources.len(),
{
    if sources.len() > 0 {
        assert(find(sources[0], key) is None);
        let rest = sources.drop_first();
        assert forall|i: int| 0 <= i < rest.len() implies find(#[trigger] rest[i], key) is None by {
            assert(rest[i] == sources[i + 1]);
        }
        lemma_newest_absent(rest, key);
    }
}

/// The newest record of two lists of sources joined: the first list decides unless it
/// does not mention the key.
pub proof fn lemma_newest_concat(a: Seq<Seq<Entry>>, b: Seq<Seq<Entry>>, key: Seq<u8>)
    ensures
        newest(a + b, key) == (match newest(a, key) {
            Some(record) => Some(record),
            None => newest(b, key),
        }),
    decreases a.len(),
{
    if a.len() == 0 {
        assert(a + b =~= b);
    } else {
        assert((a + b).drop_first() =~= a.drop_first() + b);
        assert((a + b)[0] == a[0]);
        lemma_newest_concat(a.drop_first(), b, key);
    }
}

/// A single source decides by itself.
pub proof fn lemma_newest_single(source: Seq<Entry>, key: Seq<u8>)
    ensures
        newest(seq![source], key) == find(source, key),
{
    reveal_with_fuel(newest, 2);
    assert(seq![source].drop_first() =~= seq![]);
}

} // verus!
