//! The in-memory write buffer.
//!
//! Every write lands first in a [`MemTable`]: the most recent record per key, in key
//! order. Flushing it therefore produces a sorted run in a single pass. The table tracks
//! the key and value bytes it holds, so the engine can decide when it is full.
use vstd::prelude::*;
use crate::keys;
use crate::keys::KeyOrder;
use crate::model;
use crate::record;
use crate::record::{Entry, Item, Record};

verus! {

/// The key and value bytes of an entry.
pub open spec fn entry_size(e: Entry) -> nat {
    e.0.len() + record::value_size(e.1)
}

/// The key and value bytes of a sequence of entries.
pub open spec fn total_size(es: Seq<Entry>) -> nat
    decreases es.len(),
{
    if es.len() == 0 {
        0
    } else {
        total_size(es.drop_last()) + entry_size(es.last())
    }
}

/// `now` is `was` with `key` mapped to `record`; every other key is as it was.
pub open spec fn applied(
    now: Seq<Entry>,
    was: Seq<Entry>,
    key: Seq<u8>,
    record: Option<Seq<u8>>,
) -> bool {
    &&& model::ascending(now)
    &&& forall|k: Seq<u8>|
        #![trigger model::find(now, k)]
        model::find(now, k) == (if k == key {
            Some(record)
        } else {
            model::find(was, k)
        })
}

/// The size after mapping `key` to `record`: a new key adds its bytes and the value's, an
/// existing one swaps the value's.
pub open spec fn applied_size(was: Seq<Entry>, key: Seq<u8>, record: Option<Seq<u8>>) -> int {
    match model::find(was, key) {
        Some(previous) => total_size(was) - record::value_size(previous) + record::value_size(
            record,
        ),
        None => (total_size(was) + key.len() + record::value_size(record)) as int,
    }
}

/// The record that the last of `ops` for `key` leaves, if one of them is for it.
pub open spec fn last_write(ops: Seq<Entry>, key: Seq<u8>) -> Option<Option<Seq<u8>>>
    decreases ops.len(),
{
    if ops.len() == 0 {
        None
    } else if ops.last().0 == key {
        Some(ops.last().1)
    } else {
        last_write(ops.drop_last(), key)
    }
}

/// `now` is `was` after `ops` in order: the last write of a key wins, and keys that are
/// not written are as they were.
pub open spec fn applied_all(now: Seq<Entry>, was: Seq<Entry>, ops: Seq<Entry>) -> bool {
    &&& model::ascending(now)
    &&& forall|k: Seq<u8>|
        #![trigger model::find(now, k)]
        model::find(now, k) == (match last_write(ops, k) {
            Some(record) => Some(record),
            None => model::find(was, k),
        })
}

/// The last write in joined groups is that of the second group, if it has one.
pub proof fn lemma_last_write_concat(first: Seq<Entry>, second: Seq<Entry>, key: Seq<u8>)
    ensures
        last_write(first + second, key) == (match last_write(second, key) {
            Some(record) => Some(record),
            None => last_write(first, key),
        }),
    decreases second.len(),
{
    if second.len() == 0 {
        assert(first + second =~= first);
    } else {
        assert((first + second).drop_last() =~= first + second.drop_last());
        assert((first + second).last() == second.last());
        lemma_last_write_concat(first, second.drop_last(), key);
    }
}

/// What two groups of operations leave, one after the other, is what the joined group
/// leaves.
pub proof fn lemma_groups_compose(
    start: Seq<Entry>,
    middle: Seq<Entry>,
    end: Seq<Entry>,
    first: Seq<Entry>,
    second: Seq<Entry>,
)
    requires
        applied_all(middle, start, first),
        applied_all(end, middle, second),
    ensures
        applied_all(end, start, first + second),
{
    assert forall|k: Seq<u8>| #![trigger model::find(end, k)]
        model::find(end, k) == (match last_write(first + second, k) {
            Some(record) => Some(record),
            None => model::find(start, k),
        }) by {
        lemma_last_write_concat(first, second, k);
        assert(model::find(middle, k) == (match last_write(first, k) {
            Some(record) => Some(record),
            None => model::find(start, k),
        }));
    }
}

/// The sizes of joined sequences add up.
pub proof fn lemma_total_size_concat(a: Seq<Entry>, b: Seq<Entry>)
    ensures
        total_size(a + b) == total_size(a) + total_size(b),
    decreases b.len(),
{
    if b.len() == 0 {
        assert(a + b =~= a);
    } else {
        assert((a + b).drop_last() =~= a + b.drop_last());
        lemma_total_size_concat(a, b.drop_last());
    }
}

/// The size of a single entry.
proof fn lemma_total_size_single(e: Entry)
    ensures
        total_size(seq![e]) == entry_size(e),
{
    reveal_with_fuel(total_size, 2);
    assert(seq![e].drop_last() =~= seq![]);
}

/// Putting an entry between those below its key and those above it.
proof fn lemma_between(below: Seq<Entry>, above: Seq<Entry>, e: Entry)
    requires
        model::ascending(below),
        model::ascending(above),
        forall|i: int| 0 <= i < below.len() ==> keys::key_lt((#[trigger] below[i]).0, e.0),
        forall|i: int| 0 <= i < above.len() ==> keys::key_lt(e.0, (#[trigger] above[i]).0),
    ensures
        model::ascending(below + seq![e] + above),
        total_size(below + seq![e] + above) == total_size(below) + entry_size(e) + total_size(
            above,
        ),
        forall|k: Seq<u8>|
            #![trigger model::find(below + seq![e] + above, k)]
            model::find(below + seq![e] + above, k) == (if k == e.0 {
                Some(e.1)
            } else {
                match model::find(below, k) {
                    Some(r) => Some(r),
                    None => model::find(above, k),
                }
            }),
{
    keys::lemma_key_order();
    let all = below + seq![e] + above;
    let n = below.len() as int;
    assert forall|i: int, j: int| #![trigger all[i], all[j]]
        0 <= i < j < all.len() implies keys::key_lt(all[i].0, all[j].0) by {
        if j < n {
            assert(all[i] == below[i] && all[j] == below[j]);
        } else if i > n {
            assert(all[i] == above[i - n - 1] && all[j] == above[j - n - 1]);
        } else {
            if i < n {
                assert(all[i] == below[i]);
            }
            if j > n {
                assert(all[j] == above[j - n - 1]);
            }
            if i < n && j > n {
                keys::lemma_key_transitive(below[i].0, e.0, above[j - n - 1].0);
            }
        }
    }
    lemma_total_size_concat(below, seq![e]);
    lemma_total_size_concat(below + seq![e], above);
    lemma_total_size_single(e);
    assert forall|k: Seq<u8>| #![trigger model::find(all, k)]
        model::find(all, k) == (if k == e.0 {
            Some(e.1)
        } else {
            match model::find(below, k) {
                Some(r) => Some(r),
                None => model::find(above, k),
            }
        }) by {
        model::lemma_find_concat(below + seq![e], above, k);
        model::lemma_find_concat(below, seq![e], k);
        if k == e.0 {
            assert(all[n] == e);
            model::lemma_find_at(all, n);
        } else {
            assert(seq![e][0].0 != k);
            model::lemma_find_absent(seq![e], k);
        }
    }
}

/// An in-memory sorted buffer of recent writes.
#[derive(Debug)]
pub struct MemTable {
    items: Vec<Item>,
    approx_size: usize,
}

impl View for MemTable {
    type V = Seq<Entry>;

    /// The buffered entries, in key order.
    closed spec fn view(&self) -> Seq<Entry> {
        record::entries(self.items@)
    }
}

impl MemTable {
    /// The entries ascend strictly, so no key occurs twice, and the size is theirs.
    pub closed spec fn wf(&self) -> bool {
        &&& model::ascending(self@)
        &&& self.approx_size == total_size(self@)
    }

    /// A well-formed buffer is an ascending source, and the size of what it holds can be
    /// counted.
    pub proof fn lemma_wf(&self)
        requires
            self.wf(),
        ensures
            model::ascending(self@),
            total_size(self@) <= usize::MAX,
            self@.len() <= usize::MAX,
    {
        assert(self@.len() == self.items.len());
    }

    /// An empty buffer.
    pub fn new() -> (table: MemTable)
        ensures
            table.wf(),
            table@ == Seq::<Entry>::empty(),
    {
        let table = MemTable { items: Vec::new(), approx_size: 0 };
        assert(table@ =~= seq![]);
        table
    }

    /// The position of the first entry whose key is not below `key`, and whether it is
    /// for `key`.
    fn position(&self, key: &[u8]) -> (at: (usize, bool))
        requires
            self.wf(),
        ensures
            at.0 <= self@.len(),
            at.0 <= self.items@.len(),
            forall|i: int| 0 <= i < at.0 ==> keys::key_lt((#[trigger] self@[i]).0, key@),
            at.1 ==> at.0 < self@.len() && self@[at.0 as int].0 == key@,
            forall|i: int|
                at.0 <= i < self@.len() && (i > at.0 || !at.1) ==> keys::key_lt(
                    key@,
                    (#[trigger] self@[i]).0,
                ),
    {
        let mut lo: usize = 0;
        let mut hi: usize = self.items.len();
        while lo < hi
            invariant
                self.wf(),
                lo <= hi <= self.items@.len(),
                self@.len() == self.items@.len(),
                forall|i: int| 0 <= i < lo ==> keys::key_lt((#[trigger] self@[i]).0, key@),
                forall|i: int| hi <= i < self@.len() ==> keys::key_lt(key@, (#[trigger] self@[i]).0),
            decreases hi - lo,
        {
            let mid: usize = lo + (hi - lo) / 2;
            assert(self@[mid as int] == record::entry(self.items@[mid as int]));
            proof {
                keys::lemma_key_order();
            }
            match keys::compare_keys(self.items[mid].0.as_slice(), key) {
                KeyOrder::Before => {
                    lo = mid + 1;
                },
                KeyOrder::Same => {
                    return (mid, true);
                },
                KeyOrder::After => {
                    hi = mid;
                },
            }
        }
        (lo, false)
    }

    /// Maps `key` to `record`, replacing any record it had.
    pub fn apply(&mut self, key: Vec<u8>, record: Record)
        requires
            old(self).wf(),
            applied_size(old(self)@, key@, record@) <= usize::MAX,
        ensures
            final(self).wf(),
            applied(final(self)@, old(self)@, key@, record@),
            total_size(final(self)@) == applied_size(old(self)@, key@, record@),
    {
        let ghost was = self@;
        let ghost e = (key@, record@);
        let (at, present) = self.position(key.as_slice());
        let ghost below = was.take(at as int);
        proof {
            assert(was.len() == self.items@.len());
        }
        if present {
            let ghost above = was.skip(at + 1);
            proof {
                lemma_split(was, at as int);
                assert(was[at as int] == record::entry(self.items@[at as int]));
                model::lemma_find_at(was, at as int);
                lemma_between(below, above, e);
                lemma_between(below, above, was[at as int]);
                assert(below + seq![was[at as int]] + above =~= was);
            }
            let old_len: usize = self.items[at].1.value_len();
            let new_len: usize = record.value_len();
            self.approx_size = self.approx_size - old_len + new_len;
            self.items[at] = (key, record);
            proof {
                assert(self@ =~= below + seq![e] + above);
                assert forall|k: Seq<u8>| #![trigger model::find(self@, k)]
                    model::find(self@, k) == (if k == e.0 {
                        Some(e.1)
                    } else {
                        model::find(was, k)
                    }) by {
                    assert(model::find(below + seq![was[at as int]] + above, k) == model::find(
                        was,
                        k,
                    ));
                }
            }
        } else {
            let ghost above = was.skip(at as int);
            proof {
                assert(below + above =~= was);
                model::lemma_find_concat(below, above, e.0);
                lemma_between(below, above, e);
                lemma_total_size_concat(below, above);
                keys::lemma_key_order();
                assert forall|i: int| 0 <= i < was.len() implies (#[trigger] was[i]).0 != e.0 by {}
                model::lemma_find_absent(was, e.0);
            }
            self.approx_size = self.approx_size + (key.len() + record.value_len());
            self.items.insert(at, (key, record));
            proof {
                assert(self@ =~= below + seq![e] + above);
                assert forall|k: Seq<u8>| #![trigger model::find(self@, k)]
                    model::find(self@, k) == (if k == e.0 {
                        Some(e.1)
                    } else {
                        model::find(was, k)
                    }) by {
                    model::lemma_find_concat(below, above, k);
                }
            }
        }
    }

    /// Applies `ops` in order, so the last write of a key wins.
    pub fn apply_all(&mut self, ops: Vec<Item>)
        requires
            old(self).wf(),
            total_size(old(self)@) + total_size(record::entries(ops@)) <= usize::MAX,
        ensures
            final(self).wf(),
            applied_all(final(self)@, old(self)@, record::entries(ops@)),
            total_size(final(self)@) <= total_size(old(self)@) + total_size(
                record::entries(ops@),
            ),
    {
        let ghost was = self@;
        let ghost all = record::entries(ops@);
        let ghost items = ops@;
        let mut left = record::reversed(ops);
        proof {
            assert(left@.reverse() =~= items);
            assert(all.take(0) =~= seq![]);
        }
        while left.len() > 0
            invariant
                self.wf(),
                all == record::entries(items),
                left@.len() <= items.len(),
                left@ == items.skip(items.len() - left@.len()).reverse(),
                total_size(was) + total_size(all) <= usize::MAX,
                total_size(self@) <= total_size(was) + total_size(
                    all.take(items.len() - left@.len()),
                ),
                applied_all(self@, was, all.take(items.len() - left@.len())),
            decreases left@.len(),
        {
            let ghost n = items.len() - left@.len();
            let ghost before = self@;
            match left.pop() {
                Some(item) => {
                    proof {
                        assert(item == items[n as int]);
                        assert(all[n as int] == record::entry(item));
                        assert(all.take(n + 1).drop_last() =~= all.take(n as int));
                        assert(all.take(n + 1).last() == all[n as int]);
                        assert(all.take(n + 1) + all.skip(n + 1) =~= all);
                        lemma_total_size_concat(all.take(n + 1), all.skip(n + 1));
                        assert(left@ =~= items.skip(n + 1).reverse());
                    }
                    self.apply(item.0, item.1);
                    proof {
                        assert forall|k: Seq<u8>| #![trigger model::find(self@, k)]
                            model::find(self@, k) == (match last_write(all.take(n + 1), k) {
                                Some(record) => Some(record),
                                None => model::find(was, k),
                            }) by {
                            if k != all[n as int].0 {
                                assert(model::find(self@, k) == model::find(before, k));
                            }
                        }
                    }
                },
                None => {},
            }
        }
        assert(all.take(items.len() as int) =~= all);
    }

    /// The record buffered for `key`, if there is one.
    pub fn get(&self, key: &[u8]) -> (record: Option<&Record>)
        requires
            self.wf(),
        ensures
            model::find(self@, key@) == (match record {
                Some(r) => Some(r@),
                None => None,
            }),
    {
        let (at, present) = self.position(key);
        if present {
            proof {
                model::lemma_find_at(self@, at as int);
                assert(self@[at as int] == record::entry(self.items@[at as int]));
            }
            Some(&self.items[at].1)
        } else {
            proof {
                keys::lemma_key_order();
                assert forall|i: int| 0 <= i < self@.len() implies (#[trigger] self@[i]).0
                    != key@ by {}
                model::lemma_find_absent(self@, key@);
            }
            None
        }
    }

    /// The key and value bytes held.
    pub fn approx_size(&self) -> (size: usize)
        requires
            self.wf(),
        ensures
            size == total_size(self@),
    {
        self.approx_size
    }

    /// The number of keys held.
    pub fn len(&self) -> (n: usize)
        ensures
            n == self@.len(),
    {
        self.items.len()
    }

    /// Whether the buffer holds nothing.
    pub fn is_empty(&self) -> (empty: bool)
        ensures
            empty == (self@.len() == 0),
    {
        self.items.len() == 0
    }

    /// The buffered items, in key order.
    pub fn iter(&self) -> (items: &Vec<Item>)
        ensures
            record::entries(items@) == self@,
    {
        &self.items
    }

    /// Takes everything out, leaving the buffer empty.
    pub fn take(&mut self) -> (items: Vec<Item>)
        ensures
            record::entries(items@) == old(self)@,
            final(self)@ == Seq::<Entry>::empty(),
            final(self).wf(),
    {
        let mut items: Vec<Item> = Vec::new();
        core::mem::swap(&mut items, &mut self.items);
        self.approx_size = 0;
        assert(self@ =~= seq![]);
        items
    }
}

/// Splitting an ascending source around one of its entries.
proof fn lemma_split(source: Seq<Entry>, at: int)
    requires
        model::ascending(source),
        0 <= at < source.len(),
    ensures
        model::ascending(source.take(at)),
        model::ascending(source.skip(at + 1)),
        forall|i: int|
            0 <= i < at ==> keys::key_lt((#[trigger] source.take(at)[i]).0, source[at].0),
        forall|i: int|
            0 <= i < source.skip(at + 1).len() ==> keys::key_lt(
                source[at].0,
                (#[trigger] source.skip(at + 1)[i]).0,
            ),
{
    let (a, b) = (source.take(at), source.skip(at + 1));
    assert forall|i: int, j: int| #![trigger a[i], a[j]]
        0 <= i < j < a.len() implies keys::key_lt(a[i].0, a[j].0) by {
        assert(a[i] == source[i] && a[j] == source[j]);
    }
    assert forall|i: int, j: int| #![trigger b[i], b[j]]
        0 <= i < j < b.len() implies keys::key_lt(b[i].0, b[j].0) by {
        assert(b[i] == source[at + 1 + i] && b[j] == source[at + 1 + j]);
    }
    assert forall|i: int| 0 <= i < at implies keys::key_lt((#[trigger] a[i]).0, source[at].0) by {
        assert(a[i] == source[i]);
    }
    assert forall|i: int| 0 <= i < b.len() implies keys::key_lt(
        source[at].0,
        (#[trigger] b[i]).0,
    ) by {
        assert(b[i] == source[at + 1 + i]);
    }
}

} // verus!
