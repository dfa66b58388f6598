//! The value a key maps to within one source.
use vstd::prelude::*;

verus! {

/// What a key maps to in one source: the write buffer or a single sorted run.
#[derive(Debug, PartialEq, Eq)]
pub enum Record {
    /// The key maps to this value.
    Value(Vec<u8>),
    /// The key has been deleted; any older value is masked.
    Tombstone,
}

impl View for Record {
    type V = Option<Seq<u8>>;

    /// `Some` value, or `None` for a deletion.
    open spec fn view(&self) -> Option<Seq<u8>> {
        match self {
            Record::Value(value) => Some(value@),
            Record::Tombstone => None,
        }
    }
}

impl Clone for Record {
    fn clone(&self) -> (copy: Record)
        ensures
            copy@ == self@,
    {
        match self {
            Record::Value(value) => Record::Value(vstd::slice::slice_to_vec(value.as_slice())),
            Record::Tombstone => Record::Tombstone,
        }
    }
}

/// The number of value bytes behind a record's view: zero for a deletion.
pub open spec fn value_size(record: Option<Seq<u8>>) -> nat {
    match record {
        Some(value) => value.len(),
        None => 0,
    }
}

impl Record {
    /// The number of value bytes this record holds (zero for a tombstone).
    pub fn value_len(&self) -> (len: usize)
        ensures
            len == value_size(self@),
    {
        match self {
            Record::Value(value) => value.len(),
            Record::Tombstone => 0,
        }
    }
}

/// A key with its record, as one source holds them.
pub type Item = (Vec<u8>, Record);

/// The value of an [`Item`]: a key, and `Some` value or `None` for a deletion.
pub type Entry = (Seq<u8>, Option<Seq<u8>>);

/// The value of one item.
pub open spec fn entry(item: Item) -> Entry {
    (item.0@, item.1@)
}

/// The values of a sequence of items.
pub open spec fn entries(items: Seq<Item>) -> Seq<Entry> {
    items.map_values(|item: Item| entry(item))
}

/// Copies an item.
pub fn clone_item(item: &Item) -> (copy: Item)
    ensures
        entry(copy) == entry(*item),
{
    (vstd::slice::slice_to_vec(item.0.as_slice()), item.1.clone())
}

/// The items in the opposite order.
pub fn reversed(items: Vec<Item>) -> (out: Vec<Item>)
    ensures
        out@ == items@.reverse(),
{
    let mut items = items;
    let mut out: Vec<Item> = Vec::new();
    let ghost all = items@;
    while items.len() > 0
        invariant
            items@.len() + out@.len() == all.len(),
            items@ == all.take(items@.len() as int),
            out@ == all.skip(items@.len() as int).reverse(),
        decreases items@.len(),
    {
        let ghost n = items@.len() as int;
        match items.pop() {
            Some(item) => {
                out.push(item);
                proof {
                    assert(item == all[n - 1]);
                    assert(items@ =~= all.take(n - 1));
                    assert(out@ =~= all.skip(n - 1).reverse());
                }
            },
            None => {},
        }
    }
    assert(all.skip(0) =~= all);
    out
}

} // verus!
