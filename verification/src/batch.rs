//! Grouped writes.
//!
//! A batch collects puts and deletes that are applied as one group, in the order they
//! were recorded.
use vstd::prelude::*;
use crate::record;
use crate::record::{Entry, Item, Record};

verus! {

/// One operation of a batch.
#[derive(Debug, PartialEq, Eq)]
pub enum Op {
    /// Set the key to this value.
    Put(Vec<u8>),
    /// Delete the key.
    Delete,
}

impl View for Op {
    type V = Option<Seq<u8>>;

    /// `Some` value, or `None` for a deletion.
    open spec fn view(&self) -> Option<Seq<u8>> {
        match self {
            Op::Put(value) => Some(value@),
            Op::Delete => None,
        }
    }
}

impl Clone for Op {
    fn clone(&self) -> (copy: Op)
        ensures
            copy@ == self@,
    {
        match self {
            Op::Put(value) => Op::Put(vstd::slice::slice_to_vec(value.as_slice())),
            Op::Delete => Op::Delete,
        }
    }
}

/// The values of recorded operations.
pub open spec fn op_entries(ops: Seq<(Vec<u8>, Op)>) -> Seq<Entry> {
    ops.map_values(|op: (Vec<u8>, Op)| (op.0@, op.1@))
}

/// An ordered group of writes.
#[derive(Debug)]
pub struct Batch {
    ops: Vec<(Vec<u8>, Op)>,
}

impl View for Batch {
    type V = Seq<Entry>;

    /// The operations, in the order they were recorded.
    closed spec fn view(&self) -> Seq<Entry> {
        op_entries(self.ops@)
    }
}

impl Batch {
    /// An empty batch.
    pub fn new() -> (batch: Batch)
        ensures
            batch@ == Seq::<Entry>::empty(),
    {
        let batch = Batch { ops: Vec::new() };
        assert(batch@ =~= seq![]);
        batch
    }

    /// Records setting `key` to `value`.
    pub fn put(&mut self, key: &[u8], value: &[u8])
        ensures
            final(self)@ == old(self)@.push((key@, Some(value@))),
    {
        self.ops.push(
            (vstd::slice::slice_to_vec(key), Op::Put(vstd::slice::slice_to_vec(value))),
        );
        assert(self@ =~= old(self)@.push((key@, Some(value@))));
    }

    /// Records deleting `key`.
    pub fn delete(&mut self, key: &[u8])
        ensures
            final(self)@ == old(self)@.push((key@, None)),
    {
        self.ops.push((vstd::slice::slice_to_vec(key), Op::Delete));
        assert(self@ =~= old(self)@.push((key@, None)));
    }

    /// The number of recorded operations.
    pub fn len(&self) -> (n: usize)
        ensures
            n == self@.len(),
    {
        self.ops.len()
    }

    /// Whether nothing is recorded.
    pub fn is_empty(&self) -> (empty: bool)
        ensures
            empty == (self@.len() == 0),
    {
        self.ops.len() == 0
    }

    /// The recorded operations, in order.
    pub fn into_ops(self) -> (ops: Vec<(Vec<u8>, Op)>)
        ensures
            op_entries(ops@) == self@,
    {
        self.ops
    }

    /// The recorded operations as items for the write buffer, in order.
    pub fn into_items(self) -> (items: Vec<Item>)
        ensures
            record::entries(items@) == self@,
    {
        let mut ops = self.into_ops();
        let ghost all = ops@;
        let mut left: Vec<Item> = Vec::new();
        assert(all.skip(all.len() as int) =~= seq![]);
        while ops.len() > 0
            invariant
                ops@.len() <= all.len(),
                ops@ == all.take(ops@.len() as int),
                record::entries(left@.reverse()) == op_entries(all.skip(ops@.len() as int)),
            decreases ops@.len(),
        {
            let ghost n = ops@.len() as int;
            let ghost before = left@;
            match ops.pop() {
                Some((key, op)) => {
                    let record = match op {
                        Op::Put(value) => Record::Value(value),
                        Op::Delete => Record::Tombstone,
                    };
                    left.push((key, record));
                    proof {
                        assert(all[n - 1] == (key, op));
                        assert(ops@ =~= all.take(n - 1));
                        assert(left@.reverse() =~= seq![left@.last()] + before.reverse());
                        assert(record::entries(left@.reverse()) =~= seq![
                            record::entry(left@.last()),
                        ] + record::entries(before.reverse()));
                        assert(op_entries(all.skip(n - 1)) =~= seq![(key@, op@)] + op_entries(
                            all.skip(n),
                        ));
                    }
                },
                None => {},
            }
        }
        assert(all.skip(0) =~= all);
        record::reversed(left)
    }
}

impl Clone for Batch {
    fn clone(&self) -> (copy: Batch)
        ensures
            copy@ == self@,
    {
        let mut ops: Vec<(Vec<u8>, Op)> = Vec::new();
        let mut i: usize = 0;
        while i < self.ops.len()
            invariant
                i <= self.ops@.len(),
                op_entries(ops@) == op_entries(self.ops@).take(i as int),
            decreases self.ops@.len() - i,
        {
            let ghost before = ops@;
            ops.push((vstd::slice::slice_to_vec(self.ops[i].0.as_slice()), self.ops[i].1.clone()));
            proof {
                let all = op_entries(self.ops@);
                assert(op_entries(ops@) =~= op_entries(before).push(all[i as int]));
                assert(all.take(i + 1) =~= all.take(i as int).push(all[i as int]));
            }
            i += 1;
        }
        assert(op_entries(self.ops@).take(i as int) =~= op_entries(self.ops@));
        Batch { ops }
    }
}

impl Default for Batch {
    fn default() -> (batch: Batch)
        ensures
            batch@ == Seq::<Entry>::empty(),
    {
        Batch::new()
    }
}

} // verus!
