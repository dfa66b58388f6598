//! Range iteration.
//!
//! A scan is a consistent snapshot of a key range. Its pairs come in ascending key order,
//! and can be taken from either end.
use std::collections::VecDeque;
use vstd::prelude::*;
use crate::model::Pair;

verus! {

/// The value of one pair.
pub open spec fn pair(item: (Vec<u8>, Vec<u8>)) -> Pair {
    (item.0@, item.1@)
}

/// The values of a sequence of pairs.
pub open spec fn pairs(items: Seq<(Vec<u8>, Vec<u8>)>) -> Seq<Pair> {
    items.map_values(|item: (Vec<u8>, Vec<u8>)| pair(item))
}

/// The remaining pairs of a range scan.
#[derive(Debug)]
pub struct Scan {
    items: VecDeque<(Vec<u8>, Vec<u8>)>,
}

impl View for Scan {
    type V = Seq<Pair>;

    /// The pairs not taken yet, in ascending key order.
    closed spec fn view(&self) -> Seq<Pair> {
        pairs(self.items@)
    }
}

impl Scan {
    /// A scan over some pairs.
    pub fn new(entries: Vec<(Vec<u8>, Vec<u8>)>) -> (scan: Scan)
        ensures
            scan@ == pairs(entries@),
    {
        let mut entries = entries;
        let ghost all = entries@;
        let mut items: VecDeque<(Vec<u8>, Vec<u8>)> = VecDeque::new();
        assert(items@ =~= all.skip(all.len() as int));
        while entries.len() > 0
            invariant
                entries@.len() <= all.len(),
                entries@ == all.take(entries@.len() as int),
                items@ == all.skip(entries@.len() as int),
            decreases entries@.len(),
        {
            let ghost n = entries@.len() as int;
            match entries.pop() {
                Some(item) => {
                    items.push_front(item);
                    assert(entries@ =~= all.take(n - 1));
                    assert(items@ =~= all.skip(n - 1));
                },
                None => {},
            }
        }
        assert(all.skip(0) =~= all);
        Scan { items }
    }

    /// Takes the first remaining pair.
    pub fn next(&mut self) -> (item: Option<(Vec<u8>, Vec<u8>)>)
        ensures
            match item {
                Some(p) => {
                    &&& old(self)@.len() > 0
                    &&& pair(p) == old(self)@[0]
                    &&& final(self)@ == old(self)@.drop_first()
                },
                None => old(self)@.len() == 0 && final(self)@ == old(self)@,
            },
    {
        let item = self.items.pop_front();
        proof {
            if item is Some {
                assert(self@ =~= old(self)@.drop_first());
            } else {
                assert(self@ =~= old(self)@);
            }
        }
        item
    }

    /// Takes the last remaining pair.
    pub fn next_back(&mut self) -> (item: Option<(Vec<u8>, Vec<u8>)>)
        ensures
            match item {
                Some(p) => old(self)@.len() > 0 && pair(p) == old(self)@.last() && final(self)@
                    == old(self)@.drop_last(),
                None => old(self)@.len() == 0 && final(self)@ == old(self)@,
            },
    {
        let item = self.items.pop_back();
        proof {
            if item is Some {
                assert(self@ =~= old(self)@.drop_last());
            } else {
                assert(self@ =~= old(self)@);
            }
        }
        item
    }

    /// The number of remaining pairs.
    pub fn len(&self) -> (n: usize)
        ensures
            n == self@.len(),
    {
        self.items.len()
    }

    /// The number of remaining pairs, as the bounds an iterator reports.
    pub fn size_hint(&self) -> (bounds: (usize, Option<usize>))
        ensures
            bounds.0 == self@.len(),
            bounds.1 == Some(bounds.0),
    {
        let n: usize = self.items.len();
        (n, Some(n))
    }
}

} // verus!
