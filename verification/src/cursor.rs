//! Walking a run from its first entry to its last, one block at a time.
use std::sync::Arc;
use vstd::prelude::*;
use crate::error::Error;
use crate::keys;
use crate::model;
use crate::record;
use crate::record::{Entry, Item};
use crate::sstable;
use crate::sstable::SsTable;

verus! {

/// A peeking cursor over a run's entries.
///
/// A failed block read stops the cursor: it reports no more entries until the error is
/// taken.
#[derive(Debug)]
pub struct RunCursor {
    table: Arc<SsTable>,
    next_block: usize,
    /// What is left of the current block, last entry first.
    block: Vec<Item>,
    peeked: Option<Item>,
    error: Option<Error>,
}

/// An optional item as a sequence of at most one entry.
pub open spec fn peeked_entries(peeked: Option<Item>) -> Seq<Entry> {
    match peeked {
        Some(item) => seq![record::entry(item)],
        None => seq![],
    }
}

impl RunCursor {
    /// The run that is walked.
    pub closed spec fn run(&self) -> SsTable {
        *self.table
    }

    /// The entry that is ready, if one is.
    pub closed spec fn ready(&self) -> Option<Item> {
        self.peeked
    }

    /// The error that stopped the cursor, if one did.
    pub closed spec fn fault(&self) -> Option<Error> {
        self.error
    }

    /// The number of blocks not read yet.
    pub closed spec fn blocks_left(&self) -> nat {
        (self.table@.index.len() - self.next_block) as nat
    }

    /// The number of entries read and not taken yet.
    pub closed spec fn items_left(&self) -> nat {
        self.block@.len() + peeked_entries(self.peeked).len()
    }

    /// What the cursor has still to yield when the run's file is `image`.
    pub closed spec fn rest(&self, image: Seq<u8>) -> Seq<Entry> {
        peeked_entries(self.peeked) + record::entries(self.block@.reverse())
            + sstable::entries_from(self.table@, image, self.next_block as int)
    }

    /// The entries at hand: the one that is ready, and what is left of its block.
    pub closed spec fn local(&self) -> Seq<Entry> {
        peeked_entries(self.peeked) + record::entries(self.block@.reverse())
    }

    /// The cursor is within its run, and the entries at hand ascend and do not pass the index
    /// key of their block.
    pub closed spec fn wf(&self) -> bool {
        &&& self.table.wf()
        &&& self.next_block <= self.table@.index.len()
        &&& model::ascending(self.local())
        &&& self.local().len() > 0 ==> self.next_block > 0 && keys::key_le(
            self.local().last().0,
            self.table@.index[self.next_block - 1].last_key,
        )
    }

    /// Every entry that the cursor has still to yield, whatever its blocks turn out to
    /// hold, is above `bound`.
    pub closed spec fn beyond(&self, bound: Seq<u8>) -> bool {
        if self.local().len() > 0 {
            keys::key_lt(bound, self.local()[0].0)
        } else {
            self.next_block < self.table@.index.len() ==> self.next_block > 0 && keys::key_le(
                bound,
                self.table@.index[self.next_block - 1].last_key,
            )
        }
    }

    /// The position of the next block to read.
    pub closed spec fn at(&self) -> int {
        self.next_block as int
    }

    /// No block was passed that does not read without fault when the run's file is `image`.
    pub closed spec fn clean(&self, image: Seq<u8>) -> bool {
        forall|i: int|
            0 <= i < self.next_block ==> #[trigger] sstable::block_of(self.table@, image, i) is Ok
    }

    /// The entries at hand are used up.
    pub closed spec fn drained(&self) -> bool {
        self.local().len() == 0
    }

    /// A cursor whose entries at hand are used up has the blocks from the next one on left.
    pub proof fn lemma_drained(&self, image: Seq<u8>)
        requires
            self.drained(),
        ensures
            self.rest(image) == sstable::entries_from(self.run()@, image, self.at()),
    {
        assert(self.local() =~= seq![]);
        assert(self.rest(image) =~= sstable::entries_from(self.table@, image, self.at()));
    }

    /// The entries at hand are used up, and the next block does not read without fault.
    pub closed spec fn blocked(&self, image: Seq<u8>) -> bool {
        &&& self.local().len() == 0
        &&& self.next_block < self.table@.index.len()
        &&& sstable::block_of(self.table@, image, self.next_block as int) is Err
    }

    /// A settled cursor that is at its end and passed no damage has read an intact run.
    pub proof fn lemma_settled_intact(&self, image: Seq<u8>)
        requires
            self.wf(),
            self.settled(),
            self.ready() is None,
            self.clean(image),
        ensures
            sstable::intact(self.run()@, image),
    {
    }

    /// A cursor that passed no damage has read without fault every block that can hold a key
    /// up to a bound that it is beyond.
    pub proof fn lemma_beyond_clean(&self, image: Seq<u8>, bound: Seq<u8>, j: int)
        requires
            self.wf(),
            self.beyond(bound),
            self.clean(image),
            0 <= j < self.run()@.index.len(),
            j == 0 || !keys::key_le(bound, self.run()@.index[j - 1].last_key),
        ensures
            sstable::block_of(self.run()@, image, j) is Ok,
    {
        keys::lemma_key_order();
        let index = self.table@.index;
        if j >= self.next_block {
            let n = self.next_block as int;
            if self.local().len() > 0 {
                let last = self.local().len() - 1;
                if last > 0 {
                    assert(keys::key_lt(self.local()[0].0, self.local()[last].0));
                }
                assert(keys::key_lt(bound, self.local()[last].0));
            }
            assert(n > 0 && keys::key_le(bound, index[n - 1].last_key));
            if n < j {
                assert(keys::key_lt(index[n - 1].last_key, index[j - 1].last_key));
            }
        }
    }

    /// The entry that is ready is above every bound that the cursor is beyond.
    pub proof fn lemma_ready_beyond(&self, bound: Seq<u8>)
        requires
            self.wf(),
            self.beyond(bound),
            self.ready() is Some,
        ensures
            keys::key_lt(bound, record::entry(self.ready()->0).0),
    {
        assert(self.local()[0] == record::entry(self.ready()->0));
    }

    /// A cursor beyond a bound is beyond every lower one.
    pub proof fn lemma_beyond_lower(&self, bound: Seq<u8>, lower: Seq<u8>)
        requires
            self.beyond(bound),
            keys::key_lt(lower, bound),
        ensures
            self.beyond(lower),
    {
        keys::lemma_key_order();
    }

    /// A settled cursor is beyond a bound if its ready entry is, or if it has none.
    pub proof fn lemma_settled_beyond(&self, bound: Seq<u8>)
        requires
            self.wf(),
            self.settled(),
            self.ready() matches Some(item) ==> keys::key_lt(bound, record::entry(item).0),
        ensures
            self.beyond(bound),
    {
        if self.ready() is Some {
            assert(self.local()[0] == record::entry(self.ready()->0));
        }
    }

    /// The next entry is ready, or there is none.
    pub closed spec fn settled(&self) -> bool {
        &&& self.error is None
        &&& self.peeked is None ==> self.block@.len() == 0 && self.next_block
            == self.table@.index.len()
    }

    /// A settled cursor has its first entry ready, and is at its end if none is.
    pub proof fn lemma_settled(&self, image: Seq<u8>)
        requires
            self.wf(),
            self.settled(),
        ensures
            self.ready() matches Some(item) ==> self.rest(image).len() > 0 && self.rest(image)[0]
                == record::entry(item),
            self.ready() is None ==> self.rest(image) == Seq::<Entry>::empty(),
    {
        if self.peeked is None {
            assert(self.rest(image) =~= seq![]);
        }
    }

    /// What a cursor yields first to last is what the run holds.
    pub fn new(table: Arc<SsTable>) -> (cursor: RunCursor)
        requires
            table.wf(),
        ensures
            cursor.wf(),
            cursor.run() == *table,
            cursor.ready() is None,
            cursor.fault() is None,
            forall|image: Seq<u8>| #[trigger] cursor.clean(image),
            forall|image: Seq<u8>| #[trigger]
                cursor.rest(image) == sstable::contents(table@, image),
    {
        let cursor = RunCursor {
            table,
            next_block: 0,
            block: Vec::new(),
            peeked: None,
            error: None,
        };
        proof {
            assert(cursor.local() =~= seq![]);
            assert forall|image: Seq<u8>| #[trigger]
                cursor.rest(image) == sstable::contents(table@, image) by {
                assert(cursor.rest(image) =~= sstable::contents(table@, image));
            }
        }
        cursor
    }

    /// Makes the next entry ready, reading blocks as needed. An error stops the cursor
    /// until it is taken.
    pub fn fill<R>(&mut self, read: &R) where
        R: Fn(u64, u64, usize) -> std::result::Result<Vec<u8>, std::io::Error>,

        requires
            old(self).wf(),
            sstable::total(*read),
        ensures
            final(self).wf(),
            filled(*old(self), *final(self), *read),
    {
        if self.peeked.is_some() || self.error.is_some() {
            return;
        }
        let ghost start = *self;
        loop
            invariant_except_break
                self.wf(),
                self.table == start.table,
                self.peeked is None,
                self.error is None,
                start.next_block <= self.next_block,
                forall|bound: Seq<u8>| #[trigger] start.beyond(bound) ==> self.beyond(bound),
                self.next_block == start.next_block ==> self.block@ == start.block@,
                forall|image: Seq<u8>|
                    #![trigger sstable::reads_image(*read, start.run().id(), image)]
                    sstable::reads_image(*read, start.run().id(), image) ==> {
                        &&& self.rest(image) == start.rest(image)
                        &&& start.clean(image) ==> self.clean(image)
                        &&& start.blocked(image) ==> self.next_block == start.next_block
                    },
            invariant
                sstable::total(*read),
                start.wf(),
                start.error is None,
                start.peeked is None,
            ensures
                self.wf(),
                self.table == start.table,
                self.error is None ==> self.settled(),
                self.error is Some ==> self.drained(),
                forall|bound: Seq<u8>| #[trigger] start.beyond(bound) ==> self.beyond(bound),
                self.blocks_left() < start.blocks_left() || (self.blocks_left()
                    == start.blocks_left() && self.items_left() == start.items_left()),
                forall|image: Seq<u8>|
                    #![trigger sstable::reads_image(*read, start.run().id(), image)]
                    sstable::reads_image(*read, start.run().id(), image) ==> {
                        &&& self.rest(image) == start.rest(image)
                        &&& start.clean(image) ==> self.clean(image)
                        &&& start.blocked(image) ==> self.error is Some
                        &&& self.error matches Some(e) ==> sstable::block_fault(
                            *read,
                            start.run().id(),
                            start.run()@,
                            image,
                            self.at(),
                            e,
                        )
                    },
            decreases self.table@.index.len() - self.next_block,
        {
            let ghost before = *self;
            match self.block.pop() {
                Some(item) => {
                    self.peeked = Some(item);
                    proof {
                        assert(before.block@.reverse() =~= seq![item] + self.block@.reverse());
                        assert(self.local() =~= before.local());
                        assert forall|image: Seq<u8>|
                            #![trigger sstable::reads_image(*read, start.run().id(), image)]
                            sstable::reads_image(*read, start.run().id(), image) implies self.rest(
                            image,
                        ) == start.rest(image) by {
                            assert(before.block@.reverse() =~= seq![item] + self.block@.reverse());
                            assert(record::entries(before.block@.reverse()) =~= seq![
                                record::entry(item),
                            ] + record::entries(self.block@.reverse()));
                            assert(self.rest(image) =~= before.rest(image));
                        }
                    }
                    break;
                },
                None => {},
            }
            if self.next_block >= self.table.block_count() {
                break;
            }
            match self.table.read_block(self.next_block, read) {
                Ok(items) => {
                    let ghost loaded = items@;
                    self.next_block = self.next_block + 1;
                    self.block = record::reversed(items);
                    proof {
                        assert(self.block@.reverse() =~= loaded);
                        assert(before.block@.reverse() =~= seq![]);
                        assert(before.local() =~= seq![]);
                        assert(self.local() =~= record::entries(loaded));
                        keys::lemma_key_order();
                        assert forall|image: Seq<u8>|
                            #![trigger sstable::reads_image(*read, start.run().id(), image)]
                            sstable::reads_image(*read, start.run().id(), image) implies self.rest(
                            image,
                        ) == start.rest(image) by {
                            assert(self.block@.reverse() =~= loaded);
                            assert(before.block@.reverse() =~= seq![]);
                            assert(self.rest(image) =~= before.rest(image));
                        }
                    }
                },
                Err(e) => {
                    self.error = Some(e);
                    assert(self.local() =~= seq![]);
                    break;
                },
            }
        }
    }

    /// The key of the next entry, or `None` if there is none or an error stopped the
    /// cursor.
    pub fn peek_key<R>(&mut self, read: &R) -> (key: Option<&Vec<u8>>) where
        R: Fn(u64, u64, usize) -> std::result::Result<Vec<u8>, std::io::Error>,

        requires
            old(self).wf(),
            sstable::total(*read),
        ensures
            final(self).wf(),
            filled(*old(self), *final(self), *read),
            key is Some <==> final(self).ready() is Some,
            key matches Some(k) ==> k@ == (final(self).ready()->0).0@,
            forall|image: Seq<u8>|
                #![trigger sstable::reads_image(*read, old(self).run().id(), image)]
                sstable::reads_image(*read, old(self).run().id(), image) && final(self).fault()
                    is None ==> (match key {
                    Some(k) => old(self).rest(image).len() > 0 && old(self).rest(image)[0].0 == k@,
                    None => old(self).rest(image).len() == 0,
                }),
    {
        self.fill(read);
        let ghost now = *self;
        proof {
            assert forall|image: Seq<u8>|
                #![trigger sstable::reads_image(*read, old(self).run().id(), image)]
                sstable::reads_image(*read, old(self).run().id(), image) && now.fault()
                    is None implies (match now.ready() {
                Some(item) => old(self).rest(image).len() > 0 && old(self).rest(image)[0]
                    == record::entry(item),
                None => old(self).rest(image).len() == 0,
            }) by {
                now.lemma_settled(image);
            }
        }
        self.ready_key()
    }

    /// Takes the next entry; `None` if there is none or an error stopped the cursor.
    pub fn next_entry<R>(&mut self, read: &R) -> (item: Option<Item>) where
        R: Fn(u64, u64, usize) -> std::result::Result<Vec<u8>, std::io::Error>,

        requires
            old(self).wf(),
            sstable::total(*read),
        ensures
            final(self).wf(),
            yielded(*old(self), *final(self), item, *read),
    {
        self.fill(read);
        let ghost mid = *self;
        proof {
            assert forall|image: Seq<u8>| mid.ready() is Some implies #[trigger] mid.rest(
                image,
            ).len() > 0 && mid.rest(image)[0] == record::entry(mid.ready()->0) by {
                assert(mid.rest(image)[0] == record::entry(mid.peeked->0));
            }
            if mid.fault() is None {
                assert forall|image: Seq<u8>| mid.ready() is None implies #[trigger] mid.rest(
                    image,
                ).len() == 0 by {
                    mid.lemma_settled(image);
                }
            }
        }
        self.take_ready()
    }

    /// The key of the entry that is ready.
    pub(crate) fn ready_key(&self) -> (key: Option<&Vec<u8>>)
        ensures
            match key {
                Some(k) => self.ready() is Some && k@ == (self.ready()->0).0@,
                None => self.ready() is None,
            },
    {
        match &self.peeked {
            Some(item) => Some(&item.0),
            None => None,
        }
    }

    /// Takes the entry that is ready.
    pub(crate) fn take_ready(&mut self) -> (item: Option<Item>)
        requires
            old(self).wf(),
        ensures
            final(self).wf(),
            final(self).run() == old(self).run(),
            item == old(self).ready(),
            final(self).ready() is None,
            final(self).fault() == old(self).fault(),
            final(self).blocks_left() == old(self).blocks_left(),
            item is Some ==> final(self).items_left() + 1 == old(self).items_left(),
            item is None ==> *final(self) == *old(self),
            item matches Some(it) ==> final(self).beyond(record::entry(it).0),
            forall|image: Seq<u8>| #[trigger] final(self).clean(image) == old(self).clean(image),
            item is Some ==> forall|image: Seq<u8>| #[trigger]
                final(self).rest(image) == old(self).rest(image).drop_first(),
    {
        let ghost before = *self;
        let item = self.peeked.take();
        proof {
            if item is Some {
                let all = before.local();
                let rest = self.local();
                assert(rest =~= all.drop_first());
                assert(all[0] == record::entry(item->0));
                assert forall|i: int, j: int| #![trigger rest[i], rest[j]]
                    0 <= i < j < rest.len() implies keys::key_lt(rest[i].0, rest[j].0) by {
                    assert(rest[i] == all[i + 1] && rest[j] == all[j + 1]);
                }
                if rest.len() > 0 {
                    assert(rest[0] == all[1]);
                    assert(keys::key_lt(all[0].0, all[1].0));
                    assert(rest.last() == all.last());
                } else {
                    assert(all[0] == all.last());
                }
            }
            assert forall|image: Seq<u8>| #[trigger]
                self.rest(image) == before.rest(image).drop_first() || item is None by {
                if item is Some {
                    assert(self.rest(image) =~= before.rest(image).drop_first());
                }
            }
        }
        item
    }

    /// Takes the error that stopped the cursor, if any, leaving it cleared.
    pub fn take_error(&mut self) -> (error: Option<Error>)
        requires
            old(self).wf(),
        ensures
            final(self).wf(),
            final(self).run() == old(self).run(),
            error == old(self).fault(),
            final(self).fault() is None,
            final(self).ready() == old(self).ready(),
            error is None ==> *final(self) == *old(self),
            final(self).at() == old(self).at(),
            final(self).drained() == old(self).drained(),
            final(self).blocks_left() == old(self).blocks_left(),
            final(self).items_left() == old(self).items_left(),
            forall|bound: Seq<u8>| #[trigger] final(self).beyond(bound) == old(self).beyond(bound),
            forall|image: Seq<u8>| #[trigger] final(self).clean(image) == old(self).clean(image),
            forall|image: Seq<u8>| #[trigger] final(self).blocked(image) == old(self).blocked(image),
            forall|image: Seq<u8>| #[trigger] final(self).rest(image) == old(self).rest(image),
    {
        self.error.take()
    }

    /// The error that stopped the cursor, if any.
    pub fn error(&self) -> (error: Option<&Error>)
        ensures
            match error {
                Some(e) => self.fault() == Some(*e),
                None => self.fault() is None,
            },
    {
        match &self.error {
            Some(e) => Some(e),
            None => None,
        }
    }
}

/// What making the next entry of a cursor ready does. The entry is taken from the blocks
/// read so far, or the next blocks are read until one has an entry; a block that cannot be
/// read, or is damaged, stops the cursor.
pub open spec fn filled<R>(was: RunCursor, now: RunCursor, read: R) -> bool where
    R: Fn(u64, u64, usize) -> std::result::Result<Vec<u8>, std::io::Error>,
 {
    &&& now.run() == was.run()
    &&& was.ready() is Some || was.fault() is Some ==> now == was
    &&& now.fault() is None ==> now.settled()
    &&& was.fault() is None && now.fault() is Some ==> now.drained()
    &&& now.ready() is Some ==> now.fault() == was.fault()
    &&& forall|bound: Seq<u8>| #[trigger] was.beyond(bound) ==> now.beyond(bound)
    &&& now.blocks_left() < was.blocks_left() || (now.blocks_left() == was.blocks_left()
        && now.items_left() == was.items_left())
    &&& forall|image: Seq<u8>|
        #![trigger sstable::reads_image(read, was.run().id(), image)]
        sstable::reads_image(read, was.run().id(), image) ==> {
            &&& now.rest(image) == was.rest(image)
            &&& was.clean(image) ==> now.clean(image)
            &&& was.blocked(image) ==> now.fault() is Some
            &&& now.fault() matches Some(e) ==> was.fault() == Some(e) || sstable::block_fault(
                read,
                was.run().id(),
                was.run()@,
                image,
                now.at(),
                e,
            )
        }
}

/// What taking the next entry of a cursor does. The entry is the first of those that the
/// cursor has still to yield, and leaves the others; yielding it raises no error. There is
/// none where nothing is left, or where a block that cannot be read, or is damaged, stopped
/// the cursor.
pub open spec fn yielded<R>(
    was: RunCursor,
    now: RunCursor,
    item: Option<Item>,
    read: R,
) -> bool where R: Fn(u64, u64, usize) -> std::result::Result<Vec<u8>, std::io::Error> {
    &&& now.run() == was.run()
    &&& now.ready() is None
    &&& was.ready() is Some ==> item == was.ready()
    &&& was.ready() is None && was.fault() is Some ==> item is None && now == was
    &&& item is Some ==> now.fault() == was.fault()
    &&& item is None && now.fault() is None ==> now.settled()
    &&& forall|image: Seq<u8>|
        #![trigger sstable::reads_image(read, was.run().id(), image)]
        sstable::reads_image(read, was.run().id(), image) ==> {
            &&& was.clean(image) ==> now.clean(image)
            &&& match item {
                Some(it) => {
                    &&& was.rest(image).len() > 0
                    &&& was.rest(image)[0] == record::entry(it)
                    &&& now.rest(image) == was.rest(image).drop_first()
                },
                None => {
                    &&& now.rest(image) == was.rest(image)
                    &&& now.fault() is None ==> was.rest(image).len() == 0
                    &&& now.fault() matches Some(e) ==> was.fault() == Some(e)
                        || sstable::block_fault(
                        read,
                        was.run().id(),
                        was.run()@,
                        image,
                        now.at(),
                        e,
                    )
                },
            }
        }
}

} // verus!
