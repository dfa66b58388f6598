//! Merging across the write buffer and the runs.
//!
//! Scans and compaction both need one ascending stream of the current value per key,
//! drawn from several sorted sources that may disagree. The merge walks all sources in
//! parallel and for each key keeps the record from the newest one; a deletion there
//! resolves the key away.
use std::sync::Arc;
use vstd::prelude::*;
use crate::cursor::RunCursor;
use crate::error::{Error, Result};
use crate::keys;
use crate::model;
use crate::model::Pair;
use crate::record;
use crate::record::{Entry, Item, Record};
use crate::sstable;
use crate::sstable::SsTable;

verus! {

/// Every successful read returns the requested bytes of the file that `disk` has for the
/// run.
pub open spec fn reads_disk<R>(read: R, disk: Map<u64, Seq<u8>>) -> bool where
    R: Fn(u64, u64, usize) -> std::result::Result<Vec<u8>, std::io::Error>,
 {
    forall|run: u64| sstable::reads_image(read, run, #[trigger] disk[run])
}

/// `error` is what reading some block of the run ends in.
pub open spec fn run_fault<R>(read: R, disk: Map<u64, Seq<u8>>, run: SsTable, error: Error) -> bool
    where R: Fn(u64, u64, usize) -> std::result::Result<Vec<u8>, std::io::Error>
{
    exists|i: int| #[trigger]
        sstable::block_fault(read, run.id(), run@, disk[run.id()], i, error)
}

/// One input of a merge.
#[derive(Debug)]
pub enum Source {
    /// A snapshot of the write buffer, last entry first.
    Mem(Vec<Item>),
    /// A run.
    Run(RunCursor),
}

impl Source {
    /// The run behind the source, if it is one.
    pub open spec fn table(&self) -> Option<SsTable> {
        match self {
            Source::Mem(_) => None,
            Source::Run(cursor) => Some(cursor.run()),
        }
    }

    /// What the source has still to yield.
    pub open spec fn rest(&self, disk: Map<u64, Seq<u8>>) -> Seq<Entry> {
        match self {
            Source::Mem(items) => record::entries(items@.reverse()),
            Source::Run(cursor) => cursor.rest(disk[cursor.run().id()]),
        }
    }

    /// The entry that is ready, if one is.
    pub open spec fn ready(&self) -> Option<Item> {
        match self {
            Source::Mem(items) => if items@.len() == 0 {
                None
            } else {
                Some(items@.last())
            },
            Source::Run(cursor) => cursor.ready(),
        }
    }

    /// The error that stopped the source, if one did.
    pub open spec fn fault(&self) -> Option<Error> {
        match self {
            Source::Mem(_) => None,
            Source::Run(cursor) => cursor.fault(),
        }
    }

    /// The source is well-formed; the snapshot of the write buffer is ascending.
    pub open spec fn wf(&self) -> bool {
        match self {
            Source::Mem(items) => model::ascending(record::entries(items@.reverse())),
            Source::Run(cursor) => cursor.wf(),
        }
    }

    /// Every entry that the source has still to yield is above `bound`.
    pub open spec fn beyond(&self, bound: Seq<u8>) -> bool {
        match self {
            Source::Mem(items) => items@.len() > 0 ==> keys::key_lt(bound, items@.last().0@),
            Source::Run(cursor) => cursor.beyond(bound),
        }
    }

    /// No damaged block was passed.
    pub open spec fn clean(&self, disk: Map<u64, Seq<u8>>) -> bool {
        match self {
            Source::Mem(_) => true,
            Source::Run(cursor) => cursor.clean(disk[cursor.run().id()]),
        }
    }

    /// The entries at hand are used up, and the next block is damaged.
    pub open spec fn blocked(&self, disk: Map<u64, Seq<u8>>) -> bool {
        match self {
            Source::Mem(_) => false,
            Source::Run(cursor) => cursor.blocked(disk[cursor.run().id()]),
        }
    }

    /// The source is a run whose entries at hand are used up; the next block is block `j`.
    pub open spec fn drained_at(&self, j: int) -> bool {
        match self {
            Source::Mem(_) => false,
            Source::Run(cursor) => cursor.drained() && cursor.at() == j,
        }
    }

    /// The source stopped because of block `j` of its run.
    pub open spec fn stopped_by<R>(
        &self,
        read: R,
        disk: Map<u64, Seq<u8>>,
        j: int,
        error: Error,
    ) -> bool where R: Fn(u64, u64, usize) -> std::result::Result<Vec<u8>, std::io::Error> {
        &&& self.drained_at(j)
        &&& self.table() matches Some(t) && sstable::block_fault(
            read,
            t.id(),
            t@,
            disk[t.id()],
            j,
            error,
        )
    }

    /// The entry that is ready is above every bound that the source is beyond.
    proof fn lemma_ready_beyond(&self, bound: Seq<u8>)
        requires
            self.wf(),
            self.beyond(bound),
            self.ready() is Some,
        ensures
            keys::key_lt(bound, record::entry(self.ready()->0).0),
    {
        match self {
            Source::Mem(_) => {},
            Source::Run(cursor) => {
                cursor.lemma_ready_beyond(bound);
            },
        }
    }

    /// A settled source is beyond a bound if its ready entry is, or if it has none.
    proof fn lemma_settled_beyond(&self, bound: Seq<u8>)
        requires
            self.wf(),
            self.settled(),
            self.ready() matches Some(item) ==> keys::key_lt(bound, record::entry(item).0),
        ensures
            self.beyond(bound),
    {
        match self {
            Source::Mem(_) => {},
            Source::Run(cursor) => {
                cursor.lemma_settled_beyond(bound);
            },
        }
    }

    /// A source beyond a bound is beyond every lower one.
    proof fn lemma_beyond_lower(&self, bound: Seq<u8>, lower: Seq<u8>)
        requires
            self.beyond(bound),
            keys::key_lt(lower, bound),
        ensures
            self.beyond(lower),
    {
        keys::lemma_key_order();
        match self {
            Source::Mem(_) => {},
            Source::Run(cursor) => {
                cursor.lemma_beyond_lower(bound, lower);
            },
        }
    }

    /// The next entry is ready, or there is none.
    pub open spec fn settled(&self) -> bool {
        match self {
            Source::Mem(_) => true,
            Source::Run(cursor) => cursor.settled(),
        }
    }

    /// The number of blocks not read yet.
    pub open spec fn blocks_left(&self) -> nat {
        match self {
            Source::Mem(_) => 0,
            Source::Run(cursor) => cursor.blocks_left(),
        }
    }

    /// The number of entries at hand and not taken yet.
    pub open spec fn items_left(&self) -> nat {
        match self {
            Source::Mem(items) => items@.len(),
            Source::Run(cursor) => cursor.items_left(),
        }
    }

    /// A settled source has its first entry ready, and is at its end if none is.
    pub proof fn lemma_settled(&self, disk: Map<u64, Seq<u8>>)
        requires
            self.wf(),
            self.settled(),
        ensures
            self.ready() matches Some(item) ==> self.rest(disk).len() > 0 && self.rest(disk)[0]
                == record::entry(item),
            self.ready() is None ==> self.rest(disk) == Seq::<Entry>::empty(),
    {
        match self {
            Source::Mem(items) => {
                if items@.len() == 0 {
                    assert(self.rest(disk) =~= seq![]);
                } else {
                    assert(items@.reverse()[0] == items@.last());
                }
            },
            Source::Run(cursor) => {
                cursor.lemma_settled(disk[cursor.run().id()]);
            },
        }
    }

    /// A settled source that is at its end and passed no damage has read an intact run.
    proof fn lemma_settled_intact(&self, disk: Map<u64, Seq<u8>>)
        requires
            self.wf(),
            self.settled(),
            self.ready() is None,
            self.clean(disk),
        ensures
            self.table() matches Some(t) ==> sstable::intact(t@, disk[t.id()]),
    {
        match self {
            Source::Mem(_) => {},
            Source::Run(cursor) => {
                cursor.lemma_settled_intact(disk[cursor.run().id()]);
            },
        }
    }

    /// Makes the next entry ready.
    fn fill<R>(&mut self, read: &R) where
        R: Fn(u64, u64, usize) -> std::result::Result<Vec<u8>, std::io::Error>,

        requires
            old(self).wf(),
            sstable::total(*read),
        ensures
            final(self).wf(),
            final(self).table() == old(self).table(),
            old(self).fault() is Some ==> *final(self) == *old(self),
            final(self).fault() is None ==> final(self).settled(),
            forall|bound: Seq<u8>| #[trigger]
                old(self).beyond(bound) ==> final(self).beyond(bound),
            final(self).blocks_left() < old(self).blocks_left() || (final(self).blocks_left()
                == old(self).blocks_left() && final(self).items_left() == old(self).items_left()),
            forall|disk: Map<u64, Seq<u8>>| #[trigger]
                reads_disk(*read, disk) ==> {
                    &&& final(self).rest(disk) == old(self).rest(disk)
                    &&& old(self).clean(disk) ==> final(self).clean(disk)
                    &&& old(self).blocked(disk) ==> final(self).fault() is Some
                    &&& final(self).fault() matches Some(e) ==> old(self).fault() == Some(e) || (
                    final(self).table() is Some && run_fault(
                        *read,
                        disk,
                        final(self).table()->0,
                        e,
                    ))
                    &&& final(self).fault() matches Some(e) ==> old(self).fault() == Some(e)
                        || exists|j: int| #[trigger] final(self).stopped_by(*read, disk, j, e)
                },
    {
        match self {
            Source::Mem(_) => {},
            Source::Run(cursor) => {
                let ghost run = cursor.run();
                let ghost halted = cursor.fault();
                cursor.fill(read);
                let ghost now = Source::Run(*cursor);
                proof {
                    assert forall|disk: Map<u64, Seq<u8>>| #[trigger]
                        reads_disk(*read, disk) && halted is None && now.fault() is Some implies
                        now.stopped_by(*read, disk, cursor.at(), now.fault()->0) by {
                        assert(sstable::reads_image(*read, run.id(), disk[run.id()]));
                    }
                    assert forall|disk: Map<u64, Seq<u8>>| #[trigger]
                        reads_disk(*read, disk) implies sstable::reads_image(
                        *read,
                        run.id(),
                        disk[run.id()],
                    ) by {}
                }
            },
        }
    }

    /// The key of the entry that is ready.
    fn peek_key(&self) -> (key: Option<&Vec<u8>>)
        ensures
            match key {
                Some(k) => self.ready() is Some && k@ == record::entry(self.ready()->0).0,
                None => self.ready() is None,
            },
    {
        match self {
            Source::Mem(items) => if items.len() == 0 {
                None
            } else {
                Some(&items[items.len() - 1].0)
            },
            Source::Run(cursor) => cursor.ready_key(),
        }
    }

    /// Takes the entry that is ready.
    fn next_entry(&mut self) -> (item: Option<Item>)
        requires
            old(self).wf(),
        ensures
            final(self).wf(),
            final(self).table() == old(self).table(),
            item == old(self).ready(),
            final(self).fault() == old(self).fault(),
            final(self).blocks_left() == old(self).blocks_left(),
            item is Some ==> final(self).items_left() + 1 == old(self).items_left(),
            item matches Some(it) ==> final(self).beyond(record::entry(it).0),
            forall|disk: Map<u64, Seq<u8>>| #[trigger]
                final(self).clean(disk) == old(self).clean(disk),
            item is Some ==> forall|disk: Map<u64, Seq<u8>>| #[trigger]
                final(self).rest(disk) == old(self).rest(disk).drop_first(),
    {
        match self {
            Source::Mem(items) => {
                let ghost before = items@;
                let item = items.pop();
                proof {
                    if item is Some {
                        let all = record::entries(before.reverse());
                        let rest = record::entries(items@.reverse());
                        assert(rest =~= all.drop_first());
                        assert(all[0] == record::entry(item->0));
                        model::lemma_find_drop_first(all, all[0].0);
                        if items@.len() > 0 {
                            assert(all[1] == record::entry(items@.last()));
                            assert(keys::key_lt(all[0].0, all[1].0));
                        }
                    } else {
                        assert(items@ =~= before);
                    }
                }
                item
            },
            Source::Run(cursor) => cursor.take_ready(),
        }
    }

    /// Takes the error that stopped the source, if any.
    fn take_error(&mut self) -> (error: Option<Error>)
        requires
            old(self).wf(),
        ensures
            final(self).wf(),
            final(self).table() == old(self).table(),
            error == old(self).fault(),
            final(self).fault() is None,
            error is None ==> *final(self) == *old(self),
            forall|j: int| #[trigger] final(self).drained_at(j) == old(self).drained_at(j),
            forall|bound: Seq<u8>| #[trigger] final(self).beyond(bound) == old(self).beyond(bound),
            forall|disk: Map<u64, Seq<u8>>| #[trigger]
                final(self).clean(disk) == old(self).clean(disk),
            forall|disk: Map<u64, Seq<u8>>| #[trigger]
                final(self).rest(disk) == old(self).rest(disk),
    {
        match self {
            Source::Mem(_) => None,
            Source::Run(cursor) => cursor.take_error(),
        }
    }
}

/// What a sequence of sources has still to yield.
pub open spec fn rests(sources: Seq<Source>, disk: Map<u64, Seq<u8>>) -> Seq<Seq<Entry>> {
    sources.map_values(|s: Source| s.rest(disk))
}

/// Every source is in strictly ascending key order.
pub open spec fn all_ascending(sources: Seq<Seq<Entry>>) -> bool {
    forall|i: int| 0 <= i < sources.len() ==> model::ascending(#[trigger] sources[i])
}

/// Taking `min` from ascending sources that hold nothing below it: `record` is the newest
/// record for it, and each source is trimmed by it.
pub open spec fn taken(
    was: Seq<Seq<Entry>>,
    now: Seq<Seq<Entry>>,
    min: Seq<u8>,
    record: Option<Seq<u8>>,
) -> bool {
    all_ascending(was) ==> {
        &&& model::newest(was, min) == Some(record)
        &&& now.len() == was.len()
        &&& forall|i: int|
            0 <= i < was.len() ==> model::trimmed(#[trigger] now[i], was[i], min)
    }
}

/// One step of a merge over ascending sources. It yields the smallest key that has a live
/// value, with that value, and trims every source by it; or it finds that no key has a
/// live value, and every source is at its end.
pub open spec fn advanced(
    was: Seq<Seq<Entry>>,
    now: Seq<Seq<Entry>>,
    pair: Option<(Seq<u8>, Seq<u8>)>,
) -> bool {
    all_ascending(was) ==> {
        &&& now.len() == was.len()
        &&& match pair {
            Some((key, value)) => {
                &&& model::visible(was, key) == Some(value)
                &&& forall|k: Seq<u8>| #[trigger]
                    keys::key_lt(k, key) ==> model::visible(was, k) is None
                &&& forall|i: int|
                    0 <= i < was.len() ==> model::trimmed(#[trigger] now[i], was[i], key)
            },
            None => {
                &&& forall|k: Seq<u8>| #[trigger] model::visible(was, k) is None
                &&& forall|i: int|
                    0 <= i < was.len() ==> #[trigger] now[i] == Seq::<Entry>::empty()
            },
        }
    }
}

/// The sources are trimmed by `bound`, up to which no key has a live value.
pub open spec fn progressed(
    was: Seq<Seq<Entry>>,
    now: Seq<Seq<Entry>>,
    bound: Option<Seq<u8>>,
) -> bool {
    &&& now.len() == was.len()
    &&& match bound {
        None => now == was,
        Some(b) => {
            &&& forall|i: int| 0 <= i < was.len() ==> model::trimmed(#[trigger] now[i], was[i], b)
            &&& forall|k: Seq<u8>|
                #![trigger model::visible(was, k)]
                keys::key_le(k, b) ==> model::visible(was, k) is None
        },
    }
}

/// Sources in progress are ascending.
proof fn lemma_progress_ascending(
    was: Seq<Seq<Entry>>,
    now: Seq<Seq<Entry>>,
    bound: Option<Seq<u8>>,
)
    requires
        all_ascending(was),
        progressed(was, now, bound),
    ensures
        all_ascending(now),
{
    assert forall|i: int| 0 <= i < now.len() implies model::ascending(#[trigger] now[i]) by {
        if bound is Some {
            assert(model::trimmed(now[i], was[i], bound->0));
        }
    }
}

/// Above the bound the sources in progress hold what they held at the start.
proof fn lemma_progress_newest(
    was: Seq<Seq<Entry>>,
    now: Seq<Seq<Entry>>,
    bound: Option<Seq<u8>>,
    key: Seq<u8>,
)
    requires
        progressed(was, now, bound),
        bound matches Some(b) ==> keys::key_lt(b, key),
    ensures
        model::newest(now, key) == model::newest(was, key),
{
    assert forall|i: int| 0 <= i < now.len() implies model::find(#[trigger] now[i], key)
        == model::find(was[i], key) by {
        if bound is Some {
            assert(model::trimmed(now[i], was[i], bound->0));
        }
    }
    model::lemma_newest_congruent(now, was, key);
}

/// The key taken next is above the bound, no key below it has a live value, its record is
/// the newest of the start, and the sources are trimmed by it.
proof fn lemma_progress_step(
    was: Seq<Seq<Entry>>,
    mid: Seq<Seq<Entry>>,
    now: Seq<Seq<Entry>>,
    bound: Option<Seq<u8>>,
    min: Seq<u8>,
    record: Option<Seq<u8>>,
    holder: int,
)
    requires
        all_ascending(was),
        progressed(was, mid, bound),
        taken(mid, now, min, record),
        forall|i: int|
            0 <= i < mid.len() && (#[trigger] mid[i]).len() > 0 ==> keys::key_le(
                min,
                mid[i][0].0,
            ),
        0 <= holder < mid.len(),
        mid[holder].len() > 0,
        mid[holder][0].0 == min,
    ensures
        record is None ==> progressed(was, now, Some(min)),
        record matches Some(value) ==> advanced(was, now, Some((min, value))),
{
    keys::lemma_key_order();
    lemma_progress_ascending(was, mid, bound);
    assert(model::ascending(mid[holder]));
    model::lemma_find_at(mid[holder], 0);
    if bound is Some {
        assert(model::trimmed(mid[holder], was[holder], bound->0));
        assert(keys::key_lt(bound->0, min));
    }
    lemma_progress_newest(was, mid, bound, min);
    assert forall|k: Seq<u8>| #[trigger] keys::key_lt(k, min) implies model::visible(was, k)
        is None by {
        if bound is Some && !keys::key_lt(bound->0, k) {
            keys::lemma_key_total(bound->0, k);
            assert(keys::key_le(k, bound->0));
        } else {
            lemma_progress_newest(was, mid, bound, k);
            assert forall|i: int| 0 <= i < mid.len() implies model::find(#[trigger] mid[i], k)
                is None by {
                assert(model::ascending(mid[i]));
                if mid[i].len() > 0 && mid[i][0].0 != min {
                    keys::lemma_key_transitive(k, min, mid[i][0].0);
                }
                model::lemma_find_below(mid[i], k);
            }
            model::lemma_newest_absent(mid, k);
        }
    }
    assert forall|i: int| 0 <= i < was.len() implies model::trimmed(
        #[trigger] now[i],
        was[i],
        min,
    ) by {
        assert(model::trimmed(now[i], mid[i], min));
        if bound is Some {
            assert(model::trimmed(mid[i], was[i], bound->0));
            model::lemma_trim_twice(now[i], mid[i], was[i], bound->0, min);
        }
    }
}

/// Once every source is at its end no key is left with a live value.
proof fn lemma_progress_end(was: Seq<Seq<Entry>>, now: Seq<Seq<Entry>>, bound: Option<Seq<u8>>)
    requires
        all_ascending(was),
        progressed(was, now, bound),
        forall|i: int| 0 <= i < now.len() ==> #[trigger] now[i] == Seq::<Entry>::empty(),
    ensures
        advanced(was, now, None),
{
    assert forall|k: Seq<u8>| #[trigger] model::visible(was, k) is None by {
        if bound is Some && !keys::key_lt(bound->0, k) {
            keys::lemma_key_total(bound->0, k);
            assert(keys::key_le(k, bound->0));
        } else {
            lemma_progress_newest(was, now, bound, k);
            assert forall|i: int| 0 <= i < now.len() implies model::find(#[trigger] now[i], k)
                is None by {
                model::lemma_find_absent(now[i], k);
            }
            model::lemma_newest_absent(now, k);
        }
    }
}

/// The sources are what is left of `start` above `bound`, or all of it without a bound.
pub open spec fn left_above(
    start: Seq<Seq<Entry>>,
    now: Seq<Seq<Entry>>,
    bound: Option<Seq<u8>>,
) -> bool {
    &&& now.len() == start.len()
    &&& match bound {
        None => now == start,
        Some(b) => forall|i: int|
            0 <= i < start.len() ==> model::trimmed(#[trigger] now[i], start[i], b),
    }
}

/// `out` lists, of the keys up to `bound`, those that satisfy `keep` and have a live value
/// in the sources at the start; what is left of the sources is above the bound.
pub open spec fn collected(
    start: Seq<Seq<Entry>>,
    now: Seq<Seq<Entry>>,
    bound: Option<Seq<u8>>,
    out: Seq<Pair>,
    keep: spec_fn(Seq<u8>) -> bool,
) -> bool {
    &&& left_above(start, now, bound)
    &&& model::lists(
        out,
        start,
        |k: Seq<u8>| keep(k) && bound is Some && keys::key_le(k, bound->0),
    )
    &&& forall|i: int|
        0 <= i < out.len() ==> bound is Some && keys::key_le((#[trigger] out[i]).0, bound->0)
}

/// Above the bound the sources hold what they held at the start.
pub proof fn lemma_left_above(
    start: Seq<Seq<Entry>>,
    now: Seq<Seq<Entry>>,
    bound: Option<Seq<u8>>,
    key: Seq<u8>,
)
    requires
        left_above(start, now, bound),
        bound matches Some(b) ==> keys::key_lt(b, key),
    ensures
        model::newest(now, key) == model::newest(start, key),
{
    assert forall|i: int| 0 <= i < now.len() implies model::find(#[trigger] now[i], key)
        == model::find(start[i], key) by {
        if bound is Some {
            assert(model::trimmed(now[i], start[i], bound->0));
        }
    }
    model::lemma_newest_congruent(now, start, key);
}

/// What is left above a bound is ascending, and every key in it is above the bound.
pub proof fn lemma_left_ascending(
    start: Seq<Seq<Entry>>,
    now: Seq<Seq<Entry>>,
    bound: Option<Seq<u8>>,
    key: Seq<u8>,
)
    requires
        all_ascending(start),
        left_above(start, now, bound),
    ensures
        all_ascending(now),
        model::newest(now, key) is Some && bound is Some ==> keys::key_lt(bound->0, key),
{
    assert forall|i: int| 0 <= i < now.len() implies model::ascending(#[trigger] now[i]) by {
        if bound is Some {
            assert(model::trimmed(now[i], start[i], bound->0));
        }
    }
    if bound is Some && !keys::key_lt(bound->0, key) {
        assert forall|i: int| 0 <= i < now.len() implies model::find(#[trigger] now[i], key)
            is None by {
            assert(model::trimmed(now[i], start[i], bound->0));
        }
        model::lemma_newest_absent(now, key);
    }
}

/// A step of the merge passes over no key that has a live value.
pub proof fn lemma_nothing_between(
    start: Seq<Seq<Entry>>,
    mid: Seq<Seq<Entry>>,
    now: Seq<Seq<Entry>>,
    bound: Option<Seq<u8>>,
    key: Seq<u8>,
    value: Seq<u8>,
    k: Seq<u8>,
)
    requires
        all_ascending(start),
        left_above(start, mid, bound),
        advanced(mid, now, Some((key, value))),
        bound matches Some(b) ==> keys::key_lt(b, k),
        keys::key_lt(k, key),
    ensures
        model::visible(start, k) is None,
{
    lemma_left_ascending(start, mid, bound, key);
    lemma_left_above(start, mid, bound, k);
}

/// An entry that is no longer left in a source, when the merge stops, is at or below every
/// live key that the merge has still to yield: no key is live between what was yielded and
/// where the merge stopped.
pub proof fn lemma_stopped_below(
    start: Seq<Seq<Entry>>,
    mid: Seq<Seq<Entry>>,
    now: Seq<Seq<Entry>>,
    bound: Option<Seq<u8>>,
    s: int,
    gone: Seq<u8>,
    k: Seq<u8>,
)
    requires
        all_ascending(start),
        left_above(start, mid, bound),
        exists|to: Option<Seq<u8>>| #[trigger] progressed(mid, now, to),
        0 <= s < start.len(),
        model::find(start[s], gone) is Some,
        model::find(now[s], gone) is None,
        model::visible(start, k) is Some,
        bound matches Some(b) ==> keys::key_lt(b, k),
    ensures
        keys::key_lt(gone, k),
{
    keys::lemma_key_order();
    keys::lemma_key_total(gone, k);
    lemma_left_above(start, mid, bound, k);
    let to = choose|to: Option<Seq<u8>>| #[trigger] progressed(mid, now, to);
    if keys::key_le(k, gone) {
        if bound is Some {
            assert(model::trimmed(mid[s], start[s], bound->0));
            assert(keys::key_lt(bound->0, gone));
        }
        assert(model::find(mid[s], gone) is Some);
        if to is Some {
            assert(model::trimmed(now[s], mid[s], to->0));
            keys::lemma_key_total(to->0, gone);
            assert(keys::key_le(k, to->0));
            assert(model::visible(mid, k) is None);
        }
    }
}

/// Nothing is collected before the first step.
pub proof fn lemma_collect_start(start: Seq<Seq<Entry>>, keep: spec_fn(Seq<u8>) -> bool)
    ensures
        collected(start, start, None, seq![], keep),
{
    assert(model::pair_entries(seq![]) =~= seq![]);
}

/// A step of the merge adds its key to what is collected, if it is to be kept.
pub proof fn lemma_collect_step(
    start: Seq<Seq<Entry>>,
    mid: Seq<Seq<Entry>>,
    now: Seq<Seq<Entry>>,
    bound: Option<Seq<u8>>,
    out: Seq<Pair>,
    keep: spec_fn(Seq<u8>) -> bool,
    key: Seq<u8>,
    value: Seq<u8>,
)
    requires
        all_ascending(start),
        collected(start, mid, bound, out, keep),
        advanced(mid, now, Some((key, value))),
    ensures
        collected(
            start,
            now,
            Some(key),
            if keep(key) {
                out.push((key, value))
            } else {
                out
            },
            keep,
        ),
{
    keys::lemma_key_order();
    lemma_left_ascending(start, mid, bound, key);
    lemma_left_above(start, mid, bound, key);
    assert forall|i: int| 0 <= i < start.len() implies model::trimmed(
        #[trigger] now[i],
        start[i],
        key,
    ) by {
        assert(model::trimmed(now[i], mid[i], key));
        if bound is Some {
            assert(model::trimmed(mid[i], start[i], bound->0));
            model::lemma_trim_twice(now[i], mid[i], start[i], bound->0, key);
        }
    }
    let more = if keep(key) {
        out.push((key, value))
    } else {
        out
    };
    let was = model::pair_entries(out);
    let is = model::pair_entries(more);
    assert forall|i: int| 0 <= i < out.len() implies keys::key_lt((#[trigger] out[i]).0, key) by {
        assert(keys::key_le(out[i].0, bound->0));
    }
    if keep(key) {
        assert(is =~= was + seq![(key, Some(value))]);
        assert forall|i: int, j: int| #![trigger is[i], is[j]]
            0 <= i < j < is.len() implies keys::key_lt(is[i].0, is[j].0) by {
            assert(is[i] == was[i]);
            if j < was.len() {
                assert(is[j] == was[j]);
            } else {
                assert(is[i].0 == out[i].0);
            }
        }
    }
    let kept = |k: Seq<u8>| keep(k) && keys::key_le(k, key);
    let before = |k: Seq<u8>| keep(k) && bound is Some && keys::key_le(k, bound->0);
    assert forall|k: Seq<u8>| #![trigger model::find(is, k)]
        model::live(model::find(is, k)) == (if kept(k) {
            model::visible(start, k)
        } else {
            None
        }) by {
        assert(model::live(model::find(was, k)) == (if before(k) {
            model::visible(start, k)
        } else {
            None
        }));
        keys::lemma_key_total(k, key);
        if k == key {
            if keep(key) {
                assert(is[was.len() as int] == (key, Some(value)));
                model::lemma_find_at(is, was.len() as int);
            } else {
                assert(!before(k));
            }
        } else {
            if keep(key) {
                model::lemma_find_concat(was, seq![(key, Some(value))], k);
                assert(seq![(key, Some(value))][0].0 != k);
                model::lemma_find_absent(seq![(key, Some(value))], k);
            }
            if keys::key_lt(k, key) && !(bound is Some && keys::key_le(k, bound->0)) {
                if bound is Some {
                    keys::lemma_key_total(k, bound->0);
                }
                lemma_left_above(start, mid, bound, k);
                assert(model::visible(mid, k) is None);
            }
        }
    }
    assert(model::lists(
        more,
        start,
        |k: Seq<u8>| keep(k) && Some(key) is Some && keys::key_le(k, Some(key)->0),
    ));
    assert forall|i: int| 0 <= i < more.len() implies keys::key_le((#[trigger] more[i]).0, key) by {
        if i < out.len() {
            assert(more[i] == out[i]);
        }
    }
}

/// Once the merge is at its end everything to be kept is collected.
pub proof fn lemma_collect_end(
    start: Seq<Seq<Entry>>,
    mid: Seq<Seq<Entry>>,
    now: Seq<Seq<Entry>>,
    bound: Option<Seq<u8>>,
    out: Seq<Pair>,
    keep: spec_fn(Seq<u8>) -> bool,
)
    requires
        all_ascending(start),
        collected(start, mid, bound, out, keep),
        advanced(mid, now, None),
    ensures
        model::lists(out, start, keep),
{
    assert forall|k: Seq<u8>| #![trigger model::find(model::pair_entries(out), k)]
        model::live(model::find(model::pair_entries(out), k)) == (if keep(k) {
            model::visible(start, k)
        } else {
            None
        }) by {
        lemma_left_ascending(start, mid, bound, k);
        if !(bound is Some && keys::key_le(k, bound->0)) {
            if bound is Some {
                keys::lemma_key_total(k, bound->0);
            }
            lemma_left_above(start, mid, bound, k);
            assert(model::visible(mid, k) is None);
        }
    }
}

/// Once the merge reaches a key from which on nothing is to be kept, everything to be
/// kept is collected.
pub proof fn lemma_collect_above(
    start: Seq<Seq<Entry>>,
    mid: Seq<Seq<Entry>>,
    now: Seq<Seq<Entry>>,
    bound: Option<Seq<u8>>,
    out: Seq<Pair>,
    keep: spec_fn(Seq<u8>) -> bool,
    key: Seq<u8>,
    value: Seq<u8>,
)
    requires
        all_ascending(start),
        collected(start, mid, bound, out, keep),
        advanced(mid, now, Some((key, value))),
        forall|k: Seq<u8>| #![trigger keep(k)] keys::key_le(key, k) ==> !keep(k),
    ensures
        model::lists(out, start, keep),
{
    assert(keys::key_le(key, key));
    assert(!keep(key));
    lemma_collect_step(start, mid, now, bound, out, keep, key, value);
    assert forall|k: Seq<u8>| #![trigger model::find(model::pair_entries(out), k)]
        model::live(model::find(model::pair_entries(out), k)) == (if keep(k) {
            model::visible(start, k)
        } else {
            None
        }) by {
        keys::lemma_key_total(k, key);
    }
}

/// The blocks not read yet, over all sources.
spec fn blocks_total(sources: Seq<Source>) -> nat
    decreases sources.len(),
{
    if sources.len() == 0 {
        0
    } else {
        blocks_total(sources.drop_last()) + sources.last().blocks_left()
    }
}

/// The entries at hand, over all sources.
spec fn items_total(sources: Seq<Source>) -> nat
    decreases sources.len(),
{
    if sources.len() == 0 {
        0
    } else {
        items_total(sources.drop_last()) + sources.last().items_left()
    }
}

/// Filling every source reads blocks or leaves the totals alone.
proof fn lemma_fill_measure(a: Seq<Source>, b: Seq<Source>)
    requires
        a.len() == b.len(),
        forall|i: int|
            #![trigger a[i]]
            #![trigger b[i]]
            0 <= i < a.len() ==> b[i].blocks_left() < a[i].blocks_left() || (b[i].blocks_left()
                == a[i].blocks_left() && b[i].items_left() == a[i].items_left()),
    ensures
        blocks_total(b) < blocks_total(a) || (blocks_total(b) == blocks_total(a) && items_total(b)
            == items_total(a)),
    decreases a.len(),
{
    if a.len() > 0 {
        assert(a.last() == a[a.len() - 1]);
        assert(b.last() == b[b.len() - 1]);
        assert forall|i: int|
            #![trigger a.drop_last()[i]]
            #![trigger b.drop_last()[i]]
            0 <= i < a.drop_last().len() implies b.drop_last()[i].blocks_left()
            < a.drop_last()[i].blocks_left() || (b.drop_last()[i].blocks_left()
            == a.drop_last()[i].blocks_left() && b.drop_last()[i].items_left()
            == a.drop_last()[i].items_left()) by {
            assert(a.drop_last()[i] == a[i]);
            assert(b.drop_last()[i] == b[i]);
        }
        lemma_fill_measure(a.drop_last(), b.drop_last());
    }
}

/// Taking entries leaves the blocks alone and lowers the number of entries at hand.
proof fn lemma_take_measure(a: Seq<Source>, b: Seq<Source>)
    requires
        a.len() == b.len(),
        forall|i: int|
            #![trigger a[i]]
            #![trigger b[i]]
            0 <= i < a.len() ==> b[i].blocks_left() == a[i].blocks_left() && b[i].items_left()
                <= a[i].items_left(),
    ensures
        blocks_total(b) == blocks_total(a),
        items_total(b) <= items_total(a),
        (exists|j: int| 0 <= j < a.len() && (#[trigger] b[j]).items_left() < a[j].items_left())
            ==> items_total(b) < items_total(a),
    decreases a.len(),
{
    if a.len() > 0 {
        let (da, db) = (a.drop_last(), b.drop_last());
        assert(a.last() == a[a.len() - 1]);
        assert(b.last() == b[b.len() - 1]);
        assert forall|i: int|
            #![trigger da[i]]
            #![trigger db[i]]
            0 <= i < da.len() implies db[i].blocks_left() == da[i].blocks_left()
            && db[i].items_left() <= da[i].items_left() by {
            assert(da[i] == a[i]);
            assert(db[i] == b[i]);
        }
        lemma_take_measure(da, db);
        if exists|j: int| 0 <= j < a.len() && (#[trigger] b[j]).items_left() < a[j].items_left() {
            let j = choose|j: int|
                0 <= j < a.len() && (#[trigger] b[j]).items_left() < a[j].items_left();
            if j < da.len() {
                assert(db[j] == b[j] && da[j] == a[j]);
            }
        }
    }
}

/// An ascending merge over a snapshot of the write buffer and a set of runs.
#[derive(Debug)]
pub struct Merge {
    sources: Vec<Source>,
}

impl Merge {
    /// What each source has still to yield, newest source first.
    pub closed spec fn rests(&self, disk: Map<u64, Seq<u8>>) -> Seq<Seq<Entry>> {
        rests(self.sources@, disk)
    }

    /// The runs that are merged; the write buffer stands as `None`.
    pub closed spec fn tables(&self) -> Seq<Option<SsTable>> {
        self.sources@.map_values(|s: Source| s.table())
    }

    /// The number of blocks not read yet.
    pub closed spec fn blocks_left(&self) -> nat {
        blocks_total(self.sources@)
    }

    /// The number of entries at hand and not taken yet.
    pub closed spec fn items_left(&self) -> nat {
        items_total(self.sources@)
    }

    /// Every source is well-formed.
    pub closed spec fn wf(&self) -> bool {
        forall|i: int| 0 <= i < self.sources@.len() ==> (#[trigger] self.sources@[i]).wf()
    }

    /// A source was stopped by `error`, which has not been handed out yet.
    pub closed spec fn stopped(&self, error: Error) -> bool {
        exists|i: int|
            0 <= i < self.sources@.len() && (#[trigger] self.sources@[i]).fault() == Some(error)
    }

    /// Source `i` was stopped by `error`, which has not been handed out yet.
    pub closed spec fn stopped_at(&self, i: int, error: Error) -> bool {
        0 <= i < self.sources@.len() && self.sources@[i].fault() == Some(error)
    }

    /// Nothing stops source `i`: the block that stopped it, if any did, is read again by the
    /// next call.
    pub open spec fn resumed(&self, i: int) -> bool {
        forall|error: Error| !#[trigger] self.stopped_at(i, error)
    }

    /// No source has passed a damaged block.
    pub closed spec fn clean(&self, disk: Map<u64, Seq<u8>>) -> bool {
        forall|i: int| 0 <= i < self.sources@.len() ==> (#[trigger] self.sources@[i]).clean(disk)
    }

    /// Source `i` has used up its entries at hand, and its next block is damaged.
    pub closed spec fn blocked_at(&self, disk: Map<u64, Seq<u8>>, i: int) -> bool {
        0 <= i < self.sources@.len() && self.sources@[i].blocked(disk)
    }

    /// Source `i` is where `error` comes from: it was stopped by it, or it is what reading
    /// one of the run's blocks ends in.
    pub open spec fn errs_at<R>(
        &self,
        read: R,
        disk: Map<u64, Seq<u8>>,
        i: int,
        error: Error,
    ) -> bool where R: Fn(u64, u64, usize) -> std::result::Result<Vec<u8>, std::io::Error> {
        &&& 0 <= i < self.tables().len()
        &&& self.stopped_at(i, error) || (self.tables()[i] is Some && run_fault(
            read,
            disk,
            self.tables()[i]->0,
            error,
        ))
    }

    /// Every merged run reads without fault.
    pub open spec fn all_intact(&self, disk: Map<u64, Seq<u8>>) -> bool {
        forall|s: int|
            0 <= s < self.tables().len() ==> ((#[trigger] self.tables()[s]) matches Some(t)
                ==> sstable::intact(t@, disk[t.id()]))
    }

    /// A merge that passed no damage has read without fault every block that can hold a key
    /// up to a bound that it is beyond.
    pub proof fn lemma_beyond_clean(
        &self,
        disk: Map<u64, Seq<u8>>,
        bound: Seq<u8>,
        s: int,
        j: int,
    )
        requires
            self.wf(),
            self.beyond(bound),
            self.clean(disk),
            0 <= s < self.tables().len(),
            self.tables()[s] is Some,
            0 <= j < (self.tables()[s]->0)@.index.len(),
            j == 0 || !keys::key_le(bound, (self.tables()[s]->0)@.index[j - 1].last_key),
        ensures
            sstable::block_of(
                (self.tables()[s]->0)@,
                disk[(self.tables()[s]->0).id()],
                j,
            ) is Ok,
    {
        let source = self.sources@[s];
        assert(source.clean(disk) && source.beyond(bound) && source.wf());
        match source {
            Source::Mem(_) => {},
            Source::Run(cursor) => {
                cursor.lemma_beyond_clean(disk[cursor.run().id()], bound, j);
            },
        }
    }

    /// Source `s` is a run whose entries at hand are used up; the next block is block `j`.
    pub closed spec fn drained_at(&self, s: int, j: int) -> bool {
        0 <= s < self.sources@.len() && self.sources@[s].drained_at(j)
    }

    /// Of a run whose entries at hand are used up, the blocks from the next one on are left.
    pub proof fn lemma_drained_at(&self, disk: Map<u64, Seq<u8>>, s: int, j: int)
        requires
            self.drained_at(s, j),
        ensures
            0 <= s < self.tables().len(),
            self.rests(disk).len() == self.tables().len(),
            self.tables()[s] matches Some(t) && self.rests(disk)[s] == sstable::entries_from(
                t@,
                disk[t.id()],
                j,
            ),
    {
        let source = self.sources@[s];
        match source {
            Source::Mem(_) => {},
            Source::Run(cursor) => {
                cursor.lemma_drained(disk[cursor.run().id()]);
            },
        }
        assert(self.rests(disk)[s] == source.rest(disk));
        assert(self.tables()[s] == source.table());
    }

    /// The merge stopped because of block `j` of the run that is source `s`.
    pub open spec fn stopped_by<R>(
        &self,
        read: R,
        disk: Map<u64, Seq<u8>>,
        s: int,
        j: int,
        error: Error,
    ) -> bool where R: Fn(u64, u64, usize) -> std::result::Result<Vec<u8>, std::io::Error> {
        &&& self.drained_at(s, j)
        &&& 0 <= s < self.tables().len()
        &&& self.tables()[s] matches Some(t) && sstable::block_fault(
            read,
            t.id(),
            t@,
            disk[t.id()],
            j,
            error,
        )
    }

    /// Every key that the merge has still to yield is above `bound`.
    pub closed spec fn beyond(&self, bound: Seq<u8>) -> bool {
        forall|i: int| 0 <= i < self.sources@.len() ==> (#[trigger] self.sources@[i]).beyond(bound)
    }

    /// A merge beyond a bound is beyond every lower one.
    pub proof fn lemma_beyond_lower(&self, bound: Seq<u8>, lower: Seq<u8>)
        requires
            self.beyond(bound),
            keys::key_lt(lower, bound),
        ensures
            self.beyond(lower),
    {
        assert forall|i: int| 0 <= i < self.sources@.len() implies (#[trigger] self.sources@[i]).beyond(
            lower,
        ) by {
            self.sources@[i].lemma_beyond_lower(bound, lower);
        }
    }

    /// `error` is what reading some block of some merged run ends in.
    pub open spec fn faulty<R>(&self, read: R, disk: Map<u64, Seq<u8>>, error: Error) -> bool where
        R: Fn(u64, u64, usize) -> std::result::Result<Vec<u8>, std::io::Error>,
     {
        exists|s: int|
            0 <= s < self.tables().len() && (#[trigger] self.tables()[s]) is Some && run_fault(
                read,
                disk,
                self.tables()[s]->0,
                error,
            )
    }

    /// Starts a merge. `mem` is the sorted snapshot of the write buffer; `runs` are listed
    /// newest first.
    pub fn new(mem: Vec<Item>, runs: &Vec<Arc<SsTable>>) -> (merge: Merge)
        requires
            model::ascending(record::entries(mem@)),
            forall|i: int| 0 <= i < runs@.len() ==> (#[trigger] runs@[i]).wf(),
        ensures
            merge.wf(),
            forall|e: Error| !#[trigger] merge.stopped(e),
            forall|disk: Map<u64, Seq<u8>>| #[trigger] merge.clean(disk),
            forall|disk: Map<u64, Seq<u8>>| #[trigger]
                merge.rests(disk) == seq![record::entries(mem@)] + run_contents(runs@, disk),
            merge.tables() == seq![None::<SsTable>] + runs@.map_values(
                |r: Arc<SsTable>| Some(*r),
            ),
    {
        let ghost items = mem@;
        let mut sources: Vec<Source> = Vec::new();
        sources.push(Source::Mem(record::reversed(mem)));
        let mut i: usize = 0;
        while i < runs.len()
            invariant
                i <= runs@.len(),
                sources@.len() == i + 1,
                forall|k: int| 0 <= k < runs@.len() ==> (#[trigger] runs@[k]).wf(),
                sources@[0] matches Source::Mem(v) && v@ == items.reverse(),
                forall|k: int|
                    1 <= k <= i ==> ((#[trigger] sources@[k]) matches Source::Run(c) && c.wf()
                        && c.run() == *runs@[k - 1] && c.fault() is None && (forall|
                        image: Seq<u8>,
                    | #[trigger]
                        c.clean(image)) && forall|image: Seq<u8>| #[trigger]
                        c.rest(image) == sstable::contents(runs@[k - 1]@, image)),
            decreases runs@.len() - i,
        {
            sources.push(Source::Run(RunCursor::new(Arc::clone(&runs[i]))));
            i += 1;
        }
        let merge = Merge { sources };
        proof {
            assert(items.reverse().reverse() =~= items);
            assert forall|k: int| 0 <= k < merge.sources@.len() implies (
            #[trigger] merge.sources@[k]).wf() && merge.sources@[k].fault() is None && forall|
                disk: Map<u64, Seq<u8>>,
            | #[trigger]
                merge.sources@[k].clean(disk) by {
                if k > 0 {
                    let s = sources@[k];
                }
            }
            assert forall|disk: Map<u64, Seq<u8>>| #[trigger] merge.clean(disk) by {
                assert forall|k: int| 0 <= k < merge.sources@.len() implies (
                #[trigger] merge.sources@[k]).clean(disk) by {}
            }
            assert forall|disk: Map<u64, Seq<u8>>| #[trigger]
                merge.rests(disk) == seq![record::entries(items)] + run_contents(runs@, disk) by {
                assert(merge.rests(disk) =~= seq![record::entries(items)] + run_contents(
                    runs@,
                    disk,
                ));
            }
            assert(merge.tables() =~= seq![None::<SsTable>] + runs@.map_values(
                |r: Arc<SsTable>| Some(*r),
            ));
        }
        merge
    }

    /// Makes the next entry of every source ready.
    fn fill_all<R>(&mut self, read: &R) where
        R: Fn(u64, u64, usize) -> std::result::Result<Vec<u8>, std::io::Error>,

        requires
            old(self).wf(),
            sstable::total(*read),
        ensures
            final(self).sources@.len() == old(self).sources@.len(),
            final(self).tables() == old(self).tables(),
            forall|i: int|
                0 <= i < final(self).sources@.len() ==> (#[trigger] final(self).sources@[i]).wf()
                    && (final(self).sources@[i].fault() is None ==> final(self).sources@[i].settled()),
            forall|bound: Seq<u8>| #[trigger]
                old(self).beyond(bound) ==> final(self).beyond(bound),
            blocks_total(final(self).sources@) < blocks_total(old(self).sources@) || (
            blocks_total(final(self).sources@) == blocks_total(old(self).sources@) && items_total(
                final(self).sources@,
            ) == items_total(old(self).sources@)),
            forall|disk: Map<u64, Seq<u8>>| #[trigger]
                reads_disk(*read, disk) ==> {
                    &&& final(self).rests(disk) == old(self).rests(disk)
                    &&& old(self).clean(disk) ==> final(self).clean(disk)
                    &&& forall|i: int|
                        0 <= i < final(self).sources@.len() ==> ((
                        #[trigger] final(self).sources@[i]).fault() matches Some(e) ==> {
                            &&& old(self).errs_at(*read, disk, i, e)
                            &&& old(self).stopped(e) || final(self).faulty(*read, disk, e)
                            &&& old(self).stopped(e) || exists|j: int| #[trigger]
                                final(self).sources@[i].stopped_by(*read, disk, j, e)
                        })
                    &&& forall|i: int|
                        old(self).blocked_at(disk, i) ==> (
                        #[trigger] final(self).sources@[i]).fault() is Some
                },
    {
        let ghost start = self.sources@;
        let mut i: usize = 0;
        while i < self.sources.len()
            invariant
                sstable::total(*read),
                i <= self.sources@.len(),
                self.sources@.len() == start.len(),
                start == old(self).sources@,
                old(self).wf(),
                forall|k: int| i <= k < start.len() ==> self.sources@[k] == #[trigger] start[k],
                forall|k: int|
                    #![trigger self.sources@[k]]
                    0 <= k < i ==> {
                        &&& self.sources@[k].wf()
                        &&& self.sources@[k].table() == start[k].table()
                        &&& self.sources@[k].fault() is None ==> self.sources@[k].settled()
                        &&& forall|bound: Seq<u8>| #[trigger]
                            start[k].beyond(bound) ==> self.sources@[k].beyond(bound)
                        &&& self.sources@[k].blocks_left() < start[k].blocks_left() || (
                        self.sources@[k].blocks_left() == start[k].blocks_left()
                            && self.sources@[k].items_left() == start[k].items_left())
                    },
                forall|disk: Map<u64, Seq<u8>>, k: int|
                    #![trigger reads_disk(*read, disk), self.sources@[k]]
                    reads_disk(*read, disk) && 0 <= k < i ==> {
                        &&& self.sources@[k].rest(disk) == start[k].rest(disk)
                        &&& start[k].clean(disk) ==> self.sources@[k].clean(disk)
                        &&& start[k].blocked(disk) ==> self.sources@[k].fault() is Some
                        &&& self.sources@[k].fault() matches Some(e) ==> start[k].fault() == Some(
                            e,
                        ) || (self.sources@[k].table() is Some && run_fault(
                            *read,
                            disk,
                            self.sources@[k].table()->0,
                            e,
                        ))
                        &&& self.sources@[k].fault() matches Some(e) ==> start[k].fault() == Some(
                            e,
                        ) || exists|j: int| #[trigger]
                            self.sources@[k].stopped_by(*read, disk, j, e)
                    },
            decreases start.len() - i,
        {
            assert(old(self).sources@[i as int].wf());
            assert(self.sources@[i as int] == start[i as int]);
            self.sources[i].fill(read);
            i += 1;
        }
        proof {
            assert(self.tables() =~= old(self).tables());
            assert forall|k: int|
                #![trigger start[k]]
                #![trigger self.sources@[k]]
                0 <= k < start.len() implies self.sources@[k].blocks_left()
                < start[k].blocks_left() || (self.sources@[k].blocks_left()
                == start[k].blocks_left() && self.sources@[k].items_left()
                == start[k].items_left()) by {
                let s = self.sources@[k];
            }
            lemma_fill_measure(start, self.sources@);
            assert forall|bound: Seq<u8>| #[trigger] old(self).beyond(bound) implies self.beyond(
                bound,
            ) by {
                assert forall|k: int| 0 <= k < self.sources@.len() implies (
                #[trigger] self.sources@[k]).beyond(bound) by {
                    assert(old(self).sources@[k].beyond(bound));
                    assert(start[k].beyond(bound));
                }
            }
            assert forall|disk: Map<u64, Seq<u8>>| #[trigger]
                reads_disk(*read, disk) implies self.rests(disk) == old(self).rests(disk) by {
                assert(self.rests(disk) =~= old(self).rests(disk));
            }
            assert forall|disk: Map<u64, Seq<u8>>| #[trigger]
                reads_disk(*read, disk) && old(self).clean(disk) implies self.clean(disk) by {
                assert forall|k: int| 0 <= k < self.sources@.len() implies (
                #[trigger] self.sources@[k]).clean(disk) by {
                    assert(old(self).sources@[k].clean(disk));
                }
            }
            assert forall|disk: Map<u64, Seq<u8>>, k: int|
                #![trigger reads_disk(*read, disk), self.sources@[k]]
                reads_disk(*read, disk) && 0 <= k < self.sources@.len() implies (
            self.sources@[k].fault() matches Some(e) ==> old(self).errs_at(*read, disk, k, e) && (
            old(self).stopped(e) || self.faulty(*read, disk, e)) && (old(self).stopped(e) || exists|
                j: int,
            | #[trigger]
                self.sources@[k].stopped_by(*read, disk, j, e))) by {
                if self.sources@[k].fault() is Some {
                    assert(old(self).sources@[k].fault() == start[k].fault());
                    assert(self.tables()[k] == self.sources@[k].table());
                }
            }
        }
    }

    /// Takes the first error that stopped a source.
    fn first_error(&mut self) -> (error: Option<Error>)
        requires
            forall|i: int|
                0 <= i < old(self).sources@.len() ==> (#[trigger] old(self).sources@[i]).wf(),
        ensures
            final(self).tables() == old(self).tables(),
            error is None ==> final(self).sources@ == old(self).sources@ && forall|i: int|
                0 <= i < old(self).sources@.len() ==> (#[trigger] old(self).sources@[i]).fault()
                    is None,
            error matches Some(e) ==> exists|i: int|
                0 <= i < old(self).sources@.len() && (#[trigger] old(self).sources@[i]).fault()
                    == Some(e) && final(self).sources@ == old(self).sources@.update(
                    i,
                    final(self).sources@[i],
                ) && final(self).sources@[i].fault() is None && forall|j: int|
                    0 <= j < i ==> (#[trigger] old(self).sources@[j]).fault() is None,
            forall|disk: Map<u64, Seq<u8>>| #[trigger]
                final(self).clean(disk) == old(self).clean(disk),
            forall|s: int, j: int| #[trigger]
                final(self).drained_at(s, j) == old(self).drained_at(s, j),
            forall|i: int|
                0 <= i < final(self).sources@.len() ==> (#[trigger] final(self).sources@[i]).wf(),
            forall|disk: Map<u64, Seq<u8>>| #[trigger]
                final(self).rests(disk) == old(self).rests(disk),
    {
        let ghost start = self.sources@;
        let mut i: usize = 0;
        while i < self.sources.len()
            invariant
                i <= self.sources@.len(),
                self.sources@ =~= start,
                start == old(self).sources@,
                forall|k: int| 0 <= k < start.len() ==> (#[trigger] start[k]).wf(),
                forall|k: int| 0 <= k < i ==> (#[trigger] start[k]).fault() is None,
            decreases start.len() - i,
        {
            let error = self.sources[i].take_error();
            if error.is_some() {
                proof {
                    assert(self.tables() =~= old(self).tables());
                    assert(start[i as int].fault() == error);
                    assert(self.sources@ =~= start.update(i as int, self.sources@[i as int]));
                    assert forall|disk: Map<u64, Seq<u8>>| #[trigger]
                        self.clean(disk) == old(self).clean(disk) by {
                        assert forall|k: int| 0 <= k < start.len() implies (
                        #[trigger] self.sources@[k]).clean(disk) == start[k].clean(disk) by {}
                        if self.clean(disk) {
                            assert forall|k: int| 0 <= k < start.len() implies (
                            #[trigger] old(self).sources@[k]).clean(disk) by {
                                assert(self.sources@[k].clean(disk));
                            }
                        }
                        if old(self).clean(disk) {
                            assert forall|k: int| 0 <= k < start.len() implies (
                            #[trigger] self.sources@[k]).clean(disk) by {
                                assert(old(self).sources@[k].clean(disk));
                            }
                        }
                    }
                    assert forall|disk: Map<u64, Seq<u8>>| #[trigger]
                        self.rests(disk) == old(self).rests(disk) by {
                        assert(self.rests(disk) =~= old(self).rests(disk));
                    }
                }
                return error;
            }
            i += 1;
        }
        None
    }

    /// The smallest key that is ready in any source.
    fn min_key(&self) -> (min: Option<Vec<u8>>)
        ensures
            match min {
                None => forall|i: int|
                    0 <= i < self.sources@.len() ==> (#[trigger] self.sources@[i]).ready() is None,
                Some(m) => {
                    &&& exists|i: int|
                        0 <= i < self.sources@.len() && (#[trigger] self.sources@[i]).ready()
                            is Some && record::entry(self.sources@[i].ready()->0).0 == m@
                    &&& forall|i: int|
                        0 <= i < self.sources@.len() && (#[trigger] self.sources@[i]).ready()
                            is Some ==> keys::key_le(
                            m@,
                            record::entry(self.sources@[i].ready()->0).0,
                        )
                },
            },
    {
        let mut best: Option<usize> = None;
        let mut i: usize = 0;
        while i < self.sources.len()
            invariant
                i <= self.sources@.len(),
                match best {
                    None => forall|k: int|
                        0 <= k < i ==> (#[trigger] self.sources@[k]).ready() is None,
                    Some(b) => {
                        &&& b < i
                        &&& self.sources@[b as int].ready() is Some
                        &&& forall|k: int|
                            0 <= k < i && (#[trigger] self.sources@[k]).ready() is Some
                                ==> keys::key_le(
                                record::entry(self.sources@[b as int].ready()->0).0,
                                record::entry(self.sources@[k].ready()->0).0,
                            )
                    },
                },
            decreases self.sources@.len() - i,
        {
            proof {
                keys::lemma_key_order();
            }
            match self.sources[i].peek_key() {
                None => {},
                Some(key) => match best {
                    None => {
                        best = Some(i);
                    },
                    Some(b) => match self.sources[b].peek_key() {
                        None => {},
                        Some(smallest) => {
                            if keys::key_before(key.as_slice(), smallest.as_slice()) {
                                best = Some(i);
                            }
                        },
                    },
                },
            }
            i += 1;
        }
        match best {
            None => None,
            Some(b) => match self.sources[b].peek_key() {
                None => None,
                Some(key) => {
                    let min = vstd::slice::slice_to_vec(key.as_slice());
                    assert(self.sources@[b as int].ready() is Some);
                    Some(min)
                },
            },
        }
    }

    /// Takes the entry for `min` from every source that has it ready; the newest record
    /// wins.
    fn take_min(&mut self, min: &Vec<u8>) -> (chosen: Option<Record>)
        requires
            forall|i: int|
                0 <= i < old(self).sources@.len() ==> (#[trigger] old(self).sources@[i]).wf()
                    && old(self).sources@[i].settled() && old(self).sources@[i].fault() is None,
            forall|i: int|
                0 <= i < old(self).sources@.len() && (#[trigger] old(self).sources@[i]).ready()
                    is Some ==> keys::key_le(
                    min@,
                    record::entry(old(self).sources@[i].ready()->0).0,
                ),
            exists|i: int|
                0 <= i < old(self).sources@.len() && (#[trigger] old(self).sources@[i]).ready()
                    is Some && record::entry(old(self).sources@[i].ready()->0).0 == min@,
        ensures
            final(self).wf(),
            forall|e: Error| !#[trigger] final(self).stopped(e),
            final(self).tables() == old(self).tables(),
            blocks_total(final(self).sources@) == blocks_total(old(self).sources@),
            items_total(final(self).sources@) < items_total(old(self).sources@),
            chosen is Some,
            final(self).beyond(min@),
            forall|disk: Map<u64, Seq<u8>>| #[trigger]
                old(self).clean(disk) ==> final(self).clean(disk),
            forall|disk: Map<u64, Seq<u8>>|
                #![trigger final(self).rests(disk)]
                taken(old(self).rests(disk), final(self).rests(disk), min@, (chosen->0)@),
    {
        let ghost start = self.sources@;
        let ghost had = choose|i: int|
            0 <= i < start.len() && (#[trigger] start[i]).ready() is Some && record::entry(
                start[i].ready()->0,
            ).0 == min@;
        let mut chosen: Option<Record> = None;
        let mut i: usize = 0;
        while i < self.sources.len()
            invariant
                i <= self.sources@.len(),
                self.sources@.len() == start.len(),
                start == old(self).sources@,
                forall|k: int|
                    0 <= k < start.len() ==> (#[trigger] start[k]).wf() && start[k].settled()
                        && start[k].fault() is None,
                forall|k: int|
                    0 <= k < start.len() && (#[trigger] start[k]).ready() is Some ==> keys::key_le(
                        min@,
                        record::entry(start[k].ready()->0).0,
                    ),
                forall|k: int| i <= k < start.len() ==> self.sources@[k] == #[trigger] start[k],
                forall|k: int|
                    #![trigger self.sources@[k]]
                    0 <= k < i ==> {
                        let held = start[k].ready() is Some && record::entry(
                            start[k].ready()->0,
                        ).0 == min@;
                        &&& self.sources@[k].wf()
                        &&& self.sources@[k].fault() is None
                        &&& self.sources@[k].table() == start[k].table()
                        &&& self.sources@[k].blocks_left() == start[k].blocks_left()
                        &&& held ==> self.sources@[k].items_left() + 1 == start[k].items_left()
                        &&& held ==> self.sources@[k].beyond(min@)
                        &&& !held ==> self.sources@[k] == start[k]
                        &&& forall|disk: Map<u64, Seq<u8>>| #[trigger]
                            self.sources@[k].clean(disk) == start[k].clean(disk)
                        &&& held ==> forall|disk: Map<u64, Seq<u8>>| #[trigger]
                            self.sources@[k].rest(disk) == start[k].rest(disk).drop_first()
                    },
                chosen is None ==> forall|k: int|
                    0 <= k < i && (#[trigger] start[k]).ready() is Some ==> record::entry(
                        start[k].ready()->0,
                    ).0 != min@,
                chosen matches Some(r) ==> exists|k: int|
                    0 <= k < i && (#[trigger] start[k]).ready() is Some && record::entry(
                        start[k].ready()->0,
                    ) == (min@, r@) && forall|j: int|
                        0 <= j < k && (#[trigger] start[j]).ready() is Some ==> record::entry(
                            start[j].ready()->0,
                        ).0 != min@,
            decreases start.len() - i,
        {
            assert(self.sources@[i as int] == start[i as int]);
            let held = match self.sources[i].peek_key() {
                None => false,
                Some(key) => keys::same_key(key.as_slice(), min.as_slice()),
            };
            if held {
                match self.sources[i].next_entry() {
                    Some(item) => {
                        assert(record::entry(item) == (min@, item.1@));
                        if chosen.is_none() {
                            chosen = Some(item.1);
                        }
                    },
                    None => {},
                }
            }
            i += 1;
        }
        proof {
            assert(self.tables() =~= old(self).tables());
            assert(start[had].ready() is Some);
            assert forall|k: int| #![trigger start[k]] #![trigger self.sources@[k]] 0 <= k < start.len()
                implies self.sources@[k].blocks_left() == start[k].blocks_left()
                && self.sources@[k].items_left() <= start[k].items_left() by {
                let s = self.sources@[k];
            }
            assert(self.sources@[had].items_left() < start[had].items_left());
            lemma_take_measure(start, self.sources@);
            assert forall|disk: Map<u64, Seq<u8>>| #[trigger]
                old(self).clean(disk) implies self.clean(disk) by {
                assert forall|k: int| 0 <= k < self.sources@.len() implies (
                #[trigger] self.sources@[k]).clean(disk) by {
                    assert(old(self).sources@[k].clean(disk));
                }
            }
            assert forall|k: int| 0 <= k < self.sources@.len() implies (
            #[trigger] self.sources@[k]).beyond(min@) by {
                let held = start[k].ready() is Some && record::entry(start[k].ready()->0).0 == min@;
                if !held {
                    assert(start[k].wf());
                    start[k].lemma_settled_beyond(min@);
                }
            }
            let k0 = choose|k: int|
                0 <= k < start.len() && (#[trigger] start[k]).ready() is Some && record::entry(
                    start[k].ready()->0,
                ) == (min@, (chosen->0)@) && forall|j: int|
                    0 <= j < k && (#[trigger] start[j]).ready() is Some ==> record::entry(
                        start[j].ready()->0,
                    ).0 != min@;
            assert forall|disk: Map<u64, Seq<u8>>|
                #![trigger self.rests(disk)]
                taken(old(self).rests(disk), self.rests(disk), min@, (chosen->0)@) by {
                let was = old(self).rests(disk);
                if all_ascending(was) {
                    lemma_chosen(start, disk, min@, k0);
                    assert forall|i: int| 0 <= i < was.len() implies model::trimmed(
                        #[trigger] self.rests(disk)[i],
                        was[i],
                        min@,
                    ) by {
                        let s = self.sources@[i];
                        assert(was[i] == start[i].rest(disk));
                        assert(self.rests(disk)[i] == s.rest(disk));
                        start[i].lemma_settled(disk);
                        assert(model::ascending(was[i]));
                        model::lemma_trim_head(was[i], min@);
                    }
                }
            }
        }
        chosen
    }

    /// Yields the next live key with its value, or the error that a block read ended in. No
    /// damaged block is passed over: where one is next in some source the error of the newest
    /// such source is yielded and no entry is taken. Such a read is tried again by the next
    /// call.
    pub fn next<R>(&mut self, read: &R) -> (item: Option<Result<(Vec<u8>, Vec<u8>)>>) where
        R: Fn(u64, u64, usize) -> std::result::Result<Vec<u8>, std::io::Error>,

        requires
            old(self).wf(),
            sstable::total(*read),
        ensures
            final(self).wf(),
            final(self).tables() == old(self).tables(),
            !(item matches Some(Err(_))) ==> forall|e: Error| !#[trigger] final(self).stopped(e),
            item is None ==> forall|bound: Seq<u8>| #[trigger] final(self).beyond(bound),
            item matches Some(Ok((key, _))) ==> final(self).beyond(key@) && forall|bound: Seq<u8>|
                 #[trigger] old(self).beyond(bound) ==> keys::key_lt(bound, key@),
            item matches Some(Ok(_)) ==> {
                ||| final(self).blocks_left() < old(self).blocks_left()
                ||| final(self).blocks_left() == old(self).blocks_left()
                    && final(self).items_left() < old(self).items_left()
            },
            forall|disk: Map<u64, Seq<u8>>| #[trigger]
                reads_disk(*read, disk) ==> match item {
                    Some(Ok((key, value))) => advanced(
                        old(self).rests(disk),
                        final(self).rests(disk),
                        Some((key@, value@)),
                    ),
                    None => advanced(old(self).rests(disk), final(self).rests(disk), None),
                    Some(Err(e)) => {
                        &&& old(self).stopped(e) || old(self).faulty(*read, disk, e)
                        &&& old(self).stopped(e) || exists|s: int, j: int| #[trigger]
                            final(self).stopped_by(*read, disk, s, j, e)
                        &&& exists|s: int| #[trigger]
                            old(self).errs_at(*read, disk, s, e) && final(self).resumed(s)
                                && forall|j: int|
                                0 <= j < s ==> !#[trigger] old(self).blocked_at(disk, j)
                        &&& forall|s: int, f: Error| #[trigger]
                            final(self).stopped_at(s, f) ==> old(self).errs_at(*read, disk, s, f)
                        &&& all_ascending(old(self).rests(disk)) ==> exists|bound: Option<Seq<u8>>|
                             #[trigger]
                            progressed(old(self).rests(disk), final(self).rests(disk), bound)
                    },
                },
            forall|disk: Map<u64, Seq<u8>>| #[trigger]
                reads_disk(*read, disk) && old(self).clean(disk) ==> {
                    &&& final(self).clean(disk)
                    &&& item is None ==> old(self).all_intact(disk)
                },
            forall|disk: Map<u64, Seq<u8>>, i: int|
                #![trigger reads_disk(*read, disk), old(self).blocked_at(disk, i)]
                reads_disk(*read, disk) && old(self).blocked_at(disk, i) ==> {
                    &&& item matches Some(Err(_))
                    &&& final(self).rests(disk) == old(self).rests(disk)
                },
    {
        let ghost start = *self;
        let ghost mut bound: Option<Seq<u8>> = None;
        loop
            invariant
                start == *old(self),
                sstable::total(*read),
                self.wf(),
                self.tables() == start.tables(),
                forall|e: Error| #[trigger] self.stopped(e) ==> start.stopped(e),
                forall|i: int, e: Error| #[trigger]
                    self.stopped_at(i, e) ==> start.stopped_at(i, e),
                forall|disk: Map<u64, Seq<u8>>| #[trigger]
                    reads_disk(*read, disk) && start.clean(disk) ==> self.clean(disk),
                forall|disk: Map<u64, Seq<u8>>, i: int|
                    #![trigger reads_disk(*read, disk), start.blocked_at(disk, i)]
                    reads_disk(*read, disk) && start.blocked_at(disk, i) ==> *self == start,
                forall|b: Seq<u8>| #[trigger] start.beyond(b) ==> self.beyond(b),
                self.blocks_left() < start.blocks_left() || (self.blocks_left()
                    == start.blocks_left() && self.items_left() <= start.items_left()),
                forall|disk: Map<u64, Seq<u8>>| #[trigger]
                    reads_disk(*read, disk) && all_ascending(start.rests(disk)) ==> progressed(
                        start.rests(disk),
                        self.rests(disk),
                        bound,
                    ),
            decreases self.blocks_left(), self.items_left(),
        {
            let ghost before = *self;
            self.fill_all(read);
            let ghost filled = *self;
            match self.first_error() {
                Some(e) => {
                    proof {
                        let i = choose|i: int|
                            0 <= i < filled.sources@.len() && (#[trigger] filled.sources@[i]).fault()
                                == Some(e) && self.sources@[i].fault() is None && forall|j: int|
                                0 <= j < i ==> (#[trigger] filled.sources@[j]).fault() is None;
                        assert forall|disk: Map<u64, Seq<u8>>| #[trigger]
                            reads_disk(*read, disk) implies {
                            &&& start.stopped(e) || start.faulty(*read, disk, e)
                            &&& start.stopped(e) || exists|s: int, j: int| #[trigger]
                                self.stopped_by(*read, disk, s, j, e)
                            &&& start.errs_at(*read, disk, i, e)
                            &&& self.resumed(i)
                            &&& forall|k: int, f: Error| #[trigger]
                                self.stopped_at(k, f) ==> start.errs_at(*read, disk, k, f)
                            &&& forall|j: int|
                                0 <= j < i ==> !#[trigger] start.blocked_at(disk, j)
                            &&& all_ascending(start.rests(disk)) ==> progressed(
                                start.rests(disk),
                                self.rests(disk),
                                bound,
                            )
                        } by {
                            assert(filled.sources@[i].fault() == Some(e));
                            assert(before.stopped(e) || filled.faulty(*read, disk, e));
                            assert(before.errs_at(*read, disk, i, e));
                            if !start.stopped(e) {
                                let j = choose|j: int| #[trigger]
                                    filled.sources@[i].stopped_by(*read, disk, j, e);
                                assert(filled.drained_at(i, j));
                                assert(self.drained_at(i, j));
                                assert(filled.tables()[i] == filled.sources@[i].table());
                                assert(self.stopped_by(*read, disk, i, j, e));
                            }
                            assert(self.rests(disk) == filled.rests(disk));
                            assert forall|k: int, f: Error| #[trigger]
                                self.stopped_at(k, f) implies start.errs_at(*read, disk, k, f) by {
                                assert(k != i);
                                assert(filled.sources@[k].fault() == Some(f));
                                assert(before.errs_at(*read, disk, k, f));
                            }
                            assert forall|j: int| 0 <= j < i implies !#[trigger] start.blocked_at(
                                disk,
                                j,
                            ) by {
                                assert(filled.sources@[j].fault() is None);
                                if start.blocked_at(disk, j) {
                                    assert(before.blocked_at(disk, j));
                                }
                            }
                        }
                    }
                    return Some(Err(e));
                },
                None => {},
            }
            let ghost mid = *self;
            proof {
                assert forall|b: Seq<u8>| #[trigger] start.beyond(b) implies mid.beyond(b) by {
                    assert(filled.beyond(b));
                }
                assert forall|disk: Map<u64, Seq<u8>>| #[trigger]
                    reads_disk(*read, disk) implies mid.rests(disk) == before.rests(disk) by {
                    assert(mid.rests(disk) == filled.rests(disk));
                }
                assert forall|disk: Map<u64, Seq<u8>>, i: int|
                    #![trigger reads_disk(*read, disk), start.blocked_at(disk, i)]
                    reads_disk(*read, disk) implies !start.blocked_at(disk, i) by {
                    if start.blocked_at(disk, i) {
                        assert(before.blocked_at(disk, i));
                        assert(filled.sources@[i].fault() is Some);
                    }
                }
            }
            let min = match self.min_key() {
                Some(min) => min,
                None => {
                    proof {
                        assert forall|b: Seq<u8>| #[trigger] self.beyond(b) by {
                            assert forall|i: int| 0 <= i < self.sources@.len() implies (
                            #[trigger] self.sources@[i]).beyond(b) by {
                                self.sources@[i].lemma_settled_beyond(b);
                            }
                        }
                        assert forall|disk: Map<u64, Seq<u8>>| #[trigger]
                            reads_disk(*read, disk) && start.clean(disk) implies start.all_intact(
                            disk,
                        ) by {
                            assert(self.clean(disk));
                            assert forall|s: int| 0 <= s < start.tables().len() implies ((
                            #[trigger] start.tables()[s]) matches Some(t) ==> sstable::intact(
                                t@,
                                disk[t.id()],
                            )) by {
                                assert(self.tables()[s] == self.sources@[s].table());
                                assert(self.sources@[s].clean(disk) && self.sources@[s].wf());
                                self.sources@[s].lemma_settled_intact(disk);
                            }
                        }
                        assert forall|disk: Map<u64, Seq<u8>>| #[trigger]
                            reads_disk(*read, disk) implies advanced(
                            start.rests(disk),
                            self.rests(disk),
                            None,
                        ) by {
                            if all_ascending(start.rests(disk)) {
                                assert forall|i: int| 0 <= i < self.rests(disk).len() implies
                                    #[trigger] self.rests(disk)[i] == Seq::<Entry>::empty() by {
                                    assert(self.rests(disk)[i] == self.sources@[i].rest(disk));
                                    self.sources@[i].lemma_settled(disk);
                                }
                                lemma_progress_end(start.rests(disk), self.rests(disk), bound);
                            }
                        }
                    }
                    return None;
                },
            };
            let ghost holder = choose|i: int|
                0 <= i < mid.sources@.len() && (#[trigger] mid.sources@[i]).ready() is Some
                    && record::entry(mid.sources@[i].ready()->0).0 == min@;
            let chosen = self.take_min(&min);
            proof {
                assert forall|disk: Map<u64, Seq<u8>>| #[trigger]
                    reads_disk(*read, disk) && start.clean(disk) implies self.clean(disk) by {
                    assert(before.clean(disk) && filled.clean(disk));
                    assert(mid.clean(disk));
                }
                assert forall|i: int, e: Error| !#[trigger] self.stopped_at(i, e) by {
                    assert(!self.stopped(e));
                }
                assert forall|b: Seq<u8>| #[trigger] start.beyond(b) implies keys::key_lt(b, min@)
                    && self.beyond(b) by {
                    assert(mid.beyond(b));
                    assert(mid.sources@[holder].beyond(b));
                    mid.sources@[holder].lemma_ready_beyond(b);
                    assert forall|k: int| 0 <= k < self.sources@.len() implies (
                    #[trigger] self.sources@[k]).beyond(b) by {
                        self.sources@[k].lemma_beyond_lower(min@, b);
                    }
                }
                assert forall|disk: Map<u64, Seq<u8>>| #[trigger]
                    reads_disk(*read, disk) && all_ascending(start.rests(disk)) implies {
                    &&& (chosen->0)@ is None ==> progressed(
                        start.rests(disk),
                        self.rests(disk),
                        Some(min@),
                    )
                    &&& (chosen->0)@ matches Some(value) ==> advanced(
                        start.rests(disk),
                        self.rests(disk),
                        Some((min@, value)),
                    )
                } by {
                    let was = mid.rests(disk);
                    assert(taken(was, self.rests(disk), min@, (chosen->0)@));
                    assert forall|i: int| 0 <= i < was.len() && (#[trigger] was[i]).len()
                        > 0 implies keys::key_le(min@, was[i][0].0) by {
                        assert(was[i] == mid.sources@[i].rest(disk));
                        mid.sources@[i].lemma_settled(disk);
                    }
                    mid.sources@[holder].lemma_settled(disk);
                    assert(was[holder] == mid.sources@[holder].rest(disk));
                    lemma_progress_step(
                        start.rests(disk),
                        was,
                        self.rests(disk),
                        bound,
                        min@,
                        (chosen->0)@,
                        holder,
                    );
                }
            }
            match chosen {
                Some(Record::Value(value)) => {
                    return Some(Ok((min, value)));
                },
                _ => {},
            }
            proof {
                bound = Some(min@);
            }
        }
    }
}

/// The contents of the runs, in the order they are listed.
pub open spec fn run_contents(runs: Seq<Arc<SsTable>>, disk: Map<u64, Seq<u8>>) -> Seq<Seq<Entry>> {
    runs.map_values(|r: Arc<SsTable>| sstable::contents(r@, disk[r.id()]))
}

/// The first settled source that has `min` ready decides it, when no source is below it.
proof fn lemma_chosen(sources: Seq<Source>, disk: Map<u64, Seq<u8>>, min: Seq<u8>, k: int)
    requires
        0 <= k < sources.len(),
        all_ascending(rests(sources, disk)),
        forall|i: int|
            0 <= i < sources.len() ==> (#[trigger] sources[i]).wf() && sources[i].settled(),
        forall|i: int|
            0 <= i < sources.len() && (#[trigger] sources[i]).ready() is Some ==> keys::key_le(
                min,
                record::entry(sources[i].ready()->0).0,
            ),
        sources[k].ready() is Some,
        record::entry(sources[k].ready()->0).0 == min,
        forall|j: int|
            0 <= j < k && (#[trigger] sources[j]).ready() is Some ==> record::entry(
                sources[j].ready()->0,
            ).0 != min,
    ensures
        model::newest(rests(sources, disk), min) == Some(record::entry(sources[k].ready()->0).1),
{
    let all = rests(sources, disk);
    let (a, b) = (all.take(k), all.skip(k));
    assert(a + b =~= all);
    assert forall|i: int| 0 <= i < a.len() implies model::find(#[trigger] a[i], min) is None by {
        assert(a[i] == sources[i].rest(disk));
        assert(model::ascending(all[i]));
        sources[i].lemma_settled(disk);
        model::lemma_find_below(a[i], min);
    }
    model::lemma_newest_absent(a, min);
    model::lemma_newest_concat(a, b, min);
    assert(b[0] == sources[k].rest(disk));
    assert(model::ascending(all[k]));
    sources[k].lemma_settled(disk);
    model::lemma_find_at(b[0], 0);
}

} // verus!
