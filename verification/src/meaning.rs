//! What the words of the contracts come to, in terms of bytes, numbers and keys.
//!
//! The contracts speak through definitions: an order of keys, a range, a full buffer, a
//! block that reads without fault. The laws here say of each what a user can observe,
//! without going through the definition.
use std::sync::Arc;
use vstd::prelude::*;
use crate::block;
use crate::bloom;
use crate::checksum;
use crate::codec;
use crate::compact;
use crate::db;
use crate::db::Lsm;
use crate::error::{Error, Result};
use crate::index;
use crate::index::Handle;
use crate::keys;
use crate::laws;
use crate::layout;
use crate::memtable;
use crate::merge;
use crate::model;
use crate::model::Pair;
use crate::range::{KeyBound, KeyRange};
use crate::record::Entry;
use crate::sstable;
use crate::sstable::{SsTable, Table};

verus! {

/// A range contains just the keys that meet its start and its end, each judged on its own:
/// an included bound belongs to the range and an excluded one does not, whatever the other
/// bound is, and a side without a bound admits every key.
pub proof fn law_each_bound_is_judged_on_its_own(range: KeyRange, key: Seq<u8>)
    ensures
        range.contains(key) <==> (match range.start {
            KeyBound::Included(s) => s@ == key || keys::key_lt(s@, key),
            KeyBound::Excluded(s) => keys::key_lt(s@, key),
            KeyBound::Unbounded => true,
        }) && (match range.end {
            KeyBound::Included(e) => key == e@ || keys::key_lt(key, e@),
            KeyBound::Excluded(e) => keys::key_lt(key, e@),
            KeyBound::Unbounded => true,
        }),
        range.before_start(key) <==> (match range.start {
            KeyBound::Included(s) => keys::key_lt(key, s@),
            KeyBound::Excluded(s) => key == s@ || keys::key_lt(key, s@),
            KeyBound::Unbounded => false,
        }),
        range.after_end(key) <==> (match range.end {
            KeyBound::Included(e) => keys::key_lt(e@, key),
            KeyBound::Excluded(e) => key == e@ || keys::key_lt(e@, key),
            KeyBound::Unbounded => false,
        }),
{
    keys::lemma_key_order();
    match range.start {
        KeyBound::Included(s) => {
            keys::lemma_key_total(s@, key);
        },
        KeyBound::Excluded(s) => {
            keys::lemma_key_total(s@, key);
        },
        KeyBound::Unbounded => {},
    }
    match range.end {
        KeyBound::Included(e) => {
            keys::lemma_key_total(e@, key);
        },
        KeyBound::Excluded(e) => {
            keys::lemma_key_total(e@, key);
        },
        KeyBound::Unbounded => {},
    }
}

/// An included bound belongs to the range unless the other bound rules it out, and an
/// excluded one never does.
pub proof fn law_bounds_belong_as_they_say(range: KeyRange)
    ensures
        range.end matches KeyBound::Included(e) ==> (range.contains(e@) <==> (match range.start {
            KeyBound::Included(s) => !keys::key_lt(e@, s@),
            KeyBound::Excluded(s) => keys::key_lt(s@, e@),
            KeyBound::Unbounded => true,
        })),
        range.start matches KeyBound::Included(s) ==> (range.contains(s@) <==> (match range.end {
            KeyBound::Included(e) => !keys::key_lt(e@, s@),
            KeyBound::Excluded(e) => keys::key_lt(s@, e@),
            KeyBound::Unbounded => true,
        })),
        range.end matches KeyBound::Excluded(e) ==> !range.contains(e@),
        range.start matches KeyBound::Excluded(s) ==> !range.contains(s@),
        range.start is Unbounded && range.end is Unbounded ==> forall|key: Seq<u8>| #[trigger]
            range.contains(key),
{
    keys::lemma_key_order();
    match range.start {
        KeyBound::Included(s) => {
            law_each_bound_is_judged_on_its_own(range, s@);
            match range.end {
                KeyBound::Included(e) => {
                    keys::lemma_key_total(s@, e@);
                },
                _ => {},
            }
        },
        KeyBound::Excluded(s) => {
            law_each_bound_is_judged_on_its_own(range, s@);
        },
        KeyBound::Unbounded => {},
    }
    match range.end {
        KeyBound::Included(e) => {
            law_each_bound_is_judged_on_its_own(range, e@);
            match range.start {
                KeyBound::Included(s) => {
                    keys::lemma_key_total(s@, e@);
                },
                _ => {},
            }
        },
        KeyBound::Excluded(e) => {
            law_each_bound_is_judged_on_its_own(range, e@);
        },
        KeyBound::Unbounded => {},
    }
}

/// A scan lists its pairs in the order of their keys' bytes: of two pairs, the key of the
/// earlier one has the smaller byte where the two first differ, or begins the other.
pub proof fn law_scans_ascend_by_their_bytes(
    pairs: Seq<Pair>,
    sources: Seq<Seq<Entry>>,
    range: KeyRange,
    i: int,
    j: int,
) -> (at: int)
    requires
        model::lists(pairs, sources, |k: Seq<u8>| range.contains(k)),
        0 <= i < j < pairs.len(),
    ensures
        0 <= at <= pairs[i].0.len(),
        at < pairs[j].0.len(),
        forall|n: int| 0 <= n < at ==> pairs[i].0[n] == pairs[j].0[n],
        at == pairs[i].0.len() || pairs[i].0[at] < pairs[j].0[at],
{
    let es = model::pair_entries(pairs);
    assert(keys::key_lt(es[i].0, es[j].0));
    assert(es[i].0 == pairs[i].0 && es[j].0 == pairs[j].0);
    keys::law_the_earlier_key_has_the_smaller_byte(pairs[i].0, pairs[j].0)
}

/// A scan of a range lists a pair exactly if its key meets both bounds, each judged on its
/// own, and a lookup of the key gives its value.
pub proof fn law_scans_list_what_meets_both_bounds(
    pairs: Seq<Pair>,
    sources: Seq<Seq<Entry>>,
    range: KeyRange,
    key: Seq<u8>,
    value: Seq<u8>,
)
    requires
        model::lists(pairs, sources, |k: Seq<u8>| range.contains(k)),
    ensures
        pairs.contains((key, value)) <==> model::visible(sources, key) == Some(value) && (
        match range.start {
            KeyBound::Included(s) => s@ == key || keys::key_lt(s@, key),
            KeyBound::Excluded(s) => keys::key_lt(s@, key),
            KeyBound::Unbounded => true,
        }) && (match range.end {
            KeyBound::Included(e) => key == e@ || keys::key_lt(key, e@),
            KeyBound::Excluded(e) => keys::key_lt(key, e@),
            KeyBound::Unbounded => true,
        }),
{
    laws::law_scan_agrees_with_get(pairs, sources, range, key, value);
    law_each_bound_is_judged_on_its_own(range, key);
}

/// The size of buffered entries is the bytes of their keys and of their values; a deletion
/// has only a key.
pub proof fn law_sizes_count_the_bytes(es: Seq<Entry>, e: Entry)
    ensures
        memtable::total_size(seq![]) == 0,
        memtable::total_size(es.push(e)) == memtable::total_size(es) + e.0.len() + (match e.1 {
            Some(value) => value.len(),
            None => 0,
        }),
{
    assert(es.push(e).drop_last() =~= es);
}

/// A single buffered write counts its key and its value in full.
pub proof fn law_one_large_write_fills_the_buffer(lsm: Lsm, key: Seq<u8>, value: Seq<u8>)
    requires
        lsm.wf(),
        model::find(lsm.mem(), key) == Some(Some(value)),
        key.len() + value.len() >= lsm.settings().memtable_capacity,
    ensures
        lsm.full(),
{
    let i = model::lemma_find_witness(lsm.mem(), key);
    lemma_size_of_part(lsm.mem(), i);
}

/// No entry is larger than all of them.
proof fn lemma_size_of_part(es: Seq<Entry>, i: int)
    requires
        0 <= i < es.len(),
    ensures
        memtable::total_size(es) >= es[i].0.len() + (match es[i].1 {
            Some(value) => value.len(),
            None => 0,
        }),
    decreases es.len(),
{
    if i < es.len() - 1 {
        lemma_size_of_part(es.drop_last(), i);
    }
}

/// The buffer is full just where it holds something and its key and value bytes have reached
/// the capacity.
pub proof fn law_a_full_buffer_has_reached_its_capacity(lsm: Lsm)
    ensures
        lsm.full() <==> lsm.mem().len() > 0 && memtable::total_size(lsm.mem())
            >= lsm.settings().memtable_capacity,
{
}

/// After a write and a flush that is made if it is due, and that succeeds, the key and value
/// bytes still buffered are below the capacity, or nothing is buffered. A buffer below its
/// capacity is left as it is.
pub proof fn law_flushing_when_due_bounds_the_buffer<P, A, R, M, T>(
    was: Lsm,
    now: Lsm,
    dimensions: Option<(u64, u32)>,
    persist: P,
    attach: A,
    read: R,
    store: M,
    rotate: T,
    done: Result<bool>,
) where
    P: FnOnce(u64, String, Vec<u8>) -> Result<()>,
    A: FnOnce(String, Vec<u8>) -> Result<()>,
    R: Fn(u64, u64, usize) -> std::result::Result<Vec<u8>, std::io::Error>,
    M: FnOnce(String) -> Result<()>,
    T: FnOnce() -> Result<()>,

    requires
        if was.full() {
            db::flush_outcome(
                was,
                now,
                dimensions,
                persist,
                attach,
                read,
                store,
                rotate,
                done,
            )
        } else {
            done == Ok::<bool, Error>(false) && now == was
        },
    ensures
        done is Ok ==> now.mem().len() == 0 || memtable::total_size(now.mem())
            < was.settings().memtable_capacity,
        was.mem().len() == 0 || memtable::total_size(was.mem()) < was.settings().memtable_capacity
            ==> now == was,
        done is Ok && was.mem().len() > 0 && memtable::total_size(was.mem())
            >= was.settings().memtable_capacity ==> now.mem().len() == 0 && now.live().len()
            == was.live().len() + 1,
{
    if was.full() && done is Ok {
        let table = choose|table: SsTable| #[trigger]
            db::fronted(table, was.live(), now.live()) && db::flushed_as(table, was, dimensions);
        assert(db::fronted(table, was.live(), now.live()));
    }
}

/// A block that reads without fault matches the checksum that the index records for it,
/// however long it is.
pub proof fn law_a_block_that_reads_matches_its_checksum(t: Table, image: Seq<u8>, i: int)
    requires
        0 <= i < t.index.len(),
        sstable::block_of(t, image, i) is Ok,
    ensures
        t.index[i].offset + t.index[i].len <= image.len(),
        checksum::crc32c_of(
            image.subrange(t.index[i].offset as int, t.index[i].offset + t.index[i].len),
        ) == t.index[i].crc,
        block::decoded(
            image.subrange(t.index[i].offset as int, t.index[i].offset + t.index[i].len),
        ) == sstable::block_of(t, image, i),
        8 <= t.index[i].offset,
        t.index[i].offset + t.index[i].len <= t.data_end,
{
}

/// A block that reads without fault keeps to its place in the order of the run: its keys are
/// above the last key of the block before, and not above its own last key in the index.
pub proof fn law_a_block_that_reads_keeps_its_place(t: Table, image: Seq<u8>, i: int, k: int)
    requires
        0 <= i < t.index.len(),
        image.len() <= usize::MAX,
        sstable::block_of(t, image, i) is Ok,
        0 <= k < (sstable::block_of(t, image, i)->Ok_0).len(),
    ensures
        !keys::key_lt(t.index[i].last_key, (sstable::block_of(t, image, i)->Ok_0)[k].0),
        i > 0 ==> keys::key_lt(
            t.index[i - 1].last_key,
            (sstable::block_of(t, image, i)->Ok_0)[k].0,
        ),
{
    let es = sstable::block_of(t, image, i)->Ok_0;
    let bytes = image.subrange(t.index[i].offset as int, t.index[i].offset + t.index[i].len);
    sstable::lemma_checked_shape(t, i, bytes);
    keys::lemma_key_order();
    if k < es.len() - 1 {
        assert(keys::key_lt(es[k].0, es[es.len() - 1].0));
    }
    if k > 0 {
        assert(keys::key_lt(es[0].0, es[k].0));
    }
}

/// A block that read without fault is refused once any one of its bytes is changed.
pub proof fn law_a_changed_block_is_refused(t: Table, image: Seq<u8>, i: int, at: int, byte: u8)
    requires
        0 <= i < t.index.len(),
        sstable::block_of(t, image, i) is Ok,
        t.index[i].offset <= at < t.index[i].offset + t.index[i].len,
        byte != image[at],
    ensures
        sstable::block_of(t, image.update(at, byte), i) == Err::<Seq<Entry>, Error>(
            Error::Corruption { reason: "data block checksum mismatch" },
        ),
{
    law_a_block_that_reads_matches_its_checksum(t, image, i);
    let (from, to) = (t.index[i].offset as int, t.index[i].offset + t.index[i].len);
    let bytes = image.subrange(from, to);
    assert(image.update(at, byte).subrange(from, to) =~= bytes.update(at - from, byte));
    checksum::law_one_changed_byte_changes_the_checksum(bytes, at - from, byte);
}

/// A lookup in a run that comes back without an error read the one block that may hold its
/// key, and that block matched its checksum.
pub proof fn law_a_lookup_trusts_no_changed_block(t: Table, image: Seq<u8>, key: Seq<u8>, c: int)
    requires
        sstable::sound_for(t, image, key),
        sstable::is_candidate(t, key, c),
        c < t.index.len(),
    ensures
        t.index[c].offset + t.index[c].len <= image.len(),
        checksum::crc32c_of(
            image.subrange(t.index[c].offset as int, t.index[c].offset + t.index[c].len),
        ) == t.index[c].crc,
{
    law_a_block_that_reads_matches_its_checksum(t, image, c);
}

/// A lookup in a run that was answered fails once a byte of the block that may hold its key is
/// changed.
pub proof fn law_a_lookup_fails_on_a_changed_block(
    t: Table,
    image: Seq<u8>,
    key: Seq<u8>,
    c: int,
    at: int,
    byte: u8,
)
    requires
        sstable::sound_for(t, image, key),
        sstable::is_candidate(t, key, c),
        c < t.index.len(),
        t.index[c].offset <= at < t.index[c].offset + t.index[c].len,
        byte != image[at],
    ensures
        !sstable::sound_for(t, image.update(at, byte), key),
{
    assert(sstable::block_of(t, image, c) is Ok);
    law_a_changed_block_is_refused(t, image, c, at, byte);
}

/// A search through the runs that comes to one whose block for the key is changed is not
/// answered: an answer means that every block it needed matched its checksum.
pub proof fn law_an_answered_search_read_matching_blocks(
    runs: Seq<Arc<SsTable>>,
    disk: Map<u64, Seq<u8>>,
    key: Seq<u8>,
    i: int,
    c: int,
)
    requires
        db::sound_search(runs, disk, key, runs.len() as int),
        db::asked(runs, disk, key, i),
        sstable::is_candidate(runs[i]@, key, c),
        c < runs[i]@.index.len(),
    ensures
        ({
            let h = runs[i]@.index[c];
            let image = disk[runs[i].id()];
            &&& h.offset + h.len <= image.len()
            &&& checksum::crc32c_of(image.subrange(h.offset as int, h.offset + h.len)) == h.crc
        }),
{
    law_a_lookup_trusts_no_changed_block(runs[i]@, disk[runs[i].id()], key, c);
}

/// A scan that comes to its end read every block that can hold a key of its range, and each
/// of them matched its checksum.
pub proof fn law_a_finished_scan_read_matching_blocks(
    runs: Seq<Arc<SsTable>>,
    disk: Map<u64, Seq<u8>>,
    range: KeyRange,
    i: int,
    j: int,
)
    requires
        db::sound_up_to(runs, disk, range),
        0 <= i < runs.len(),
        0 <= j < runs[i]@.index.len(),
        j == 0 || !range.after_end(runs[i]@.index[j - 1].last_key),
    ensures
        ({
            let h = runs[i]@.index[j];
            let image = disk[runs[i].id()];
            &&& h.offset + h.len <= image.len()
            &&& checksum::crc32c_of(image.subrange(h.offset as int, h.offset + h.len)) == h.crc
        }),
{
    assert(sstable::block_of(runs[i]@, disk[runs[i].id()], j) is Ok);
    law_a_block_that_reads_matches_its_checksum(runs[i]@, disk[runs[i].id()], j);
}

/// A compaction that comes to its end read every block of every run it merged, and each of
/// them matched its checksum.
pub proof fn law_a_finished_merge_read_matching_blocks(
    inputs: Seq<Arc<SsTable>>,
    disk: Map<u64, Seq<u8>>,
    i: int,
    j: int,
)
    requires
        compact::inputs_intact(inputs, disk),
        0 <= i < inputs.len(),
        0 <= j < inputs[i]@.index.len(),
    ensures
        ({
            let h = inputs[i]@.index[j];
            let image = disk[inputs[i].id()];
            &&& h.offset + h.len <= image.len()
            &&& checksum::crc32c_of(image.subrange(h.offset as int, h.offset + h.len)) == h.crc
        }),
{
    assert(sstable::intact(inputs[i]@, disk[inputs[i].id()]));
    law_a_block_that_reads_matches_its_checksum(inputs[i]@, disk[inputs[i].id()], j);
}

/// Where byte `p` of the joined blocks lies: in one of them.
proof fn lemma_block_holding(bs: Seq<Seq<Entry>>, p: int) -> (k: int)
    requires
        0 <= p < layout::data_bytes(bs).len(),
    ensures
        0 <= k < bs.len(),
        layout::data_bytes(bs.take(k)).len() <= p < layout::data_bytes(bs.take(k)).len()
            + codec::encode_entries(bs[k]).len(),
    decreases bs.len(),
{
    let n = bs.len() as int;
    let before = bs.drop_last();
    assert(bs.take(n - 1) =~= before);
    if p < layout::data_bytes(before).len() {
        let k = lemma_block_holding(before, p);
        assert(before.take(k) =~= bs.take(k));
        k
    } else {
        n - 1
    }
}

/// A run that was written and has one byte of its data blocks changed, wherever it is, still
/// opens, but is damaged: the block that the byte lies in is refused.
pub proof fn law_a_changed_byte_damages_a_written_run(es: Seq<Entry>, at: int, byte: u8)
    requires
        model::ascending(es),
        block::all_fit(es),
        layout::run_bytes(es).len() <= usize::MAX,
        8 <= at < layout::table_for(es).data_end,
        byte != layout::run_bytes(es)[at],
    ensures
        !sstable::intact(layout::table_for(es), layout::run_bytes(es).update(at, byte)),
{
    let bs = layout::blocks_of(es);
    let (t, image) = (layout::table_for(es), layout::run_bytes(es));
    layout::lemma_index_within(es);
    layout::lemma_run_roundtrip(es);
    layout::lemma_blocks(es);
    assert(layout::data_bytes(bs).len() + 8 <= image.len());
    let k = lemma_block_holding(bs, at - 8);
    law_a_block_that_reads_matches_its_checksum(t, image, k);
    layout::lemma_written_block(es, k);
    law_a_changed_block_is_refused(t, image, k, at, byte);
}

/// A run file that opens has an index that matches the checksum in its footer, however long
/// the index is. The footer is the last 36 bytes, and the index lies right before it.
pub proof fn law_an_index_that_opens_matches_its_checksum(image: Seq<u8>)
    requires
        sstable::opened(image) is Ok,
    ensures
        ({
            let t = sstable::opened(image)->Ok_0;
            let n = image.len() as int;
            &&& 8 <= t.data_end <= n - 36
            &&& t.data_end == codec::le8_value(image.subrange(n - 28, n - 20))
            &&& n - 36 - t.data_end == codec::le8_value(image.subrange(n - 20, n - 12))
            &&& checksum::crc32c_of(image.subrange(t.data_end as int, n - 36))
                == codec::le4_value(image.subrange(n - 12, n - 8))
            &&& image.subrange(n - 8, n) == seq![
                0x4Cu8,
                0x53u8,
                0x4Du8,
                0x54u8,
                0x42u8,
                0x4Cu8,
                0x30u8,
                0x31u8,
            ]
            &&& t.entry_count == codec::le8_value(image.subrange(n - 36, n - 28))
            &&& index::index_of(image.subrange(t.data_end as int, n - 36)) == Ok::<
                Seq<Handle>,
                Error,
            >(t.index)
        }),
{
    let n = image.len() as int;
    let foot = image.subrange(n - 36, n);
    assert(foot.subrange(0, 8) =~= image.subrange(n - 36, n - 28));
    assert(foot.subrange(8, 16) =~= image.subrange(n - 28, n - 20));
    assert(foot.subrange(16, 24) =~= image.subrange(n - 20, n - 12));
    assert(foot.subrange(24, 28) =~= image.subrange(n - 12, n - 8));
    assert(foot.subrange(28, 36) =~= image.subrange(n - 8, n));
    assert(index::footer_of(n, foot) is Ok);
    let f = index::footer_of(n, foot)->Ok_0;
    assert(f.index_offset + f.index_len == n - 36);
}

/// A run file that opens does not open once any one byte of its index is changed.
pub proof fn law_a_changed_index_is_refused(image: Seq<u8>, at: int, byte: u8)
    requires
        sstable::opened(image) is Ok,
        (sstable::opened(image)->Ok_0).data_end <= at < image.len() - 36,
        byte != image[at],
    ensures
        sstable::opened(image.update(at, byte)) == Err::<Table, Error>(
            Error::Corruption { reason: "index checksum mismatch" },
        ),
{
    law_an_index_that_opens_matches_its_checksum(image);
    let n = image.len() as int;
    let from = (sstable::opened(image)->Ok_0).data_end as int;
    let changed = image.update(at, byte);
    let bytes = image.subrange(from, n - 36);
    assert(changed.subrange(n - 36, n) =~= image.subrange(n - 36, n));
    assert(changed.subrange(from, n - 36) =~= bytes.update(at - from, byte));
    checksum::law_one_changed_byte_changes_the_checksum(bytes, at - from, byte);
}

/// A sidecar whose filter is used is no longer used once any one of its bytes is changed.
pub proof fn law_a_changed_sidecar_is_not_used(sidecar: Seq<u8>, at: int, byte: u8)
    requires
        bloom::payload_of(sidecar) is Some,
        0 <= at < sidecar.len(),
        byte != sidecar[at],
    ensures
        sidecar.len() >= 12,
        bloom::payload_of(sidecar) == Some(sidecar.skip(12)),
        checksum::crc32c_of(sidecar.skip(12)) == codec::le4_value(sidecar.subrange(8, 12)),
        bloom::payload_of(sidecar.update(at, byte)) is None,
{
    let changed = sidecar.update(at, byte);
    if at < 8 {
        assert(changed.subrange(0, 8)[at] == byte);
        assert(sidecar.subrange(0, 8)[at] == sidecar[at]);
    } else if at < 12 {
        assert(changed.skip(12) =~= sidecar.skip(12));
        assert(changed.subrange(8, 12)[at - 8] == byte);
        assert(sidecar.subrange(8, 12)[at - 8] == sidecar[at]);
        codec::lemma_le4_value_roundtrip(changed.subrange(8, 12));
        codec::lemma_le4_value_roundtrip(sidecar.subrange(8, 12));
    } else {
        assert(changed.subrange(8, 12) =~= sidecar.subrange(8, 12));
        assert(changed.skip(12) =~= sidecar.skip(12).update(at - 12, byte));
        checksum::law_one_changed_byte_changes_the_checksum(sidecar.skip(12), at - 12, byte);
    }
}

/// What a source holds for a key is the record next to the key, if the key is there, and
/// nothing if it is not.
pub proof fn law_sources_are_searched_by_key(source: Seq<Entry>, key: Seq<u8>, i: int)
    requires
        model::ascending(source),
    ensures
        0 <= i < source.len() && source[i].0 == key ==> model::find(source, key) == Some(
            source[i].1,
        ),
        (forall|k: int| 0 <= k < source.len() ==> (#[trigger] source[k]).0 != key) ==> model::find(
            source,
            key,
        ) is None,
{
    if 0 <= i < source.len() && source[i].0 == key {
        model::lemma_find_at(source, i);
    }
}

/// The newest source that mentions a key decides it: a reader sees the value that it has
/// there, and nothing if it is deleted there or is nowhere mentioned, whatever the older
/// sources say.
pub proof fn law_the_newest_mention_decides(sources: Seq<Seq<Entry>>, key: Seq<u8>, i: int)
    requires
        0 <= i <= sources.len(),
        forall|k: int| 0 <= k < i ==> model::find(#[trigger] sources[k], key) is None,
        i < sources.len() ==> model::find(sources[i], key) is Some,
    ensures
        model::newest(sources, key) == (if i < sources.len() {
            model::find(sources[i], key)
        } else {
            None
        }),
        model::visible(sources, key) == (if i < sources.len() {
            match model::find(sources[i], key) {
                Some(Some(value)) => Some(value),
                _ => None,
            }
        } else {
            None
        }),
    decreases sources.len(),
{
    if sources.len() > 0 && i > 0 {
        assert(model::find(sources[0], key) is None);
        let rest = sources.drop_first();
        assert forall|k: int| 0 <= k < i - 1 implies model::find(#[trigger] rest[k], key) is None by {
            assert(rest[k] == sources[k + 1]);
        }
        law_the_newest_mention_decides(rest, key, i - 1);
    }
}

/// The engine reads its buffer first, and then its runs from the newest to the oldest.
pub proof fn law_the_buffer_is_newer_than_the_runs(lsm: Lsm, disk: Map<u64, Seq<u8>>, i: int)
    ensures
        lsm.sources(disk).len() == lsm.live().len() + 1,
        lsm.sources(disk)[0] == lsm.mem(),
        0 <= i < lsm.live().len() ==> lsm.sources(disk)[i + 1] == sstable::contents(
            lsm.live()[i]@,
            disk[lsm.live()[i].id()],
        ),
{
}

/// What a lookup in the engine gives: what the buffer says of the key, else what the newest
/// run that mentions it says.
pub proof fn law_lookups_give_the_newest_record(
    lsm: Lsm,
    disk: Map<u64, Seq<u8>>,
    key: Seq<u8>,
    i: int,
)
    requires
        0 <= i <= lsm.live().len(),
        model::find(lsm.mem(), key) is None ==> (forall|k: int|
            0 <= k < i ==> model::find(
                sstable::contents((#[trigger] lsm.live()[k])@, disk[lsm.live()[k].id()]),
                key,
            ) is None) && (i < lsm.live().len() ==> model::find(
            sstable::contents(lsm.live()[i]@, disk[lsm.live()[i].id()]),
            key,
        ) is Some),
    ensures
        lsm.visible(disk, key) == (match model::find(lsm.mem(), key) {
            Some(record) => record,
            None => if i < lsm.live().len() {
                match model::find(
                    sstable::contents(lsm.live()[i]@, disk[lsm.live()[i].id()]),
                    key,
                ) {
                    Some(record) => record,
                    None => None,
                }
            } else {
                None
            },
        }),
{
    let sources = lsm.sources(disk);
    if model::find(lsm.mem(), key) is Some {
        law_the_newest_mention_decides(sources, key, 0);
    } else {
        assert forall|k: int| 0 <= k < i + 1 implies model::find(#[trigger] sources[k], key)
            is None by {
            if k > 0 {
                assert(sources[k] == sstable::contents(
                    lsm.live()[k - 1]@,
                    disk[lsm.live()[k - 1].id()],
                ));
            }
        }
        law_the_newest_mention_decides(sources, key, i + 1);
    }
}

/// The last operation on a key decides what a group of operations leaves under it.
pub proof fn law_the_last_operation_decides(ops: Seq<Entry>, key: Seq<u8>, i: int)
    requires
        -1 <= i < ops.len(),
        i >= 0 ==> ops[i].0 == key,
        forall|k: int| i < k < ops.len() ==> (#[trigger] ops[k]).0 != key,
    ensures
        memtable::last_write(ops, key) == (if i >= 0 {
            Some(ops[i].1)
        } else {
            None
        }),
    decreases ops.len(),
{
    if ops.len() > 0 && i < ops.len() - 1 {
        let n = ops.len() as int;
        assert(ops[n - 1].0 != key);
        assert forall|k: int| i < k < n - 1 implies (#[trigger] ops.drop_last()[k]).0 != key by {
            assert(ops.drop_last()[k] == ops[k]);
        }
        law_the_last_operation_decides(ops.drop_last(), key, i);
    }
}

/// A buffered write is there, in key order, and no other key is touched.
pub proof fn law_a_write_touches_its_key_alone(
    now: Seq<Entry>,
    was: Seq<Entry>,
    key: Seq<u8>,
    record: Option<Seq<u8>>,
    other: Seq<u8>,
)
    requires
        memtable::applied(now, was, key, record),
        model::ascending(was),
    ensures
        forall|i: int, j: int|
            #![trigger now[i], now[j]]
            0 <= i < j < now.len() ==> keys::key_lt(now[i].0, now[j].0),
        exists|i: int| 0 <= i < now.len() && #[trigger] now[i] == (key, record),
        other != key ==> ((exists|i: int| 0 <= i < now.len() && (#[trigger] now[i]).0 == other)
            <==> (exists|i: int| 0 <= i < was.len() && (#[trigger] was[i]).0 == other)),
        other != key ==> model::find(now, other) == model::find(was, other),
{
    assert(model::find(now, key) == Some(record));
    let at = model::lemma_find_witness(now, key);
    assert(now[at] == (key, record));
    assert(model::find(now, other) == (if other == key {
        Some(record)
    } else {
        model::find(was, other)
    }));
    assert(model::mentions(now, other) <==> model::find(now, other) is Some);
    assert(model::mentions(was, other) <==> model::find(was, other) is Some);
}

/// A group of operations leaves under every key what its last operation on the key says, and
/// leaves the other keys alone.
pub proof fn law_a_group_leaves_its_last_operations(
    now: Seq<Entry>,
    was: Seq<Entry>,
    ops: Seq<Entry>,
    i: int,
    other: Seq<u8>,
)
    requires
        memtable::applied_all(now, was, ops),
    ensures
        0 <= i < ops.len() && (forall|k: int|
            i < k < ops.len() ==> (#[trigger] ops[k]).0 != ops[i].0) ==> model::find(
            now,
            ops[i].0,
        ) == Some(ops[i].1),
        (forall|k: int| 0 <= k < ops.len() ==> (#[trigger] ops[k]).0 != other) ==> model::find(
            now,
            other,
        ) == model::find(was, other),
        model::ascending(now),
{
    if 0 <= i < ops.len() && (forall|k: int|
        i < k < ops.len() ==> (#[trigger] ops[k]).0 != ops[i].0) {
        law_the_last_operation_decides(ops, ops[i].0, i);
        assert(model::find(now, ops[i].0) == Some(ops[i].1));
    }
    if forall|k: int| 0 <= k < ops.len() ==> (#[trigger] ops[k]).0 != other {
        law_the_last_operation_decides(ops, other, -1);
        assert(model::find(now, other) == model::find(was, other));
    }
}

/// The entries of a source ascend by the bytes of their keys.
pub proof fn law_sources_ascend_by_their_bytes(source: Seq<Entry>, i: int, j: int) -> (at: int)
    requires
        model::ascending(source),
        0 <= i < j < source.len(),
    ensures
        0 <= at <= source[i].0.len(),
        at < source[j].0.len(),
        forall|n: int| 0 <= n < at ==> source[i].0[n] == source[j].0[n],
        at == source[i].0.len() || source[i].0[at] < source[j].0[at],
{
    keys::law_the_earlier_key_has_the_smaller_byte(source[i].0, source[j].0)
}

/// The settings that an engine has unless told otherwise: a buffer of four mebibytes, a
/// compaction at four runs, and a block cache of eight mebibytes.
pub proof fn law_the_defaults_are_as_documented()
    ensures
        crate::config::default_settings().memtable_capacity == 4194304,
        crate::config::default_settings().compaction_trigger == 4,
        crate::config::default_settings().block_cache_capacity == 8388608,
{
}

/// A run holds what its blocks hold, one after the other.
pub proof fn law_runs_hold_what_their_blocks_hold(t: Table, image: Seq<u8>, i: int)
    requires
        0 <= i <= t.index.len(),
    ensures
        sstable::contents(t, image) == sstable::entries_from(t, image, 0),
        i == t.index.len() ==> sstable::entries_from(t, image, i) == Seq::<Entry>::empty(),
        i < t.index.len() ==> sstable::entries_from(t, image, i) == (match sstable::block_of(
            t,
            image,
            i,
        ) {
            Ok(es) => es,
            Err(_) => seq![],
        }) + sstable::entries_from(t, image, i + 1),
{
}

/// The part of the buffer that a scan works on is just the buffered entries of its range.
pub proof fn law_snapshots_are_cut_to_the_range(
    part: Seq<Entry>,
    mem: Seq<Entry>,
    range: KeyRange,
    key: Seq<u8>,
)
    requires
        db::restricted(part, mem, range),
    ensures
        model::ascending(part),
        range.contains(key) ==> model::find(part, key) == model::find(mem, key),
        !range.contains(key) ==> model::find(part, key) is None,
{
    assert(model::find(part, key) == (if range.contains(key) {
        model::find(mem, key)
    } else {
        None
    }));
}

/// A compaction lists every live pair of the runs it merges, and nothing else, in ascending
/// key order.
pub proof fn law_compactions_list_every_live_pair(
    pairs: Seq<Pair>,
    inputs: Seq<Arc<SsTable>>,
    disk: Map<u64, Seq<u8>>,
    key: Seq<u8>,
    value: Seq<u8>,
)
    requires
        model::lists(pairs, compact::inputs_of(inputs, disk), compact::every_key()),
    ensures
        pairs.contains((key, value)) <==> model::visible(merge::run_contents(inputs, disk), key)
            == Some(value),
        forall|i: int, j: int|
            #![trigger pairs[i], pairs[j]]
            0 <= i < j < pairs.len() ==> keys::key_lt(pairs[i].0, pairs[j].0),
{
    let es = model::pair_entries(pairs);
    db::lemma_mem_first(seq![], inputs, disk, key);
    model::lemma_find_absent(seq![], key);
    assert(model::live(model::find(es, key)) == model::visible(
        compact::inputs_of(inputs, disk),
        key,
    ));
    if pairs.contains((key, value)) {
        let i = choose|i: int| 0 <= i < pairs.len() && pairs[i] == (key, value);
        assert(es[i] == (key, Some(value)));
        model::lemma_find_at(es, i);
    }
    if model::live(model::find(es, key)) == Some(value) {
        let i = model::lemma_find_witness(es, key);
        assert(es[i] == (pairs[i].0, Some(pairs[i].1)));
        assert(pairs[i] == (key, value));
    }
    assert forall|i: int, j: int| #![trigger pairs[i], pairs[j]]
        0 <= i < j < pairs.len() implies keys::key_lt(pairs[i].0, pairs[j].0) by {
        assert(es[i].0 == pairs[i].0 && es[j].0 == pairs[j].0);
    }
}

/// The sources of a compaction, and of a scan, are the contents of the runs, newest first.
pub proof fn law_runs_are_merged_newest_first(
    runs: Seq<Arc<SsTable>>,
    disk: Map<u64, Seq<u8>>,
    i: int,
)
    ensures
        merge::run_contents(runs, disk).len() == runs.len(),
        0 <= i < runs.len() ==> merge::run_contents(runs, disk)[i] == sstable::contents(
            runs[i]@,
            disk[runs[i].id()],
        ),
{
}

/// A filter can be probed just where it has the words that its bits take, or at least one; one
/// that probes nothing always can.
pub proof fn law_probes_stay_within_the_words(words: Seq<u64>, num_bits: u64, num_hashes: u32)
    ensures
        bloom::probeable((words, num_bits, num_hashes)) <==> num_hashes == 0 || (words.len() >= 1
            && 64 * words.len() >= num_bits),
        bloom::sizeable(Some((num_bits, num_hashes))) <==> num_bits > 0 && num_hashes > 0 && 8 * ((
        num_bits + 63) / 64) <= isize::MAX,
        !bloom::sizeable(None),
{
}

/// A failed read is reported with its context and the error it failed with; a read that came
/// back short is damage.
pub proof fn law_failed_reads_are_reported_as_they_failed<R>(
    read: R,
    run: u64,
    offset: u64,
    len: usize,
    context: &'static str,
    error: Error,
) where R: Fn(u64, u64, usize) -> std::result::Result<Vec<u8>, std::io::Error>
    requires
        sstable::read_fault(read, run, offset, len, context, error),
    ensures
        match error {
            Error::Io { context: c, source } => c == context && call_ensures(
                read,
                (run, offset, len),
                Err::<Vec<u8>, std::io::Error>(source),
            ),
            Error::Corruption { reason } => reason == "short read of sorted run",
        },
{
}

/// What is wrong with stored bytes is reported as damage.
pub proof fn law_damage_is_reported_as_corruption(
    t: Table,
    image: Seq<u8>,
    i: int,
    record: Seq<u8>,
    content: Seq<char>,
)
    ensures
        sstable::block_of(t, image, i) matches Err(e) ==> e is Corruption,
        sstable::opened(image) matches Err(e) ==> e is Corruption,
        crate::durability::decoded_log(record) matches Err(e) ==> e is Corruption,
        crate::manifest::manifest_of(content) matches Err(e) ==> e is Corruption,
{
    let h = t.index[i];
    lemma_block_errors(image.subrange(h.offset as int, h.offset + h.len), 0, None);
    let n = image.len() as int;
    if n >= 44 {
        let foot = index::footer_of(n, image.subrange(n - 36, n));
        if foot is Ok {
            let f = foot->Ok_0;
            lemma_index_errors(
                image.subrange(f.index_offset as int, f.index_offset + f.index_len),
                0,
                None,
            );
        }
    }
    let count = codec::u32_field(record, 0, codec::Origin::Log);
    if count is Ok {
        lemma_log_errors(record, 4, count->Ok_0 as nat);
    }
}

/// What is wrong with a block is damage.
proof fn lemma_block_errors(bytes: Seq<u8>, pos: int, prev: Option<Seq<u8>>)
    ensures
        block::decode_from(bytes, pos, prev) matches Err(e) ==> e is Corruption,
    decreases bytes.len() - pos,
{
    if pos < bytes.len() {
        match codec::entry_at(bytes, pos, codec::Origin::Run) {
            Ok((entry, end)) => {
                if end > pos {
                    lemma_block_errors(bytes, end, Some(entry.0));
                }
            },
            Err(_) => {},
        }
    }
}

/// What is wrong with an index is damage.
proof fn lemma_index_errors(bytes: Seq<u8>, pos: int, prev: Option<Seq<u8>>)
    ensures
        index::index_from(bytes, pos, prev) matches Err(e) ==> e is Corruption,
    decreases bytes.len() - pos,
{
    if pos < bytes.len() {
        match index::handle_at(bytes, pos) {
            Ok((handle, end)) => {
                if end > pos {
                    lemma_index_errors(bytes, end, Some(handle.last_key));
                }
            },
            Err(_) => {},
        }
    }
}

/// What is wrong with a log record is damage.
proof fn lemma_log_errors(bytes: Seq<u8>, pos: int, count: nat)
    ensures
        crate::durability::ops_from(bytes, pos, count) matches Err(e) ==> e is Corruption,
    decreases count,
{
    if count > 0 {
        match codec::entry_at(bytes, pos, codec::Origin::Log) {
            Ok((op, end)) => {
                lemma_log_errors(bytes, end, (count - 1) as nat);
            },
            Err(_) => {},
        }
    }
}

/// A key is not after another just where it is that key or comes before it.
pub proof fn law_not_after_is_equal_or_before(a: Seq<u8>, b: Seq<u8>)
    ensures
        keys::key_le(a, b) <==> a == b || keys::key_lt(a, b),
        keys::key_le(a, b) <==> !keys::key_lt(b, a),
{
    keys::lemma_key_order();
    keys::lemma_key_total(a, b);
}

/// The one block that may hold a key is the first whose last key is not before it.
pub proof fn law_one_block_may_hold_a_key(t: Table, key: Seq<u8>, c: int)
    requires
        index::handles_ascending(t.index),
        0 <= c <= t.index.len(),
    ensures
        sstable::is_candidate(t, key, c) <==> (c > 0 ==> keys::key_lt(
            t.index[c - 1].last_key,
            key,
        )) && (c < t.index.len() ==> !keys::key_lt(t.index[c].last_key, key)),
{
    keys::lemma_key_order();
    if (c > 0 ==> keys::key_lt(t.index[c - 1].last_key, key)) && (c < t.index.len()
        ==> !keys::key_lt(t.index[c].last_key, key)) {
        assert forall|i: int| 0 <= i < c implies keys::key_lt(
            (#[trigger] t.index[i]).last_key,
            key,
        ) by {
            if i < c - 1 {
                assert(keys::key_lt(t.index[i].last_key, t.index[c - 1].last_key));
            }
        }
        assert forall|i: int| c <= i < t.index.len() implies keys::key_le(
            key,
            (#[trigger] t.index[i]).last_key,
        ) by {
            keys::lemma_key_total(key, t.index[c].last_key);
            if i > c {
                assert(keys::key_lt(t.index[c].last_key, t.index[i].last_key));
            }
        }
    }
    if sstable::is_candidate(t, key, c) && c < t.index.len() {
        let last = t.index[c].last_key;
        assert(keys::key_le(key, last));
    }
}

/// A lookup fails only on what it needs: a run that its filter lets it consult, that no newer
/// run answers for, and of that the one block that may hold the key.
pub proof fn law_a_lookup_fails_only_on_what_it_needs<R, C, S>(
    read: R,
    cached: C,
    store: S,
    disk: Map<u64, Seq<u8>>,
    runs: Seq<Arc<SsTable>>,
    key: Seq<u8>,
    error: Error,
) -> (at: (int, int)) where
    R: Fn(u64, u64, usize) -> std::result::Result<Vec<u8>, std::io::Error>,
    C: Fn(crate::cache::BlockKey) -> Option<Arc<crate::cache::DecodedBlock>>,
    S: Fn(crate::cache::BlockKey, Arc<crate::cache::DecodedBlock>),

    requires
        db::search_fault(read, cached, store, disk, runs, key, error),
    ensures
        0 <= at.0 < runs.len(),
        runs[at.0].filtered() matches Some(f) ==> f.admitted().contains(key),
        forall|k: int|
            0 <= k < at.0 ==> model::find(
                sstable::contents((#[trigger] runs[k])@, disk[runs[k].id()]),
                key,
            ) is None,
        sstable::is_candidate(runs[at.0]@, key, at.1),
        0 <= at.1 < runs[at.0]@.index.len(),
        sstable::block_of(runs[at.0]@, disk[runs[at.0].id()], at.1) == Err::<Seq<Entry>, Error>(
            error,
        ) || sstable::read_fault(
            read,
            runs[at.0].id(),
            runs[at.0]@.index[at.1].offset,
            runs[at.0]@.index[at.1].len as usize,
            "read data block",
            error,
        ),
{
    let i = choose|i: int| #[trigger]
        db::asked(runs, disk, key, i) && db::sound_search(runs, disk, key, i) && db::handed_up_to(
            cached,
            store,
            runs,
            disk,
            key,
            i,
        ) && exists|c: int|
            sstable::is_candidate(runs[i]@, key, c) && #[trigger] sstable::block_fault(
                read,
                runs[i].id(),
                runs[i]@,
                disk[runs[i].id()],
                c,
                error,
            );
    let c = choose|c: int|
        sstable::is_candidate(runs[i]@, key, c) && #[trigger] sstable::block_fault(
            read,
            runs[i].id(),
            runs[i]@,
            disk[runs[i].id()],
            c,
            error,
        );
    (i, c)
}

/// A scan fails only on a block that it comes to: every entry before that block in its run is
/// below the first live key behind the range.
pub proof fn law_a_scan_fails_only_on_what_it_comes_to<R>(
    read: R,
    disk: Map<u64, Seq<u8>>,
    sources: Seq<Seq<Entry>>,
    runs: Seq<Arc<SsTable>>,
    range: KeyRange,
    error: Error,
    stop: Seq<u8>,
    n: int,
    m: int,
) -> (at: (int, int)) where R: Fn(u64, u64, usize) -> std::result::Result<Vec<u8>, std::io::Error>
    requires
        db::scan_fault(read, disk, sources, runs, range, error),
        model::visible(sources, stop) is Some,
        !range.before_start(stop),
        range.after_end(stop),
    ensures
        0 <= at.0 < runs.len(),
        0 <= at.1 < runs[at.0]@.index.len(),
        sstable::block_of(runs[at.0]@, disk[runs[at.0].id()], at.1) == Err::<Seq<Entry>, Error>(
            error,
        ) || sstable::read_fault(
            read,
            runs[at.0].id(),
            runs[at.0]@.index[at.1].offset,
            runs[at.0]@.index[at.1].len as usize,
            "read data block",
            error,
        ),
        0 <= n < at.1 && 0 <= m < sstable::block_entries(
            runs[at.0]@,
            disk[runs[at.0].id()],
            n,
        ).len() ==> keys::key_lt(
            sstable::block_entries(runs[at.0]@, disk[runs[at.0].id()], n)[m].0,
            stop,
        ),
{
    let (i, j) = choose|i: int, j: int|
        0 <= i < runs.len() && #[trigger] sstable::block_fault(
            read,
            runs[i].id(),
            runs[i]@,
            disk[runs[i].id()],
            j,
            error,
        ) && db::comes_to(sources, range, runs[i]@, disk[runs[i].id()], j);
    assert(db::stops_at(sources, range, stop));
    (i, j)
}

/// Recording a key in a filter sets one bit per probe, all of them among the filter's bits,
/// and clears none.
pub proof fn law_recording_a_key_sets_single_bits(
    was: Seq<u64>,
    now: Seq<u64>,
    num_bits: u64,
    count: nat,
    more: Seq<u64>,
    at: u64,
) -> (places: Seq<u64>)
    requires
        bloom::marked(was, now, num_bits, count),
    ensures
        places.len() == count,
        forall|i: int| 0 <= i < places.len() ==> #[trigger] places[i] < num_bits,
        now == bloom::with_bits(was, places),
        bloom::with_bits(was, seq![]) == was,
        bloom::with_bits(was, more.push(at)) == ({
            let mid = bloom::with_bits(was, more);
            mid.update((at / 64) as int, mid[(at / 64) as int] | (1u64 << (at % 64)))
        }),
{
    assert(more.push(at).drop_last() =~= more);
    choose|places: Seq<u64>|
        places.len() == count && (forall|i: int|
            0 <= i < places.len() ==> #[trigger] places[i] < num_bits) && now
            == #[trigger] bloom::with_bits(was, places)
}

/// The filter of a run has the dimensions asked for, admits every key of the run, and has no
/// bit set but those of the probes of its keys.
pub proof fn law_filters_are_made_for_their_keys(
    filter: bloom::RunFilter,
    dimensions: Option<(u64, u32)>,
    es: Seq<Entry>,
    i: int,
)
    requires
        crate::flush::sized(Some(filter), dimensions),
        crate::flush::admits_all(Some(filter), es),
        crate::flush::marked_by(Some(filter), es.len()),
    ensures
        dimensions == Some((filter.parts().1, filter.parts().2)),
        0 <= i < es.len() ==> filter.admitted().contains(es[i].0),
        bloom::marked(
            Seq::new(((filter.parts().1 + 63) / 64) as nat, |k: int| 0u64),
            filter.parts().0,
            filter.parts().1,
            es.len() * filter.parts().2 as nat,
        ),
{
    assert(bloom::clear_words(filter.parts().1) =~= Seq::new(
        ((filter.parts().1 + 63) / 64) as nat,
        |k: int| 0u64,
    ));
}

/// A block whose place in the file is within the data, whose bytes match its checksum and
/// decode, and whose keys keep to their place in the run, is read.
pub proof fn law_blocks_that_match_are_read(
    t: Table,
    image: Seq<u8>,
    i: int,
    es: Seq<Entry>,
)
    requires
        0 <= i < t.index.len(),
        8 <= t.index[i].offset,
        t.index[i].offset + t.index[i].len <= t.data_end,
        t.index[i].offset + t.index[i].len <= image.len(),
        checksum::crc32c_of(
            image.subrange(t.index[i].offset as int, t.index[i].offset + t.index[i].len),
        ) == t.index[i].crc,
        block::decoded(
            image.subrange(t.index[i].offset as int, t.index[i].offset + t.index[i].len),
        ) == Ok::<Seq<Entry>, Error>(es),
        es.len() > 0 ==> !keys::key_lt(t.index[i].last_key, es.last().0),
        es.len() > 0 && i > 0 ==> keys::key_lt(t.index[i - 1].last_key, es[0].0),
    ensures
        sstable::block_of(t, image, i) == Ok::<Seq<Entry>, Error>(es),
{
}

/// A file with a footer whose index lies right before it, matches its checksum and decodes,
/// opens.
pub proof fn law_files_that_match_open(image: Seq<u8>, f: index::Footer, hs: Seq<Handle>)
    requires
        image.len() >= 44,
        image.subrange(image.len() - 36, image.len() as int) == index::encode_footer(f),
        f.index_offset >= 8,
        f.index_offset + f.index_len + 36 == image.len(),
        f.index_len <= usize::MAX,
        checksum::crc32c_of(image.subrange(f.index_offset as int, image.len() - 36))
            == f.index_crc,
        index::index_of(image.subrange(f.index_offset as int, image.len() - 36)) == Ok::<
            Seq<Handle>,
            Error,
        >(hs),
    ensures
        sstable::opened(image) == Ok::<Table, Error>(
            Table { index: hs, data_end: f.index_offset, entry_count: f.entry_count },
        ),
{
    index::lemma_footer_roundtrip(f);
}

/// The payload of a sidecar is used as the filter that it begins with, if that one can be
/// probed.
pub proof fn law_payloads_are_used_as_their_filter(payload: Seq<u8>)
    ensures
        bloom::loaded(payload) == (match crate::sidecar::filter_at(payload) {
            Some(parts) => if bloom::probeable(parts) {
                Some(parts)
            } else {
                None
            },
            None => None,
        }),
{
}

/// A merge of runs fails only on one of their blocks: with what is wrong with it, or with what
/// reading it failed with.
pub proof fn law_a_merge_fails_only_on_its_runs<R>(
    read: R,
    disk: Map<u64, Seq<u8>>,
    runs: Seq<Arc<SsTable>>,
    error: Error,
) -> (at: (int, int)) where R: Fn(u64, u64, usize) -> std::result::Result<Vec<u8>, std::io::Error>
    requires
        db::some_fault(read, disk, runs, error),
    ensures
        0 <= at.0 < runs.len(),
        0 <= at.1 < runs[at.0]@.index.len(),
        sstable::block_of(runs[at.0]@, disk[runs[at.0].id()], at.1) == Err::<Seq<Entry>, Error>(
            error,
        ) || sstable::read_fault(
            read,
            runs[at.0].id(),
            runs[at.0]@.index[at.1].offset,
            runs[at.0]@.index[at.1].len as usize,
            "read data block",
            error,
        ),
{
    let i = choose|i: int|
        0 <= i < runs.len() && merge::run_fault(read, disk, *#[trigger] runs[i], error);
    let c = choose|c: int| #[trigger]
        sstable::block_fault(read, runs[i].id(), runs[i]@, disk[runs[i].id()], c, error);
    (i, c)
}

} // verus!
