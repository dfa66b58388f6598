//! How the entries of a run are laid out in a file.
//!
//! Entries go into a block until the next one would make it exceed the target size; an
//! entry larger than the target is a block of its own. The blocks follow the magic, the
//! index follows the blocks, and the footer closes the file.
use vstd::prelude::*;
use crate::block;
use crate::checksum;
use crate::codec;
use crate::codec::MAX_RECORD_LEN;
use crate::error::Error;
use crate::index;
use crate::index::{Footer, Handle, MAGIC_LEN};
use crate::keys;
use crate::model;
use crate::record;
use crate::record::Entry;
use crate::sstable;
use crate::sstable::Table;

verus! {

/// The size a data block is filled up to.
pub const TARGET_BLOCK_SIZE: usize = 4096;

/// Entries divided into blocks: those that are complete, and the one being filled.
pub struct Layout {
    /// The complete blocks, in order.
    pub closed: Seq<Seq<Entry>>,
    /// The block being filled.
    pub open: Seq<Entry>,
}

/// The open block has to be closed before `e`, because `e` would make it exceed the
/// target size.
pub open spec fn closes(open: Seq<Entry>, e: Entry) -> bool {
    open.len() > 0 && codec::encode_entries(open).len() + codec::encode_entry(e).len()
        > TARGET_BLOCK_SIZE
}

/// How a writer has divided the entries it was given so far.
pub open spec fn layout(es: Seq<Entry>) -> Layout
    decreases es.len(),
{
    if es.len() == 0 {
        Layout { closed: seq![], open: seq![] }
    } else {
        let before = layout(es.drop_last());
        let e = es.last();
        if closes(before.open, e) {
            Layout { closed: before.closed.push(before.open), open: seq![e] }
        } else {
            Layout { closed: before.closed, open: before.open.push(e) }
        }
    }
}

/// The blocks of a finished run.
pub open spec fn blocks_of(es: Seq<Entry>) -> Seq<Seq<Entry>> {
    let l = layout(es);
    if l.open.len() == 0 {
        l.closed
    } else {
        l.closed.push(l.open)
    }
}

/// The entries of a sequence of blocks, joined.
pub open spec fn flat(bs: Seq<Seq<Entry>>) -> Seq<Entry>
    decreases bs.len(),
{
    if bs.len() == 0 {
        seq![]
    } else {
        flat(bs.drop_last()) + bs.last()
    }
}

/// The bytes of a sequence of blocks, joined.
pub open spec fn data_bytes(bs: Seq<Seq<Entry>>) -> Seq<u8>
    decreases bs.len(),
{
    if bs.len() == 0 {
        seq![]
    } else {
        data_bytes(bs.drop_last()) + codec::encode_entries(bs.last())
    }
}

/// The index record of block `k`.
pub open spec fn handle_for(bs: Seq<Seq<Entry>>, k: int) -> Handle {
    let bytes = codec::encode_entries(bs[k]);
    Handle {
        last_key: bs[k].last().0,
        offset: (MAGIC_LEN + data_bytes(bs.take(k)).len()) as u64,
        len: bytes.len() as u32,
        crc: checksum::crc32c_of(bytes),
    }
}

/// The index of a sequence of blocks.
pub open spec fn index_for(bs: Seq<Seq<Entry>>) -> Seq<Handle> {
    Seq::new(bs.len(), |k: int| handle_for(bs, k))
}

/// The footer of a run of `count` entries in these blocks.
pub open spec fn footer_for(bs: Seq<Seq<Entry>>, count: nat) -> Footer {
    let index_bytes = index::encode_index(index_for(bs));
    Footer {
        entry_count: count as u64,
        index_offset: (MAGIC_LEN + data_bytes(bs).len()) as u64,
        index_len: index_bytes.len() as u64,
        index_crc: checksum::crc32c_of(index_bytes),
    }
}

/// The file of a run that holds these entries.
pub open spec fn run_bytes(es: Seq<Entry>) -> Seq<u8> {
    let bs = blocks_of(es);
    index::magic() + data_bytes(bs) + index::encode_index(index_for(bs)) + index::encode_footer(
        footer_for(bs, es.len()),
    )
}

/// The bytes a writer has handed out after these entries: the magic and the complete
/// blocks.
pub open spec fn written(es: Seq<Entry>) -> Seq<u8> {
    index::magic() + data_bytes(layout(es).closed)
}

/// The bytes a writer hands out when `e` follows `es`.
pub open spec fn flushed(es: Seq<Entry>, e: Entry) -> Seq<u8> {
    if closes(layout(es).open, e) {
        codec::encode_entries(layout(es).open)
    } else {
        seq![]
    }
}

/// The bytes a writer hands out to finish a run: the last block, the index, the footer.
pub open spec fn tail(es: Seq<Entry>) -> Seq<u8> {
    let bs = blocks_of(es);
    codec::encode_entries(layout(es).open) + index::encode_index(index_for(bs))
        + index::encode_footer(footer_for(bs, es.len()))
}

/// A block is within the target size, or holds a single entry.
pub open spec fn sized(b: Seq<Entry>) -> bool {
    b.len() == 1 || codec::encode_entries(b).len() <= TARGET_BLOCK_SIZE
}

/// What a writer hands out entry by entry adds up.
pub proof fn lemma_written_push(es: Seq<Entry>, e: Entry)
    ensures
        written(es.push(e)) == written(es) + flushed(es, e),
{
    assert(es.push(e).drop_last() =~= es);
    let l = layout(es);
    if closes(l.open, e) {
        assert(l.closed.push(l.open).drop_last() =~= l.closed);
        assert(written(es.push(e)) =~= written(es) + flushed(es, e));
    } else {
        assert(written(es.push(e)) =~= written(es) + flushed(es, e));
    }
}

/// What a writer hands out in all is the run's file.
pub proof fn lemma_written_tail(es: Seq<Entry>)
    ensures
        written(es) + tail(es) == run_bytes(es),
{
    let l = layout(es);
    let bs = blocks_of(es);
    if l.open.len() == 0 {
        assert(codec::encode_entries(l.open) =~= seq![]);
    } else {
        assert(bs.drop_last() =~= l.closed);
        assert(bs.last() == l.open);
    }
    assert(written(es) + tail(es) =~= run_bytes(es));
}

/// An encoded entry takes at least nine bytes, and at most nine more than its key and
/// value.
pub proof fn lemma_entry_size(e: Entry)
    ensures
        codec::encode_entry(e).len() == 9 + e.0.len() + record::value_size(e.1),
{
    codec::lemma_le4_roundtrip(codec::len_prefix(e.0.len()));
    codec::lemma_le4_roundtrip(codec::len_prefix(record::value_size(e.1)));
    codec::lemma_le4_roundtrip(0);
}

/// An encoded block takes at least nine bytes per entry.
pub proof fn lemma_entries_size(es: Seq<Entry>)
    ensures
        codec::encode_entries(es).len() >= 9 * es.len(),
    decreases es.len(),
{
    if es.len() > 0 {
        lemma_entries_size(es.drop_last());
        lemma_entry_size(es.last());
    }
}

/// The blocks of a layout hold the entries in order, none of the complete ones is
/// empty, and each is within the target size or holds a single entry.
pub proof fn lemma_layout(es: Seq<Entry>)
    ensures
        flat(layout(es).closed) + layout(es).open == es,
        es.len() > 0 ==> layout(es).open.len() > 0,
        sized(layout(es).open),
        forall|k: int|
            0 <= k < layout(es).closed.len() ==> (#[trigger] layout(es).closed[k]).len() > 0
                && sized(layout(es).closed[k]),
        data_bytes(layout(es).closed).len() + codec::encode_entries(layout(es).open).len() >= 9
            * es.len(),
    decreases es.len(),
{
    let l = layout(es);
    if es.len() == 0 {
        assert(flat(l.closed) + l.open =~= es);
    } else {
        let before = layout(es.drop_last());
        let e = es.last();
        lemma_layout(es.drop_last());
        lemma_entry_size(e);
        reveal_with_fuel(codec::encode_entries, 2);
        if closes(before.open, e) {
            assert(l.closed.drop_last() =~= before.closed);
            assert(seq![e].drop_last() =~= seq![]);
            assert(flat(l.closed) + l.open =~= (flat(before.closed) + before.open).push(e));
        } else {
            assert(before.open.push(e).drop_last() =~= before.open);
            assert(flat(l.closed) + l.open =~= (flat(before.closed) + before.open).push(e));
        }
        assert(es.drop_last().push(e) =~= es);
    }
}

/// The blocks of a finished run hold its entries in order; none is empty, and each is
/// within the target size or holds a single entry.
pub proof fn lemma_blocks(es: Seq<Entry>)
    ensures
        flat(blocks_of(es)) == es,
        forall|k: int|
            0 <= k < blocks_of(es).len() ==> (#[trigger] blocks_of(es)[k]).len() > 0 && sized(
                blocks_of(es)[k],
            ),
{
    lemma_layout(es);
    let l = layout(es);
    let bs = blocks_of(es);
    if l.open.len() == 0 {
        assert(flat(l.closed) + l.open =~= flat(l.closed));
    } else {
        assert(bs.drop_last() =~= l.closed);
    }
}

/// The blocks hold the bytes of the entries, one after the other.
pub proof fn lemma_blocks_join(es: Seq<Entry>)
    ensures
        data_bytes(layout(es).closed) + codec::encode_entries(layout(es).open)
            == codec::encode_entries(es),
        data_bytes(blocks_of(es)) == codec::encode_entries(es),
    decreases es.len(),
{
    let l = layout(es);
    if es.len() == 0 {
        assert(data_bytes(l.closed) + codec::encode_entries(l.open) =~= codec::encode_entries(es));
    } else {
        let before = layout(es.drop_last());
        let e = es.last();
        lemma_blocks_join(es.drop_last());
        if closes(before.open, e) {
            assert(l.closed.drop_last() =~= before.closed);
            assert(seq![e].drop_last() =~= seq![]);
            reveal_with_fuel(codec::encode_entries, 2);
            assert(data_bytes(l.closed) + codec::encode_entries(l.open) =~= codec::encode_entries(
                es,
            ));
        } else {
            assert(before.open.push(e).drop_last() =~= before.open);
            assert(data_bytes(l.closed) + codec::encode_entries(l.open) =~= codec::encode_entries(
                es,
            ));
        }
    }
    if l.open.len() > 0 {
        assert(blocks_of(es).drop_last() =~= l.closed);
    } else {
        assert(data_bytes(l.closed) + codec::encode_entries(l.open) =~= data_bytes(l.closed));
    }
}

/// A block is complete only because the first entry of the next one would make it exceed
/// the target size.
proof fn lemma_closed_when_full(es: Seq<Entry>)
    ensures
        ({
            let l = layout(es);
            forall|k: int|
                0 <= k < l.closed.len() ==> codec::encode_entries(#[trigger] l.closed[k]).len()
                    + codec::encode_entry(
                    if k + 1 < l.closed.len() {
                        l.closed[k + 1][0]
                    } else {
                        l.open[0]
                    },
                ).len() > 4096
        }),
    decreases es.len(),
{
    if es.len() > 0 {
        let before = layout(es.drop_last());
        let e = es.last();
        let l = layout(es);
        lemma_layout(es.drop_last());
        lemma_closed_when_full(es.drop_last());
        assert forall|k: int| 0 <= k < l.closed.len() implies codec::encode_entries(
            #[trigger] l.closed[k],
        ).len() + codec::encode_entry(
            if k + 1 < l.closed.len() {
                l.closed[k + 1][0]
            } else {
                l.open[0]
            },
        ).len() > 4096 by {
            if k < before.closed.len() {
                assert(l.closed[k] == before.closed[k]);
                if k + 1 < before.closed.len() {
                    assert(l.closed[k + 1] == before.closed[k + 1]);
                } else if es.drop_last().len() == 0 {
                    assert(before.closed.len() == 0);
                }
            }
        }
    }
}

/// A block holds as many entries as fit the target size of 4096 bytes, and at least one: no
/// more, unless a single entry is larger, and no fewer, unless the run ends.
pub proof fn law_blocks_are_filled_up_to_the_target(es: Seq<Entry>, k: int)
    requires
        0 <= k < blocks_of(es).len(),
    ensures
        blocks_of(es)[k].len() > 0,
        blocks_of(es)[k].len() > 1 ==> codec::encode_entries(blocks_of(es)[k]).len() <= 4096,
        k + 1 < blocks_of(es).len() ==> codec::encode_entries(blocks_of(es)[k]).len()
            + codec::encode_entry(blocks_of(es)[k + 1][0]).len() > 4096,
{
    lemma_blocks(es);
    lemma_layout(es);
    lemma_closed_when_full(es);
    let l = layout(es);
    let b = blocks_of(es)[k];
    if k + 1 < blocks_of(es).len() {
        assert(b == l.closed[k]);
    }
}

/// Joining two sequences of blocks joins their entries and their bytes.
pub proof fn lemma_join(a: Seq<Seq<Entry>>, b: Seq<Seq<Entry>>)
    ensures
        flat(a + b) == flat(a) + flat(b),
        data_bytes(a + b) == data_bytes(a) + data_bytes(b),
    decreases b.len(),
{
    if b.len() == 0 {
        assert(a + b =~= a);
        assert(flat(a) + flat(b) =~= flat(a));
        assert(data_bytes(a) + data_bytes(b) =~= data_bytes(a));
    } else {
        assert((a + b).drop_last() =~= a + b.drop_last());
        assert((a + b).last() == b.last());
        lemma_join(a, b.drop_last());
        assert(flat(a + b) =~= flat(a) + flat(b));
        assert(data_bytes(a + b) =~= data_bytes(a) + data_bytes(b));
    }
}

/// Block `k` stands in the joined entries and the joined bytes after the blocks before it.
proof fn lemma_block_at(bs: Seq<Seq<Entry>>, k: int)
    requires
        0 <= k < bs.len(),
    ensures
        ({
            let from = flat(bs.take(k)).len() as int;
            let start = data_bytes(bs.take(k)).len() as int;
            let bytes = codec::encode_entries(bs[k]);
            &&& from + bs[k].len() <= flat(bs).len()
            &&& flat(bs).subrange(from, from + bs[k].len()) == bs[k]
            &&& flat(bs.take(k + 1)).len() == from + bs[k].len()
            &&& start + bytes.len() <= data_bytes(bs).len()
            &&& data_bytes(bs).subrange(start, start + bytes.len()) == bytes
        }),
{
    let t = bs.take(k + 1);
    assert(t.drop_last() =~= bs.take(k));
    assert(t.last() == bs[k]);
    assert(t + bs.skip(k + 1) =~= bs);
    lemma_join(t, bs.skip(k + 1));
    let from = flat(bs.take(k)).len() as int;
    let start = data_bytes(bs.take(k)).len() as int;
    let bytes = codec::encode_entries(bs[k]);
    assert(flat(bs).subrange(from, from + bs[k].len()) =~= bs[k]);
    assert(data_bytes(bs).subrange(start, start + bytes.len()) =~= bytes);
}

/// A block of entries within the length cap, of a size the writer makes, has a length
/// that fits its prefix.
pub proof fn lemma_block_len(b: Seq<Entry>)
    requires
        sized(b),
        block::all_fit(b),
    ensures
        codec::encode_entries(b).len() <= u32::MAX,
{
    if b.len() == 1 {
        reveal_with_fuel(codec::encode_entries, 2);
        lemma_entry_size(b[0]);
        assert(b.drop_last() =~= seq![]);
    }
}

/// The last keys of the blocks ascend, and each block starts above the one before it.
proof fn lemma_blocks_ascending(bs: Seq<Seq<Entry>>)
    requires
        model::ascending(flat(bs)),
        block::all_fit(flat(bs)),
        forall|k: int| 0 <= k < bs.len() ==> (#[trigger] bs[k]).len() > 0,
    ensures
        forall|k: int|
            0 <= k < bs.len() ==> model::ascending(#[trigger] bs[k]) && block::all_fit(bs[k]),
        forall|j: int, k: int|
            #![trigger bs[j], bs[k]]
            0 <= j < k < bs.len() ==> keys::key_lt(bs[j].last().0, bs[k][0].0) && keys::key_lt(
                bs[j].last().0,
                bs[k].last().0,
            ),
{
    let es = flat(bs);
    assert forall|k: int| 0 <= k < bs.len() implies model::ascending(#[trigger] bs[k])
        && block::all_fit(bs[k]) by {
        lemma_block_at(bs, k);
        let from = flat(bs.take(k)).len() as int;
        let b = es.subrange(from, from + bs[k].len());
        assert forall|p: int, q: int| #![trigger bs[k][p], bs[k][q]]
            0 <= p < q < bs[k].len() implies keys::key_lt(bs[k][p].0, bs[k][q].0) by {
            assert(b[p] == es[from + p] && b[q] == es[from + q]);
        }
        assert forall|p: int| 0 <= p < bs[k].len() implies codec::entry_fits(
            #[trigger] bs[k][p],
        ) by {
            assert(b[p] == es[from + p]);
        }
    }
    assert forall|j: int, k: int| #![trigger bs[j], bs[k]]
        0 <= j < k < bs.len() implies keys::key_lt(bs[j].last().0, bs[k][0].0) && keys::key_lt(
        bs[j].last().0,
        bs[k].last().0,
    ) by {
        lemma_block_at(bs, j);
        lemma_block_at(bs, k);
        let fj = flat(bs.take(j)).len() as int;
        let fk = flat(bs.take(k)).len() as int;
        assert(bs.take(j + 1) + bs.subrange(j + 1, k) =~= bs.take(k));
        lemma_join(bs.take(j + 1), bs.subrange(j + 1, k));
        let nj = bs[j].len() as int;
        let nk = bs[k].len() as int;
        assert(fj + nj <= fk);
        assert(bs[j].last() == es.subrange(fj, fj + nj)[nj - 1]);
        assert(bs[j].last() == es[fj + nj - 1]);
        assert(bs[k][0] == es.subrange(fk, fk + nk)[0]);
        assert(bs[k][0] == es[fk]);
        assert(bs[k].last() == es.subrange(fk, fk + nk)[nk - 1]);
        assert(bs[k].last() == es[fk + nk - 1]);
    }
}

/// The last key of a block is within the length cap.
pub proof fn lemma_last_key_fits(es: Seq<Entry>, k: int)
    requires
        model::ascending(es),
        block::all_fit(es),
        0 <= k < blocks_of(es).len(),
    ensures
        blocks_of(es)[k].last().0.len() <= MAX_RECORD_LEN,
{
    lemma_blocks(es);
    lemma_blocks_ascending(blocks_of(es));
    let b = blocks_of(es)[k];
    assert(block::all_fit(b));
    assert(codec::entry_fits(b[b.len() - 1]));
}

/// The table that a finished run opens to.
pub open spec fn table_for(es: Seq<Entry>) -> Table {
    let bs = blocks_of(es);
    Table {
        index: index_for(bs),
        data_end: (MAGIC_LEN + data_bytes(bs).len()) as u64,
        entry_count: es.len() as u64,
    }
}

/// A finished run opens, and the index that is read is the one that was written.
proof fn lemma_run_opens(es: Seq<Entry>)
    requires
        model::ascending(es),
        block::all_fit(es),
        run_bytes(es).len() <= u64::MAX,
        index::encode_index(index_for(blocks_of(es))).len() <= usize::MAX,
    ensures
        sstable::opened(run_bytes(es)) == Ok::<Table, Error>(table_for(es)),
        sstable::table_ok(table_for(es)),
{
    let bs = blocks_of(es);
    let image = run_bytes(es);
    let n = image.len() as int;
    let data = data_bytes(bs);
    let hs = index_for(bs);
    let ib = index::encode_index(hs);
    let f = footer_for(bs, es.len());
    let fb = index::encode_footer(f);
    lemma_blocks(es);
    lemma_layout(es);
    index::lemma_footer_roundtrip(f);
    lemma_blocks_ascending(bs);
    assert(n == 8 + data.len() + ib.len() + 36);
    assert(image.subrange(n - 36, n) =~= fb);
    assert(image.subrange(8 + data.len() as int, (8 + data.len() + ib.len()) as int) =~= ib);
    assert(index::handles_ascending(hs)) by {
        assert forall|i: int, j: int| #![trigger hs[i], hs[j]]
            0 <= i < j < hs.len() implies keys::key_lt(hs[i].last_key, hs[j].last_key) by {
            assert(keys::key_lt(bs[i].last().0, bs[j].last().0));
        }
    }
    assert forall|i: int| 0 <= i < hs.len() implies (#[trigger] hs[i]).last_key.len()
        <= MAX_RECORD_LEN by {
        assert(block::all_fit(bs[i]));
        let last = bs[i].len() - 1;
        assert(codec::entry_fits(bs[i][last]));
    }
    index::lemma_index_roundtrip(hs);
    if layout(es).open.len() == 0 {
        assert(codec::encode_entries(layout(es).open) =~= seq![]);
    } else {
        assert(bs.drop_last() =~= layout(es).closed);
    }
    assert(data.len() >= 9 * es.len());
}

/// Every block of a finished run reads back.
proof fn lemma_run_block(es: Seq<Entry>, k: int)
    requires
        model::ascending(es),
        block::all_fit(es),
        run_bytes(es).len() <= u64::MAX,
        0 <= k < blocks_of(es).len(),
    ensures
        sstable::block_of(table_for(es), run_bytes(es), k) == Ok::<Seq<Entry>, Error>(
            blocks_of(es)[k],
        ),
{
    let bs = blocks_of(es);
    let image = run_bytes(es);
    let data = data_bytes(bs);
    let bytes = codec::encode_entries(bs[k]);
    let start = data_bytes(bs.take(k)).len() as int;
    let t = table_for(es);
    let h = t.index[k];
    lemma_blocks(es);
    lemma_blocks_ascending(bs);
    lemma_block_at(bs, k);
    lemma_block_len(bs[k]);
    index::lemma_footer_roundtrip(footer_for(bs, es.len()));
    assert(image.subrange(8 + start, 8 + start + bytes.len()) =~= data.subrange(
        start,
        start + bytes.len(),
    ));
    assert(h.offset == 8 + start);
    assert(h.len == bytes.len());
    block::lemma_block_roundtrip(bs[k]);
    keys::lemma_key_irreflexive(bs[k].last().0);
    if k > 0 {
        assert(keys::key_lt(bs[k - 1].last().0, bs[k][0].0));
    }
}

/// The index of a finished run says of every block where it lies, how long it is, what its
/// checksum is and which key is its last.
pub proof fn lemma_written_block(es: Seq<Entry>, k: int)
    requires
        model::ascending(es),
        block::all_fit(es),
        run_bytes(es).len() <= u64::MAX,
        0 <= k < blocks_of(es).len(),
    ensures
        ({
            let b = blocks_of(es)[k];
            let bytes = codec::encode_entries(b);
            let h = table_for(es).index[k];
            &&& h.offset == 8 + data_bytes(blocks_of(es).take(k)).len()
            &&& h.len == bytes.len()
            &&& h.crc == checksum::crc32c_of(bytes)
            &&& h.last_key == b.last().0
            &&& h.offset + h.len <= table_for(es).data_end <= run_bytes(es).len()
            &&& run_bytes(es).subrange(h.offset as int, h.offset + h.len) == bytes
        }),
{
    let bs = blocks_of(es);
    let start = data_bytes(bs.take(k)).len() as int;
    let bytes = codec::encode_entries(bs[k]);
    lemma_blocks(es);
    lemma_blocks_ascending(bs);
    lemma_block_at(bs, k);
    lemma_block_len(bs[k]);
    index::lemma_footer_roundtrip(footer_for(bs, es.len()));
    assert(run_bytes(es).subrange(8 + start, 8 + start + bytes.len()) =~= data_bytes(bs).subrange(
        start,
        start + bytes.len(),
    ));
}

/// The contents read from a finished run, block by block.
proof fn lemma_run_entries(es: Seq<Entry>, k: int)
    requires
        model::ascending(es),
        block::all_fit(es),
        run_bytes(es).len() <= u64::MAX,
        0 <= k <= blocks_of(es).len(),
    ensures
        sstable::entries_from(table_for(es), run_bytes(es), k) == flat(blocks_of(es).skip(k)),
    decreases blocks_of(es).len() - k,
{
    let bs = blocks_of(es);
    if k == bs.len() {
        assert(bs.skip(k) =~= seq![]);
    } else {
        lemma_run_block(es, k);
        lemma_run_entries(es, k + 1);
        assert(bs.skip(k) =~= seq![bs[k]] + bs.skip(k + 1));
        lemma_join(seq![bs[k]], bs.skip(k + 1));
        reveal_with_fuel(flat, 2);
        assert(seq![bs[k]].drop_last() =~= seq![]);
        assert(flat(seq![bs[k]]) =~= bs[k]);
    }
}

/// The index of a run is no longer than the run.
pub proof fn lemma_index_within(es: Seq<Entry>)
    ensures
        index::encode_index(index_for(blocks_of(es))).len() <= run_bytes(es).len(),
{
}

/// What is written to a run is read back from it: the file of ascending entries opens,
/// every block of it is intact, and its contents are those entries.
pub proof fn lemma_run_roundtrip(es: Seq<Entry>)
    requires
        model::ascending(es),
        block::all_fit(es),
        run_bytes(es).len() <= u64::MAX,
        index::encode_index(index_for(blocks_of(es))).len() <= usize::MAX,
    ensures
        sstable::opened(run_bytes(es)) == Ok::<Table, Error>(table_for(es)),
        sstable::table_ok(table_for(es)),
        sstable::intact(table_for(es), run_bytes(es)),
        sstable::contents(table_for(es), run_bytes(es)) == es,
        table_for(es).entry_count == es.len(),
{
    lemma_run_opens(es);
    lemma_run_entries(es, 0);
    lemma_blocks(es);
    assert(blocks_of(es).skip(0) =~= blocks_of(es));
    assert forall|i: int| 0 <= i < table_for(es).index.len() implies #[trigger] sstable::block_of(
        table_for(es),
        run_bytes(es),
        i,
    ) is Ok by {
        lemma_run_block(es, i);
    }
    lemma_layout(es);
    index::lemma_footer_roundtrip(footer_for(blocks_of(es), es.len()));
    let l = layout(es);
    if l.open.len() == 0 {
        assert(codec::encode_entries(l.open) =~= seq![]);
    } else {
        assert(blocks_of(es).drop_last() =~= l.closed);
    }
}

} // verus!
