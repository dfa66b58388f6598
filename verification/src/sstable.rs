//! Immutable sorted runs.
//!
//! A run file is the magic, the data blocks, the index block and the footer. Opening a
//! run reads its footer and index; data blocks are read one at a time, on demand, and
//! each is checked against the index before any of it is used.
use std::sync::Arc;
use vstd::prelude::*;
use crate::block;
use crate::bloom::RunFilter;
use crate::cache::{BlockKey, DecodedBlock};
use crate::checksum;
use crate::error::{Error, Result};
use crate::index;
use crate::index::{BlockHandle, Handle, FOOTER_LEN, MAGIC_LEN};
use crate::keys;
use crate::model;
use crate::record;
use crate::record::{Entry, Item, Record};

verus! {

/// What the footer and the index say of a run.
pub struct Table {
    /// The handles of the data blocks.
    pub index: Seq<Handle>,
    /// Where the data blocks end.
    pub data_end: u64,
    /// The number of entries recorded in the footer.
    pub entry_count: u64,
}

/// Every successful read of run `run` returns exactly the requested bytes of `image`.
pub open spec fn reads_image<R>(read: R, run: u64, image: Seq<u8>) -> bool where
    R: Fn(u64, u64, usize) -> std::result::Result<Vec<u8>, std::io::Error>,
 {
    forall|offset: u64, len: usize, bytes: Vec<u8>|
        #[trigger] call_ensures(
            read,
            (run, offset, len),
            Ok::<Vec<u8>, std::io::Error>(bytes),
        ) ==> offset + len <= image.len() && bytes@ == image.subrange(offset as int, offset + len)
}

/// `error` is what a failed read of `len` bytes at `offset` of run `run` is reported as:
/// the operating system's error with its context, or a corruption error where fewer or
/// more bytes came back than were asked for.
pub open spec fn read_fault<R>(
    read: R,
    run: u64,
    offset: u64,
    len: usize,
    context: &'static str,
    error: Error,
) -> bool where R: Fn(u64, u64, usize) -> std::result::Result<Vec<u8>, std::io::Error> {
    ||| exists|source: std::io::Error|
        #[trigger] call_ensures(read, (run, offset, len), Err::<Vec<u8>, std::io::Error>(source))
            && error == (Error::Io { context, source })
    ||| exists|bytes: Vec<u8>|
        #[trigger] call_ensures(read, (run, offset, len), Ok::<Vec<u8>, std::io::Error>(bytes))
            && bytes@.len() != len && error == (Error::Corruption {
            reason: "short read of sorted run",
        })
}

/// The read function can be called for data block `i` of run `run`.
pub open spec fn readable<R>(read: R, run: u64, t: Table, i: int) -> bool where
    R: Fn(u64, u64, usize) -> std::result::Result<Vec<u8>, std::io::Error>,
 {
    call_requires(read, (run, t.index[i].offset, t.index[i].len as usize))
}

/// The read function can be called on anything.
pub open spec fn total<R>(read: R) -> bool where
    R: Fn(u64, u64, usize) -> std::result::Result<Vec<u8>, std::io::Error>,
 {
    forall|run: u64, offset: u64, len: usize| call_requires(read, (run, offset, len))
}

/// Reads exactly `len` bytes at `offset` of run `run`.
fn read_exact<R>(read: &R, run: u64, offset: u64, len: usize, context: &'static str) -> (bytes:
    Result<Vec<u8>>) where
    R: Fn(u64, u64, usize) -> std::result::Result<Vec<u8>, std::io::Error>,

    requires
        call_requires(*read, (run, offset, len)),
    ensures
        match bytes {
            Ok(b) => b@.len() == len && call_ensures(
                *read,
                (run, offset, len),
                Ok::<Vec<u8>, std::io::Error>(b),
            ),
            Err(e) => read_fault(*read, run, offset, len, context, e),
        },
{
    match read(run, offset, len) {
        Ok(bytes) => {
            if bytes.len() != len {
                return Err(Error::corruption("short read of sorted run"));
            }
            Ok(bytes)
        },
        Err(source) => Err(Error::io(context, source)),
    }
}

/// What opening a run file with these bytes gives: the table, or the first fault.
pub open spec fn opened(image: Seq<u8>) -> Result<Table> {
    let n = image.len() as int;
    if n < MAGIC_LEN + FOOTER_LEN {
        Err(Error::Corruption { reason: "file shorter than header and footer" })
    } else {
        match index::footer_of(n, image.subrange(n - FOOTER_LEN, n)) {
            Err(e) => Err(e),
            Ok(f) => if f.index_len > usize::MAX {
                Err(Error::Corruption { reason: "length exceeds platform usize" })
            } else {
                table_in(f, image.subrange(f.index_offset as int, f.index_offset + f.index_len))
            },
        }
    }
}

/// The table of a run with this footer and these bytes as its index, or the fault in them.
pub open spec fn table_in(f: index::Footer, bytes: Seq<u8>) -> Result<Table> {
    if checksum::crc32c_of(bytes) != f.index_crc {
        Err(Error::Corruption { reason: "index checksum mismatch" })
    } else {
        match index::index_of(bytes) {
            Err(e) => Err(e),
            Ok(hs) => Ok(
                Table { index: hs, data_end: f.index_offset, entry_count: f.entry_count },
            ),
        }
    }
}

/// `result` is what opening run `run`, a file of `file_len` bytes, comes to by what `read`
/// gives: its footer is read first, and then the index that the footer points to.
pub open spec fn opens_to<R>(read: R, run: u64, file_len: u64, result: Result<Table>) -> bool where
    R: Fn(u64, u64, usize) -> std::result::Result<Vec<u8>, std::io::Error>,
 {
    if file_len < MAGIC_LEN + FOOTER_LEN {
        result == Err::<Table, Error>(
            Error::Corruption { reason: "file shorter than header and footer" },
        )
    } else {
        let offset = (file_len - FOOTER_LEN) as u64;
        let len = FOOTER_LEN as usize;
        ||| result is Err && read_fault(
            read,
            run,
            offset,
            len,
            "read run footer",
            result->Err_0,
        )
        ||| exists|bytes: Vec<u8>| #[trigger]
            call_ensures(read, (run, offset, len), Ok::<Vec<u8>, std::io::Error>(bytes))
                && bytes@.len() == len && indexed_to(
                read,
                run,
                index::footer_of(file_len as int, bytes@),
                result,
            )
    }
}

/// `result` is what opening a run comes to, once its footer is read.
pub open spec fn indexed_to<R>(
    read: R,
    run: u64,
    footer: Result<index::Footer>,
    result: Result<Table>,
) -> bool where R: Fn(u64, u64, usize) -> std::result::Result<Vec<u8>, std::io::Error> {
    match footer {
        Err(e) => result == Err::<Table, Error>(e),
        Ok(f) => if f.index_len > usize::MAX {
            result == Err::<Table, Error>(
                Error::Corruption { reason: "length exceeds platform usize" },
            )
        } else {
            let len = f.index_len as usize;
            ||| result is Err && read_fault(
                read,
                run,
                f.index_offset,
                len,
                "read run index",
                result->Err_0,
            )
            ||| exists|bytes: Vec<u8>| #[trigger]
                call_ensures(
                    read,
                    (run, f.index_offset, len),
                    Ok::<Vec<u8>, std::io::Error>(bytes),
                ) && bytes@.len() == len && result == table_in(f, bytes@)
        },
    }
}

/// Run `run`, a file of `file_len` bytes, opened by what `read` gives.
pub open spec fn opens<R>(read: R, run: u64, file_len: u64) -> bool where
    R: Fn(u64, u64, usize) -> std::result::Result<Vec<u8>, std::io::Error>,
 {
    exists|t: Table| #[trigger] opens_to(read, run, file_len, Ok(t))
}

/// The table's index is in strictly ascending order, as opening a run ensures.
pub open spec fn table_ok(t: Table) -> bool {
    index::handles_ascending(t.index)
}

/// The extent of data block `i`, or the fault: it has to lie between the header and the
/// index.
pub open spec fn block_extent(t: Table, i: int) -> Result<(u64, u32)> {
    let h = t.index[i];
    if h.offset < MAGIC_LEN || h.offset + h.len > t.data_end {
        Err(Error::Corruption { reason: "data block extent out of range" })
    } else {
        Ok((h.offset, h.len))
    }
}

/// The entries of data block `i` when its bytes are `bytes`, or the first fault: the
/// checksum has to match, the block has to decode, and its keys have to lie above the
/// index key of the block before and not above its own. Keys ascend throughout a run, and
/// an index key is the largest key of its block, so that a block on its own is held to the
/// order of the whole run by the index keys on either side of it.
pub open spec fn checked_block(t: Table, i: int, bytes: Seq<u8>) -> Result<Seq<Entry>> {
    if checksum::crc32c_of(bytes) != t.index[i].crc {
        Err(Error::Corruption { reason: "data block checksum mismatch" })
    } else {
        match block::decoded(bytes) {
            Err(e) => Err(e),
            Ok(es) => if es.len() > 0 && keys::key_lt(t.index[i].last_key, es.last().0) {
                Err(Error::Corruption { reason: "data block key above its index key" })
            } else if es.len() > 0 && i > 0 && !keys::key_lt(t.index[i - 1].last_key, es[0].0) {
                Err(Error::Corruption { reason: "data block keys not strictly increasing" })
            } else {
                Ok(es)
            },
        }
    }
}

/// The entries are as the index says of block `i`: ascending, above the index key of the
/// block before, and not above that of the block.
pub open spec fn block_shape(t: Table, i: int, es: Seq<Entry>) -> bool {
    &&& model::ascending(es)
    &&& block::all_fit(es)
    &&& es.len() > 0 ==> keys::key_le(es.last().0, t.index[i].last_key)
    &&& es.len() > 0 && i > 0 ==> keys::key_lt(t.index[i - 1].last_key, es[0].0)
}

/// A block that passes its checks is as the index says.
pub proof fn lemma_checked_shape(t: Table, i: int, bytes: Seq<u8>)
    requires
        bytes.len() <= usize::MAX,
        checked_block(t, i, bytes) is Ok,
    ensures
        block_shape(t, i, checked_block(t, i, bytes)->Ok_0),
{
    keys::lemma_key_order();
    block::lemma_block_canonical(bytes);
    let es = checked_block(t, i, bytes)->Ok_0;
    if es.len() > 0 {
        keys::lemma_key_total(es.last().0, t.index[i].last_key);
    }
}

/// The entries of data block `i` of a run file with these bytes, or the first fault.
pub open spec fn block_of(t: Table, image: Seq<u8>, i: int) -> Result<Seq<Entry>> {
    match block_extent(t, i) {
        Err(e) => Err(e),
        Ok((offset, len)) => if offset + len > image.len() {
            Err(Error::Corruption { reason: "data block extent out of range" })
        } else {
            checked_block(t, i, image.subrange(offset as int, offset + len))
        },
    }
}

/// The entries of data block `i`; none if the block is damaged.
pub open spec fn block_entries(t: Table, image: Seq<u8>, i: int) -> Seq<Entry> {
    match block_of(t, image, i) {
        Ok(es) => es,
        Err(_) => seq![],
    }
}

/// The entries of the blocks from `i` on.
pub open spec fn entries_from(t: Table, image: Seq<u8>, i: int) -> Seq<Entry>
    decreases t.index.len() - i,
{
    if i >= t.index.len() {
        seq![]
    } else {
        block_entries(t, image, i) + entries_from(t, image, i + 1)
    }
}

/// Everything the run holds, in key order.
pub open spec fn contents(t: Table, image: Seq<u8>) -> Seq<Entry> {
    entries_from(t, image, 0)
}

/// Every block of the run reads without fault.
pub open spec fn intact(t: Table, image: Seq<u8>) -> bool {
    forall|i: int| 0 <= i < t.index.len() ==> #[trigger] block_of(t, image, i) is Ok
}

/// The first block whose last key is not below `key`, or the number of blocks.
pub open spec fn is_candidate(t: Table, key: Seq<u8>, c: int) -> bool {
    &&& 0 <= c <= t.index.len()
    &&& forall|i: int| 0 <= i < c ==> keys::key_lt((#[trigger] t.index[i]).last_key, key)
    &&& forall|i: int| c <= i < t.index.len() ==> keys::key_le(key, (#[trigger] t.index[i]).last_key)
}

/// A block that reads without fault is ascending, does not pass its index key, and starts
/// above that of the block before it.
pub proof fn lemma_block_bounds(t: Table, image: Seq<u8>, i: int)
    requires
        table_ok(t),
        0 <= i < t.index.len(),
    ensures
        model::ascending(block_entries(t, image, i)),
        block::all_fit(block_entries(t, image, i)),
        forall|k: int|
            0 <= k < block_entries(t, image, i).len() ==> keys::key_le(
                (#[trigger] block_entries(t, image, i)[k]).0,
                t.index[i].last_key,
            ),
        forall|k: int|
            0 <= k < block_entries(t, image, i).len() && i > 0 ==> keys::key_lt(
                t.index[i - 1].last_key,
                (#[trigger] block_entries(t, image, i)[k]).0,
            ),
{
    keys::lemma_key_order();
    if block_of(t, image, i) is Ok {
        let h = t.index[i];
        let bytes = image.subrange(h.offset as int, h.offset + h.len);
        block::lemma_block_canonical(bytes);
        let es = block_entries(t, image, i);
        let last = es.len() - 1;
        if es.len() > 0 {
            keys::lemma_key_total(es[last].0, h.last_key);
        }
        assert forall|k: int| 0 <= k < es.len() implies keys::key_le(
            (#[trigger] es[k]).0,
            h.last_key,
        ) by {
            if k < last {
                assert(keys::key_lt(es[k].0, es[last].0));
            }
        }
        assert forall|k: int| 0 <= k < es.len() && i > 0 implies keys::key_lt(
            t.index[i - 1].last_key,
            (#[trigger] es[k]).0,
        ) by {
            if k > 0 {
                assert(keys::key_lt(es[0].0, es[k].0));
            }
        }
    }
}

/// The entries of the blocks from `i` on ascend strictly, and lie above the last key of
/// the block before.
pub proof fn lemma_entries_ascending(t: Table, image: Seq<u8>, i: int)
    requires
        table_ok(t),
        0 <= i,
    ensures
        model::ascending(entries_from(t, image, i)),
        block::all_fit(entries_from(t, image, i)),
        forall|k: int|
            0 <= k < entries_from(t, image, i).len() && i > 0 ==> keys::key_lt(
                t.index[i - 1].last_key,
                (#[trigger] entries_from(t, image, i)[k]).0,
            ),
    decreases t.index.len() - i,
{
    if i < t.index.len() {
        keys::lemma_key_order();
        lemma_block_bounds(t, image, i);
        lemma_entries_ascending(t, image, i + 1);
        let a = block_entries(t, image, i);
        let b = entries_from(t, image, i + 1);
        let c = entries_from(t, image, i);
        assert(c == a + b);
        assert forall|p: int, q: int| #![trigger c[p], c[q]]
            0 <= p < q < c.len() implies keys::key_lt(c[p].0, c[q].0) by {
            if q < a.len() {
                assert(c[p] == a[p] && c[q] == a[q]);
            } else {
                assert(c[q] == b[q - a.len()]);
                if p < a.len() {
                    assert(c[p] == a[p]);
                } else {
                    assert(c[p] == b[p - a.len()]);
                }
            }
        }
        assert forall|k: int| 0 <= k < c.len() && i > 0 implies keys::key_lt(
            t.index[i - 1].last_key,
            (#[trigger] c[k]).0,
        ) by {
            if k < a.len() {
                assert(c[k] == a[k]);
            } else {
                assert(c[k] == b[k - a.len()]);
                assert(keys::key_lt(t.index[i - 1].last_key, t.index[i].last_key));
            }
        }
        assert forall|k: int| 0 <= k < c.len() implies crate::codec::entry_fits(
            #[trigger] c[k],
        ) by {
            if k < a.len() {
                assert(c[k] == a[k]);
            } else {
                assert(c[k] == b[k - a.len()]);
            }
        }
    }
}

/// An entry of a block is in the run, and not in the blocks from a later one on.
pub proof fn lemma_read_past(t: Table, image: Seq<u8>, n: int, m: int, j: int)
    requires
        table_ok(t),
        0 <= n < j <= t.index.len(),
        0 <= m < block_entries(t, image, n).len(),
    ensures
        model::find(contents(t, image), block_entries(t, image, n)[m].0) is Some,
        model::find(entries_from(t, image, j), block_entries(t, image, n)[m].0) is None,
{
    keys::lemma_key_order();
    let es = block_entries(t, image, n);
    let key = es[m].0;
    lemma_block_bounds(t, image, n);
    lemma_entries_ascending(t, image, j);
    if n < j - 1 {
        assert(keys::key_lt(t.index[n].last_key, t.index[j - 1].last_key));
    }
    model::lemma_find_absent(entries_from(t, image, j), key);
    lemma_in_run(t, image, n, m, 0);
}

/// An entry of a block is in the run.
proof fn lemma_in_run(t: Table, image: Seq<u8>, n: int, m: int, i: int)
    requires
        0 <= i <= n < t.index.len(),
        0 <= m < block_entries(t, image, n).len(),
    ensures
        model::mentions(entries_from(t, image, i), block_entries(t, image, n)[m].0),
    decreases n - i,
{
    let a = block_entries(t, image, i);
    let b = entries_from(t, image, i + 1);
    let key = block_entries(t, image, n)[m].0;
    if i == n {
        assert((a + b)[m].0 == key);
    } else {
        lemma_in_run(t, image, n, m, i + 1);
        let k = choose|k: int| 0 <= k < b.len() && (#[trigger] b[k]).0 == key;
        assert((a + b)[a.len() + k].0 == key);
    }
}

/// A key can only be in its candidate block: searching that block is searching the run.
pub proof fn lemma_lookup(t: Table, image: Seq<u8>, key: Seq<u8>, c: int, i: int)
    requires
        table_ok(t),
        is_candidate(t, key, c),
        0 <= i <= c,
    ensures
        model::find(entries_from(t, image, i), key) == (if c < t.index.len() {
            model::find(block_entries(t, image, c), key)
        } else {
            None
        }),
    decreases c - i,
{
    keys::lemma_key_order();
    lemma_entries_ascending(t, image, i);
    if i < t.index.len() {
        let a = block_entries(t, image, i);
        let b = entries_from(t, image, i + 1);
        lemma_block_bounds(t, image, i);
        lemma_entries_ascending(t, image, i + 1);
        model::lemma_find_concat(a, b, key);
        if i < c {
            assert(keys::key_lt(t.index[i].last_key, key));
            model::lemma_find_absent(a, key);
            lemma_lookup(t, image, key, c, i + 1);
        } else {
            assert(keys::key_le(key, t.index[i].last_key));
            model::lemma_find_absent(b, key);
        }
    } else {
        model::lemma_find_absent(entries_from(t, image, i), key);
    }
}

/// The blocks that `cached` returns for run `run` are blocks of that run.
pub open spec fn serves<C>(cached: C, run: u64, t: Table, image: Seq<u8>) -> bool where
    C: Fn(BlockKey) -> Option<Arc<DecodedBlock>>,
 {
    forall|key: BlockKey, items: Arc<DecodedBlock>|
        #[trigger] call_ensures(cached, (key,), Some(items)) && key.run_id == run && key.block_idx
            < t.index.len() ==> block_of(t, image, key.block_idx as int) == Ok::<Seq<Entry>, Error>(
            record::entries(items@),
        )
}

/// Whatever file the read function serves run `run` from, `items` is its block `i`.
pub open spec fn read_as<R>(read: R, run: u64, t: Table, i: int, items: Seq<Entry>) -> bool where
    R: Fn(u64, u64, usize) -> std::result::Result<Vec<u8>, std::io::Error>,
 {
    forall|image: Seq<u8>| #[trigger]
        reads_image(read, run, image) ==> block_of(t, image, i) == Ok::<Seq<Entry>, Error>(items)
}

/// `error` is what reading block `i` of the run ends in: the fault in its bytes, or a
/// failed read.
pub open spec fn block_fault<R>(
    read: R,
    run: u64,
    t: Table,
    image: Seq<u8>,
    i: int,
    error: Error,
) -> bool where R: Fn(u64, u64, usize) -> std::result::Result<Vec<u8>, std::io::Error> {
    &&& 0 <= i < t.index.len()
    &&& block_of(t, image, i) == Err::<Seq<Entry>, Error>(error) || (block_extent(t, i) is Ok
        && read_fault(
        read,
        run,
        t.index[i].offset,
        t.index[i].len as usize,
        "read data block",
        error,
    ))
}

/// Block `i` can be fetched: the cache can be asked for it; and only if the cache does not
/// have it the file can be read, and the cache can be handed the block as it was read.
pub open spec fn fetch_callable<R, C, S>(
    read: R,
    cached: C,
    store: S,
    run: u64,
    t: Table,
    i: int,
) -> bool where
    R: Fn(u64, u64, usize) -> std::result::Result<Vec<u8>, std::io::Error>,
    C: Fn(BlockKey) -> Option<Arc<DecodedBlock>>,
    S: Fn(BlockKey, Arc<DecodedBlock>),
 {
    let key = BlockKey { run_id: run, block_idx: i as u32 };
    if i > u32::MAX {
        readable(read, run, t, i)
    } else {
        &&& call_requires(cached, (key,))
        &&& call_ensures(cached, (key,), None) ==> {
            &&& readable(read, run, t, i)
            &&& forall|items: Arc<DecodedBlock>|
                read_as(read, run, t, i, record::entries(items@)) ==> #[trigger] call_requires(
                    store,
                    (key, items),
                )
        }
    }
}

/// `key` can be looked up: the one block that may hold it can be fetched.
pub open spec fn lookup_callable<R, C, S>(
    read: R,
    cached: C,
    store: S,
    run: u64,
    t: Table,
    key: Seq<u8>,
) -> bool where
    R: Fn(u64, u64, usize) -> std::result::Result<Vec<u8>, std::io::Error>,
    C: Fn(BlockKey) -> Option<Arc<DecodedBlock>>,
    S: Fn(BlockKey, Arc<DecodedBlock>),
 {
    forall|c: int| #[trigger]
        is_candidate(t, key, c) && c < t.index.len() ==> fetch_callable(
            read,
            cached,
            store,
            run,
            t,
            c,
        )
}

/// The one block that may hold `key` reads without fault.
pub open spec fn sound_for(t: Table, image: Seq<u8>, key: Seq<u8>) -> bool {
    forall|c: int| #[trigger]
        is_candidate(t, key, c) && c < t.index.len() ==> block_of(t, image, c) is Ok
}

/// A key has one candidate block.
pub proof fn lemma_one_candidate(t: Table, key: Seq<u8>, c: int, d: int)
    requires
        is_candidate(t, key, c),
        is_candidate(t, key, d),
    ensures
        c == d,
{
    keys::lemma_key_order();
    if d < c {
        assert(keys::key_lt(t.index[d].last_key, key));
    } else if c < d {
        assert(keys::key_lt(t.index[c].last_key, key));
    }
}

/// The block came from the cache, or the cache did not have it and was handed it.
pub open spec fn supplied<C, S>(
    cached: C,
    store: S,
    key: BlockKey,
    items: Arc<DecodedBlock>,
) -> bool where
    C: Fn(BlockKey) -> Option<Arc<DecodedBlock>>,
    S: Fn(BlockKey, Arc<DecodedBlock>),
 {
    ||| call_ensures(cached, (key,), Some(items))
    ||| call_ensures(cached, (key,), None) && call_ensures(store, (key, items), ())
}

/// The one block that may hold `key` came from the cache, or was read and handed to it. The
/// cache does not hold blocks whose position does not fit its keys.
pub open spec fn handed_over<C, S>(
    cached: C,
    store: S,
    run: u64,
    t: Table,
    image: Seq<u8>,
    key: Seq<u8>,
) -> bool where
    C: Fn(BlockKey) -> Option<Arc<DecodedBlock>>,
    S: Fn(BlockKey, Arc<DecodedBlock>),
 {
    forall|c: u32|
        #[trigger] is_candidate(t, key, c as int) && c < t.index.len() ==> exists|
            items: Arc<DecodedBlock>,
        | #[trigger]
            supplied(cached, store, (BlockKey { run_id: run, block_idx: c }), items) && block_of(
                t,
                image,
                c as int,
            ) == Ok::<Seq<Entry>, Error>(record::entries(items@))
}

/// The view of an optional record.
pub open spec fn found(record: Option<Record>) -> Option<Option<Seq<u8>>> {
    match record {
        Some(r) => Some(r@),
        None => None,
    }
}

/// Scans items for `key`.
pub fn find_item(items: &Vec<Item>, key: &[u8]) -> (hit: Option<Record>)
    ensures
        hit is None ==> !model::mentions(record::entries(items@), key@),
        hit matches Some(r) ==> exists|i: int|
            0 <= i < items@.len() && record::entry(#[trigger] items@[i]) == (key@, r@),
        model::ascending(record::entries(items@)) ==> found(hit) == model::find(
            record::entries(items@),
            key@,
        ),
{
    let mut i: usize = 0;
    while i < items.len()
        invariant
            i <= items@.len(),
            forall|k: int| 0 <= k < i ==> (#[trigger] record::entries(items@)[k]).0 != key@,
        decreases items@.len() - i,
    {
        assert(record::entries(items@)[i as int] == record::entry(items@[i as int]));
        if keys::same_key(items[i].0.as_slice(), key) {
            let hit = items[i].1.clone();
            proof {
                assert(record::entry(items@[i as int]) == (key@, hit@));
                if model::ascending(record::entries(items@)) {
                    model::lemma_find_at(record::entries(items@), i as int);
                }
            }
            return Some(hit);
        }
        i += 1;
    }
    None
}

/// An open run: its name, its identity within the engine, and its parsed index.
#[derive(Debug)]
pub struct SsTable {
    name: String,
    run_id: u64,
    blocks: Vec<BlockHandle>,
    data_end: u64,
    entry_count: u64,
    filter: Option<RunFilter>,
}

impl View for SsTable {
    type V = Table;

    closed spec fn view(&self) -> Table {
        Table {
            index: index::handles(self.blocks@),
            data_end: self.data_end,
            entry_count: self.entry_count,
        }
    }
}

impl SsTable {
    /// The run's identity.
    pub closed spec fn id(&self) -> u64 {
        self.run_id
    }

    /// The run's file name.
    pub closed spec fn label(&self) -> Seq<char> {
        self.name@
    }

    /// The attached filter, if there is one.
    pub closed spec fn filtered(&self) -> Option<RunFilter> {
        self.filter
    }

    /// The run has to be consulted for `key`: there is no filter, or the filter admits the
    /// key.
    pub open spec fn admits(&self, key: Seq<u8>) -> bool {
        self.filtered() matches Some(f) ==> f.admitted().contains(key)
    }

    /// The filter, if there is one, admits every key that the run holds.
    pub open spec fn covered(&self, image: Seq<u8>) -> bool {
        forall|key: Seq<u8>| #[trigger]
            model::mentions(contents(self@, image), key) ==> self.admits(key)
    }

    /// The index is ordered, as opening a run ensures, and the filter can be probed.
    pub open spec fn wf(&self) -> bool {
        &&& table_ok(self@)
        &&& self.filtered() matches Some(f) ==> f.wf()
    }

    /// Opens the run file `name` of `file_len` bytes, reading and checking its footer and
    /// index. `run_id` is the identity that reads of the file are made under.
    pub fn open<R>(name: String, run_id: u64, file_len: u64, read: &R) -> (table: Result<
        SsTable,
    >) where R: Fn(u64, u64, usize) -> std::result::Result<Vec<u8>, std::io::Error>
        requires
            total(*read),
        ensures
            table matches Ok(t) ==> t.wf() && t.id() == run_id && t.label() == name@
                && t.filtered() is None,
            match table {
                Ok(t) => opens_to(*read, run_id, file_len, Ok(t@)),
                Err(e) => opens_to(*read, run_id, file_len, Err(e)),
            },
            forall|image: Seq<u8>|
                #[trigger]
                reads_image(*read, run_id, image) && image.len() == file_len ==> match table {
                    Ok(t) => opened(image) == Ok::<Table, Error>(t@),
                    Err(e) => opened(image) == Err::<Table, Error>(e) || (file_len >= MAGIC_LEN
                        + FOOTER_LEN && read_fault(
                        *read,
                        run_id,
                        (file_len - FOOTER_LEN) as u64,
                        FOOTER_LEN as usize,
                        "read run footer",
                        e,
                    )) || (exists|f: index::Footer|
                        index::footer_of(
                            file_len as int,
                            image.subrange(file_len - FOOTER_LEN, file_len as int),
                        ) == Ok::<index::Footer, Error>(f) && #[trigger] read_fault(
                            *read,
                            run_id,
                            f.index_offset,
                            f.index_len as usize,
                            "read run index",
                            e,
                        )),
                },
            file_len < MAGIC_LEN + FOOTER_LEN ==> table == Err::<SsTable, Error>(
                Error::Corruption { reason: "file shorter than header and footer" },
            ),
    {
        if file_len < MAGIC_LEN + FOOTER_LEN {
            return Err(Error::corruption("file shorter than header and footer"));
        }
        let footer_bytes = match read_exact(
            read,
            run_id,
            file_len - FOOTER_LEN,
            FOOTER_LEN as usize,
            "read run footer",
        ) {
            Ok(b) => b,
            Err(e) => {
                return Err(e);
            },
        };
        let footer = match index::parse_footer(file_len, footer_bytes.as_slice()) {
            Ok(f) => f,
            Err(e) => {
                return Err(e);
            },
        };
        if footer.index_len > usize::MAX as u64 {
            return Err(Error::corruption("length exceeds platform usize"));
        }
        let index_bytes = match read_exact(
            read,
            run_id,
            footer.index_offset,
            footer.index_len as usize,
            "read run index",
        ) {
            Ok(b) => b,
            Err(e) => {
                return Err(e);
            },
        };
        if checksum::checksum(index_bytes.as_slice()) != footer.index_crc {
            return Err(Error::corruption("index checksum mismatch"));
        }
        let blocks = match index::parse_index(index_bytes.as_slice()) {
            Ok(v) => v,
            Err(e) => {
                return Err(e);
            },
        };
        proof {
            index::lemma_index_ascending(index_bytes@);
        }
        Ok(
            SsTable {
                name,
                run_id,
                blocks,
                data_end: footer.index_offset,
                entry_count: footer.entry_count,
                filter: None,
            },
        )
    }

    /// Attaches a filter, or none.
    pub fn attach_filter(&mut self, filter: Option<RunFilter>)
        requires
            table_ok(old(self)@),
            filter matches Some(f) ==> f.wf(),
        ensures
            final(self).wf(),
            final(self)@ == old(self)@,
            final(self).id() == old(self).id(),
            final(self).label() == old(self).label(),
            final(self).filtered() == filter,
    {
        self.filter = filter;
    }

    /// Whether this run might hold `key`: `true` if there is no filter, else what the
    /// filter says.
    pub fn might_contain(&self, key: &[u8]) -> (maybe: bool)
        requires
            self.wf(),
        ensures
            maybe == self.admits(key@),
    {
        match &self.filter {
            Some(filter) => filter.might_contain(key),
            None => true,
        }
    }

    /// Reads and decodes data block `i`, checking it against the index.
    pub fn read_block<R>(&self, i: usize, read: &R) -> (items: Result<Vec<Item>>) where
        R: Fn(u64, u64, usize) -> std::result::Result<Vec<u8>, std::io::Error>,

        requires
            i < self@.index.len(),
            readable(*read, self.id(), self@, i as int),
        ensures
            items matches Ok(v) ==> block_shape(self@, i as int, record::entries(v@)),
            forall|image: Seq<u8>| #[trigger]
                reads_image(*read, self.id(), image) ==> match items {
                    Ok(v) => block_of(self@, image, i as int) == Ok::<Seq<Entry>, Error>(
                        record::entries(v@),
                    ),
                    Err(e) => block_fault(*read, self.id(), self@, image, i as int, e),
                },
    {
        let h = &self.blocks[i];
        assert(self@.index[i as int] == h@);
        if h.offset < MAGIC_LEN {
            return Err(Error::corruption("data block extent out of range"));
        }
        match h.offset.checked_add(h.len as u64) {
            None => {
                return Err(Error::corruption("data block extent out of range"));
            },
            Some(end) => {
                if end > self.data_end {
                    return Err(Error::corruption("data block extent out of range"));
                }
            },
        }
        let bytes = match read_exact(read, self.run_id, h.offset, h.len as usize, "read data block") {
            Ok(b) => b,
            Err(e) => {
                return Err(e);
            },
        };
        self.check_block(i, bytes.as_slice())
    }

    /// Checks and decodes the bytes of data block `i`.
    pub fn check_block(&self, i: usize, bytes: &[u8]) -> (items: Result<Vec<Item>>)
        requires
            i < self@.index.len(),
        ensures
            items matches Ok(v) ==> block_shape(self@, i as int, record::entries(v@)),
            match items {
                Ok(v) => checked_block(self@, i as int, bytes@) == Ok::<Seq<Entry>, Error>(
                    record::entries(v@),
                ),
                Err(e) => checked_block(self@, i as int, bytes@) == Err::<Seq<Entry>, Error>(e),
            },
    {
        let h = &self.blocks[i];
        assert(self@.index[i as int] == h@);
        if checksum::checksum(bytes) != h.crc {
            return Err(Error::corruption("data block checksum mismatch"));
        }
        let items = match block::decode_block(bytes) {
            Ok(items) => items,
            Err(e) => {
                return Err(e);
            },
        };
        let n: usize = items.len();
        if n > 0 {
            if keys::key_before(h.last_key.as_slice(), items[n - 1].0.as_slice()) {
                return Err(Error::corruption("data block key above its index key"));
            }
            if i > 0 {
                assert(self@.index[i - 1] == self.blocks@[i - 1]@);
                if !keys::key_before(self.blocks[i - 1].last_key.as_slice(), items[0].0.as_slice()) {
                    return Err(Error::corruption("data block keys not strictly increasing"));
                }
            }
        }
        proof {
            assert(bytes.len() <= usize::MAX);
            lemma_checked_shape(self@, i as int, bytes@);
        }
        Ok(items)
    }

    /// The index of the block that may hold `key`: the first one whose last key is not
    /// below it, or the number of blocks.
    pub fn candidate(&self, key: &[u8]) -> (c: usize)
        requires
            self.wf(),
        ensures
            is_candidate(self@, key@, c as int),
    {
        let mut lo: usize = 0;
        let mut hi: usize = self.blocks.len();
        proof {
            keys::lemma_key_order();
        }
        while lo < hi
            invariant
                self.wf(),
                lo <= hi <= self.blocks@.len(),
                self@.index.len() == self.blocks@.len(),
                forall|i: int| 0 <= i < lo ==> keys::key_lt((#[trigger] self@.index[i]).last_key, key@),
                forall|i: int|
                    hi <= i < self@.index.len() ==> keys::key_le(
                        key@,
                        (#[trigger] self@.index[i]).last_key,
                    ),
            decreases hi - lo,
        {
            let mid: usize = lo + (hi - lo) / 2;
            assert(self@.index[mid as int] == self.blocks@[mid as int]@);
            proof {
                keys::lemma_key_order();
            }
            if keys::key_before(self.blocks[mid].last_key.as_slice(), key) {
                lo = mid + 1;
            } else {
                hi = mid;
            }
        }
        lo
    }

    /// Block `i`, from the cache if it is there, else read from the file and handed to
    /// the cache. A block that the cache has is not read.
    pub fn fetch_block<R, C, S>(&self, i: usize, read: &R, cached: &C, store: &S) -> (items: Result<
        Arc<DecodedBlock>,
    >) where
        R: Fn(u64, u64, usize) -> std::result::Result<Vec<u8>, std::io::Error>,
        C: Fn(BlockKey) -> Option<Arc<DecodedBlock>>,
        S: Fn(BlockKey, Arc<DecodedBlock>),

        requires
            i < self@.index.len(),
            fetch_callable(*read, *cached, *store, self.id(), self@, i as int),
        ensures
            items matches Ok(v) ==> i <= u32::MAX ==> supplied(
                *cached,
                *store,
                BlockKey { run_id: self.id(), block_idx: i as u32 },
                v,
            ),
            forall|image: Seq<u8>| #[trigger]
                reads_image(*read, self.id(), image) && serves(*cached, self.id(), self@, image)
                    ==> match items {
                    Ok(v) => block_of(self@, image, i as int) == Ok::<Seq<Entry>, Error>(
                        record::entries(v@),
                    ),
                    Err(e) => block_fault(*read, self.id(), self@, image, i as int, e),
                },
    {
        if i as u64 > u32::MAX as u64 {
            return match self.read_block(i, read) {
                Ok(items) => Ok(Arc::new(items)),
                Err(e) => Err(e),
            };
        }
        let key = BlockKey { run_id: self.run_id, block_idx: i as u32 };
        match cached(key) {
            Some(items) => Ok(items),
            None => match self.read_block(i, read) {
                Ok(items) => {
                    let items = Arc::new(items);
                    store(key, Arc::clone(&items));
                    Ok(items)
                },
                Err(e) => Err(e),
            },
        }
    }

    /// Looks up `key`, returning its record if this run has one for it. At most one data
    /// block is consulted.
    pub fn lookup<R, C, S>(&self, key: &[u8], read: &R, cached: &C, store: &S) -> (hit: Result<
        Option<Record>,
    >) where
        R: Fn(u64, u64, usize) -> std::result::Result<Vec<u8>, std::io::Error>,
        C: Fn(BlockKey) -> Option<Arc<DecodedBlock>>,
        S: Fn(BlockKey, Arc<DecodedBlock>),

        requires
            self.wf(),
            lookup_callable(*read, *cached, *store, self.id(), self@, key@),
        ensures
            hit is Ok ==> forall|c: u32|
                #[trigger] is_candidate(self@, key@, c as int) && c < self@.index.len() ==> exists|
                    items: Arc<DecodedBlock>,
                | #[trigger]
                    supplied(*cached, *store, (BlockKey { run_id: self.id(), block_idx: c }), items),
            forall|image: Seq<u8>| #[trigger]
                reads_image(*read, self.id(), image) && serves(*cached, self.id(), self@, image)
                    ==> match hit {
                    Ok(r) => {
                        &&& found(r) == model::find(contents(self@, image), key@)
                        &&& sound_for(self@, image, key@)
                        &&& handed_over(*cached, *store, self.id(), self@, image, key@)
                    },
                    Err(e) => exists|c: int|
                        is_candidate(self@, key@, c) && #[trigger] block_fault(
                            *read,
                            self.id(),
                            self@,
                            image,
                            c,
                            e,
                        ),
                },
    {
        let c: usize = self.candidate(key);
        proof {
            assert forall|d: int| #[trigger] is_candidate(self@, key@, d) implies d == c by {
                lemma_one_candidate(self@, key@, c as int, d);
            }
        }
        if c >= self.blocks.len() {
            proof {
                assert forall|image: Seq<u8>| #[trigger]
                    reads_image(*read, self.id(), image) implies model::find(
                    contents(self@, image),
                    key@,
                ) is None by {
                    lemma_lookup(self@, image, key@, c as int, 0);
                }
            }
            return Ok(None);
        }
        match self.fetch_block(c, read, cached, store) {
            Ok(items) => {
                let hit = find_item(&items, key);
                proof {
                    assert forall|image: Seq<u8>| #[trigger]
                        reads_image(*read, self.id(), image) && serves(
                            *cached,
                            self.id(),
                            self@,
                            image,
                        ) implies found(hit) == model::find(contents(self@, image), key@) by {
                        lemma_lookup(self@, image, key@, c as int, 0);
                        lemma_block_bounds(self@, image, c as int);
                    }
                }
                Ok(hit)
            },
            Err(e) => Err(e),
        }
    }

    /// The run's file name.
    pub fn file_name(&self) -> (name: String)
        ensures
            name@ == self.label(),
    {
        self.name.clone()
    }

    /// The run's identity.
    pub fn run_id(&self) -> (id: u64)
        ensures
            id == self.id(),
    {
        self.run_id
    }

    /// The number of entries (values and deletions) recorded in the run.
    pub fn entry_count(&self) -> (count: u64)
        ensures
            count == self@.entry_count,
    {
        self.entry_count
    }

    /// The number of data blocks.
    pub fn block_count(&self) -> (count: usize)
        ensures
            count == self@.index.len(),
    {
        self.blocks.len()
    }
}

} // verus!
