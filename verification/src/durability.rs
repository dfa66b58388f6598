//! Write-ahead log records.
//!
//! A log record holds one group of writes, recovered as a whole: the number of writes as
//! a `u32`, and then that many entries. The log itself is a file of such records; on
//! open they are replayed into the write buffer in the order they were appended.
use vstd::prelude::*;
use crate::block;
use crate::codec;
use crate::codec::Origin;
use crate::error::{Error, Result};
use crate::layout;
use crate::memtable;
use crate::memtable::MemTable;
use crate::record;
use crate::record::{Entry, Item, Record};

verus! {

/// The bytes of a log record that holds `ops`.
pub open spec fn encode_log(ops: Seq<Entry>) -> Seq<u8> {
    codec::le4(codec::len_prefix(ops.len())) + codec::encode_entries(ops)
}

/// The next `count` operations from `pos` on and where they end, or the first fault.
pub open spec fn ops_from(bytes: Seq<u8>, pos: int, count: nat) -> Result<(Seq<Entry>, int)>
    decreases count,
{
    if count == 0 {
        Ok((seq![], pos))
    } else {
        match codec::entry_at(bytes, pos, Origin::Log) {
            Err(e) => Err(e),
            Ok((op, end)) => match ops_from(bytes, end, (count - 1) as nat) {
                Err(e) => Err(e),
                Ok((rest, last)) => Ok((seq![op] + rest, last)),
            },
        }
    }
}

/// The operations of a log record, or the first fault found in it. Nothing may follow the
/// last operation.
pub open spec fn decoded_log(bytes: Seq<u8>) -> Result<Seq<Entry>> {
    match codec::u32_field(bytes, 0, Origin::Log) {
        Err(e) => Err(e),
        Ok(count) => match ops_from(bytes, 4, count as nat) {
            Err(e) => Err(e),
            Ok((ops, end)) => if end != bytes.len() {
                Err(Error::Corruption { reason: "trailing bytes in log record" })
            } else {
                Ok(ops)
            },
        },
    }
}

/// Encodes a group of operations into one log record.
pub fn encode(ops: &Vec<Item>) -> (bytes: Vec<u8>)
    ensures
        bytes@ == encode_log(record::entries(ops@)),
{
    let mut bytes: Vec<u8> = Vec::new();
    codec::encode_u32(&mut bytes, codec::low_u32(ops.len()));
    let mut i: usize = 0;
    let ghost es = record::entries(ops@);
    proof {
        assert(es.len() == ops@.len());
        assert(es.take(0) =~= seq![]);
        assert(bytes@ =~= codec::le4(codec::len_prefix(es.len())) + codec::encode_entries(
            es.take(0),
        ));
    }
    while i < ops.len()
        invariant
            i <= ops@.len(),
            es == record::entries(ops@),
            bytes@ == codec::le4(codec::len_prefix(es.len())) + codec::encode_entries(
                es.take(i as int),
            ),
        decreases ops@.len() - i,
    {
        codec::write_entry(&mut bytes, ops[i].0.as_slice(), &ops[i].1);
        proof {
            assert(es[i as int] == record::entry(ops@[i as int]));
            assert(es.take(i + 1).drop_last() =~= es.take(i as int));
            assert(es.take(i + 1).last() == es[i as int]);
            assert(bytes@ =~= codec::le4(codec::len_prefix(es.len())) + codec::encode_entries(
                es.take(i + 1),
            ));
        }
        i += 1;
    }
    assert(es.take(i as int) =~= es);
    bytes
}

/// Encodes a single operation into one log record.
pub fn encode_one(key: &[u8], record: &Record) -> (bytes: Vec<u8>)
    ensures
        bytes@ == encode_log(seq![(key@, record@)]),
{
    let mut bytes: Vec<u8> = Vec::new();
    codec::encode_u32(&mut bytes, 1);
    codec::write_entry(&mut bytes, key, record);
    proof {
        reveal_with_fuel(codec::encode_entries, 2);
        let e = (key@, record@);
        assert(seq![e].drop_last() =~= seq![]);
        assert(bytes@ =~= encode_log(seq![e]));
    }
    bytes
}

/// Decodes one log record into its operations, checking every field.
pub fn decode(bytes: &[u8]) -> (ops: Result<Vec<Item>>)
    ensures
        match ops {
            Ok(v) => decoded_log(bytes@) == Ok::<Seq<Entry>, Error>(record::entries(v@)),
            Err(e) => decoded_log(bytes@) == Err::<Seq<Entry>, Error>(e),
        },
{
    let mut pos: usize = 0;
    let count: u32 = match codec::read_u32(bytes, &mut pos, Origin::Log) {
        Ok(v) => v,
        Err(e) => {
            return Err(e);
        },
    };
    let mut ops: Vec<Item> = Vec::new();
    let mut left: u32 = count;
    proof {
        assert(record::entries(ops@) =~= seq![]);
        if let Ok((rest, end)) = ops_from(bytes@, 4, count as nat) {
            assert(record::entries(ops@) + rest =~= rest);
        }
    }
    while left > 0
        invariant
            pos <= bytes@.len(),
            codec::u32_field(bytes@, 0, Origin::Log) == Ok::<u32, Error>(count),
            match ops_from(bytes@, pos as int, left as nat) {
                Ok((rest, end)) => ops_from(bytes@, 4, count as nat) == Ok::<
                    (Seq<Entry>, int),
                    Error,
                >((record::entries(ops@) + rest, end)),
                Err(e) => ops_from(bytes@, 4, count as nat) == Err::<(Seq<Entry>, int), Error>(e),
            },
        decreases left,
    {
        let item = match codec::read_entry(bytes, &mut pos, Origin::Log) {
            Ok(item) => item,
            Err(e) => {
                return Err(e);
            },
        };
        let ghost before = ops@;
        ops.push(item);
        left = left - 1;
        proof {
            if let Ok((rest, end)) = ops_from(bytes@, pos as int, left as nat) {
                assert(record::entries(ops@) + rest =~= record::entries(before) + (seq![
                    record::entry(item),
                ] + rest));
            }
        }
    }
    proof {
        assert(record::entries(ops@) + seq![] =~= record::entries(ops@));
    }
    if pos != bytes.len() {
        return Err(Error::corruption("trailing bytes in log record"));
    }
    Ok(ops)
}

/// Replays one log record into the write buffer. A record that does not decode changes
/// nothing.
pub fn replay(bytes: &[u8], mem: &mut MemTable) -> (done: Result<()>)
    requires
        old(mem).wf(),
        memtable::total_size(old(mem)@) + bytes@.len() <= usize::MAX,
    ensures
        final(mem).wf(),
        match done {
            Ok(_) => decoded_log(bytes@) matches Ok(ops) && memtable::applied_all(
                final(mem)@,
                old(mem)@,
                ops,
            ),
            Err(e) => decoded_log(bytes@) == Err::<Seq<Entry>, Error>(e) && final(mem)@ == old(mem)@,
        },
        memtable::total_size(final(mem)@) <= memtable::total_size(old(mem)@) + bytes@.len(),
{
    match decode(bytes) {
        Ok(ops) => {
            proof {
                assert(bytes.len() <= usize::MAX);
                lemma_log_canonical(bytes@);
                lemma_log_size(record::entries(ops@));
            }
            mem.apply_all(ops);
            Ok(())
        },
        Err(e) => Err(e),
    }
}

/// The bytes of some log records, together.
pub open spec fn log_size(records: Seq<Seq<u8>>) -> nat
    decreases records.len(),
{
    if records.len() == 0 {
        0
    } else {
        log_size(records.drop_last()) + records.last().len()
    }
}

/// The first records have no more bytes than all.
pub proof fn lemma_log_size_prefix(records: Seq<Seq<u8>>, n: int)
    requires
        0 <= n <= records.len(),
    ensures
        log_size(records.take(n)) <= log_size(records),
    decreases records.len() - n,
{
    if n < records.len() {
        assert(records.take(n + 1).drop_last() =~= records.take(n));
        lemma_log_size_prefix(records, n + 1);
    } else {
        assert(records.take(n) =~= records);
    }
}

/// The operations of some log records, in order. Every record decodes.
pub open spec fn logged_ops(records: Seq<Seq<u8>>) -> Seq<Entry>
    decreases records.len(),
{
    if records.len() == 0 {
        seq![]
    } else {
        logged_ops(records.drop_last()) + decoded_log(records.last())->Ok_0
    }
}

/// Every record decodes, and a buffer goes from `was` to `now` by their operations.
pub open spec fn replayed(now: Seq<Entry>, was: Seq<Entry>, records: Seq<Seq<u8>>) -> bool {
    &&& forall|i: int| 0 <= i < records.len() ==> decoded_log(#[trigger] records[i]) is Ok
    &&& memtable::applied_all(now, was, logged_ops(records))
}

/// One more record replayed.
pub proof fn lemma_replayed_push(
    start: Seq<Entry>,
    middle: Seq<Entry>,
    end: Seq<Entry>,
    records: Seq<Seq<u8>>,
    record: Seq<u8>,
)
    requires
        replayed(middle, start, records),
        decoded_log(record) is Ok,
        memtable::applied_all(end, middle, decoded_log(record)->Ok_0),
    ensures
        replayed(end, start, records.push(record)),
        logged_ops(records.push(record)) == logged_ops(records) + decoded_log(record)->Ok_0,
{
    assert(records.push(record).drop_last() =~= records);
    memtable::lemma_groups_compose(
        start,
        middle,
        end,
        logged_ops(records),
        decoded_log(record)->Ok_0,
    );
}

/// An encoded log record is nine bytes per operation and four more than the keys and
/// values in it.
pub proof fn lemma_log_size(ops: Seq<Entry>)
    ensures
        encode_log(ops).len() == 4 + 9 * ops.len() + memtable::total_size(ops),
    decreases ops.len(),
{
    codec::lemma_le4_roundtrip(codec::len_prefix(ops.len()));
    if ops.len() > 0 {
        codec::lemma_le4_roundtrip(codec::len_prefix(ops.drop_last().len()));
        lemma_log_size(ops.drop_last());
        layout::lemma_entry_size(ops.last());
    }
}

/// Decoding encoded operations from the `k`-th one on gives the operations from there.
proof fn lemma_ops_decode(bytes: Seq<u8>, ops: Seq<Entry>, k: int)
    requires
        0 <= k <= ops.len(),
        block::all_fit(ops),
        bytes == encode_log(ops),
        bytes.len() <= usize::MAX,
    ensures
        ops_from(
            bytes,
            (4 + codec::encode_entries(ops.take(k)).len()) as int,
            (ops.len() - k) as nat,
        ) == Ok::<(Seq<Entry>, int), Error>((ops.skip(k), bytes.len() as int)),
    decreases ops.len() - k,
{
    codec::lemma_le4_roundtrip(codec::len_prefix(ops.len()));
    let all = codec::encode_entries(ops);
    let start = codec::encode_entries(ops.take(k)).len() as int;
    if k == ops.len() {
        assert(ops.take(k) =~= ops);
        assert(ops.skip(k) =~= seq![]);
    } else {
        block::lemma_encode_at(ops, k);
        let end = start + codec::encode_entry(ops[k]).len();
        assert(bytes.subrange(4 + start, 4 + end) =~= all.subrange(start, end as int));
        codec::lemma_entry_decodes(bytes, 4 + start, ops[k], Origin::Log);
        lemma_ops_decode(bytes, ops, k + 1);
        assert(seq![ops[k]] + ops.skip(k + 1) =~= ops.skip(k));
    }
}

/// What is logged is recovered: the record of a group of operations decodes to them, in
/// order.
pub proof fn lemma_log_roundtrip(ops: Seq<Entry>)
    requires
        block::all_fit(ops),
        ops.len() <= u32::MAX,
        encode_log(ops).len() <= usize::MAX,
    ensures
        decoded_log(encode_log(ops)) == Ok::<Seq<Entry>, Error>(ops),
{
    let bytes = encode_log(ops);
    codec::lemma_le4_roundtrip(codec::len_prefix(ops.len()));
    lemma_ops_decode(bytes, ops, 0);
    assert(ops.take(0) =~= seq![]);
    assert(ops.skip(0) =~= ops);
    assert(bytes.subrange(0, 4) =~= codec::le4(codec::len_prefix(ops.len())));
}

/// Operations that decode from `pos` on are encoded by the bytes they span.
proof fn lemma_ops_canonical(bytes: Seq<u8>, pos: int, count: nat)
    requires
        0 <= pos <= bytes.len() <= usize::MAX,
        ops_from(bytes, pos, count) is Ok,
    ensures
        ({
            let (ops, end) = ops_from(bytes, pos, count)->Ok_0;
            &&& ops.len() == count
            &&& block::all_fit(ops)
            &&& pos <= end <= bytes.len()
            &&& bytes.subrange(pos, end) == codec::encode_entries(ops)
        }),
    decreases count,
{
    let (ops, end) = ops_from(bytes, pos, count)->Ok_0;
    if count == 0 {
        assert(bytes.subrange(pos, end) =~= seq![]);
    } else {
        let (op, next) = codec::entry_at(bytes, pos, Origin::Log)->Ok_0;
        codec::lemma_entry_canonical(bytes, pos, Origin::Log);
        lemma_ops_canonical(bytes, next, (count - 1) as nat);
        let (rest, last) = ops_from(bytes, next, (count - 1) as nat)->Ok_0;
        codec::lemma_encode_concat(seq![op], rest);
        assert(codec::encode_entries(seq![op]) =~= codec::encode_entry(op)) by {
            reveal_with_fuel(codec::encode_entries, 2);
            assert(seq![op].drop_last() =~= seq![]);
        }
        assert(bytes.subrange(pos, end) =~= bytes.subrange(pos, next) + bytes.subrange(next, end));
        assert forall|i: int| 0 <= i < ops.len() implies codec::entry_fits(#[trigger] ops[i]) by {
            if i > 0 {
                assert(ops[i] == rest[i - 1]);
            }
        }
    }
}

/// A record that decodes is the encoding of what it decodes to.
pub proof fn lemma_log_canonical(bytes: Seq<u8>)
    requires
        bytes.len() <= usize::MAX,
        decoded_log(bytes) is Ok,
    ensures
        encode_log(decoded_log(bytes)->Ok_0) == bytes,
        block::all_fit(decoded_log(bytes)->Ok_0),
        decoded_log(bytes)->Ok_0.len() <= u32::MAX,
{
    let ops = decoded_log(bytes)->Ok_0;
    let count = codec::u32_field(bytes, 0, Origin::Log)->Ok_0;
    lemma_ops_canonical(bytes, 4, count as nat);
    codec::lemma_le4_value_roundtrip(bytes.subrange(0, 4));
    assert(bytes =~= bytes.subrange(0, 4) + bytes.subrange(4, bytes.len() as int));
}

/// Operations that decode are decoded the same when more bytes follow.
proof fn lemma_ops_extend(bytes: Seq<u8>, extra: Seq<u8>, pos: int, count: nat)
    requires
        0 <= pos <= bytes.len(),
        bytes.len() + extra.len() <= usize::MAX,
        ops_from(bytes, pos, count) is Ok,
    ensures
        ops_from(bytes + extra, pos, count) == ops_from(bytes, pos, count),
    decreases count,
{
    if count > 0 {
        let (op, next) = codec::entry_at(bytes, pos, Origin::Log)->Ok_0;
        codec::lemma_entry_canonical(bytes, pos, Origin::Log);
        assert((bytes + extra).subrange(pos, next) =~= bytes.subrange(pos, next));
        codec::lemma_entry_decodes(bytes + extra, pos, op, Origin::Log);
        lemma_ops_extend(bytes, extra, next, (count - 1) as nat);
    }
}

/// Bytes after a complete record are rejected.
pub proof fn lemma_log_trailing(bytes: Seq<u8>, extra: Seq<u8>)
    requires
        bytes.len() + extra.len() <= usize::MAX,
        decoded_log(bytes) is Ok,
        extra.len() > 0,
    ensures
        decoded_log(bytes + extra) == Err::<Seq<Entry>, Error>(
            Error::Corruption { reason: "trailing bytes in log record" },
        ),
{
    let count = codec::u32_field(bytes, 0, Origin::Log)->Ok_0;
    assert((bytes + extra).subrange(0, 4) =~= bytes.subrange(0, 4));
    lemma_ops_extend(bytes, extra, 4, count as nat);
}

/// A record cut short is rejected, wherever it is cut.
pub proof fn lemma_log_truncated(bytes: Seq<u8>, len: int)
    requires
        bytes.len() <= usize::MAX,
        decoded_log(bytes) is Ok,
        0 <= len < bytes.len(),
    ensures
        decoded_log(bytes.take(len)) is Err,
{
    if decoded_log(bytes.take(len)) is Ok {
        assert(bytes.take(len) + bytes.skip(len) =~= bytes);
        lemma_log_trailing(bytes.take(len), bytes.skip(len));
    }
}

} // verus!
