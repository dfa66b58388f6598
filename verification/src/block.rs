//! Data blocks: the entries of a run, one block at a time.
use vstd::prelude::*;
use crate::codec;
use crate::codec::Origin;
use crate::error::{Error, Result};
use crate::keys;
use crate::model;
use crate::record;
use crate::record::{Entry, Item};

verus! {

/// The entries of the block from `pos` on, or the first fault found from there. `prev`
/// is the key of the entry before `pos`, which the next key has to exceed.
pub open spec fn decode_from(bytes: Seq<u8>, pos: int, prev: Option<Seq<u8>>) -> Result<Seq<Entry>>
    decreases bytes.len() - pos,
{
    if pos >= bytes.len() {
        Ok(seq![])
    } else {
        match codec::entry_at(bytes, pos, Origin::Run) {
            Err(e) => Err(e),
            Ok((entry, end)) => if prev is Some && !keys::key_lt(prev->0, entry.0) {
                Err(Error::Corruption { reason: "data block keys not strictly increasing" })
            } else {
                match decode_from(bytes, end, Some(entry.0)) {
                    Err(e) => Err(e),
                    Ok(rest) => Ok(seq![entry] + rest),
                }
            },
        }
    }
}

/// The entries of a data block, or the first fault found in it.
pub open spec fn decoded(bytes: Seq<u8>) -> Result<Seq<Entry>> {
    decode_from(bytes, 0, None)
}

/// Every entry is within the cap on length prefixes.
pub open spec fn all_fit(es: Seq<Entry>) -> bool {
    forall|i: int| 0 <= i < es.len() ==> codec::entry_fits(#[trigger] es[i])
}

/// Decodes a data block into its entries, checking bounds, tags and key order.
pub fn decode_block(bytes: &[u8]) -> (items: Result<Vec<Item>>)
    ensures
        match items {
            Ok(v) => decoded(bytes@) == Ok::<Seq<Entry>, Error>(record::entries(v@)),
            Err(e) => decoded(bytes@) == Err::<Seq<Entry>, Error>(e),
        },
{
    let mut items: Vec<Item> = Vec::new();
    let mut pos: usize = 0;
    proof {
        assert(record::entries(items@) =~= seq![]);
    }
    while pos < bytes.len()
        invariant
            pos <= bytes@.len(),
            ({
                let prev = if items@.len() == 0 {
                    None
                } else {
                    Some(items@.last().0@)
                };
                match decode_from(bytes@, pos as int, prev) {
                    Ok(rest) => decoded(bytes@) == Ok::<Seq<Entry>, Error>(
                        record::entries(items@) + rest,
                    ),
                    Err(e) => decoded(bytes@) == Err::<Seq<Entry>, Error>(e),
                }
            }),
        decreases bytes@.len() - pos,
    {
        let item = match codec::read_entry(bytes, &mut pos, Origin::Run) {
            Ok(item) => item,
            Err(e) => {
                return Err(e);
            },
        };
        if items.len() > 0 {
            if !keys::key_before(items[items.len() - 1].0.as_slice(), item.0.as_slice()) {
                return Err(Error::corruption("data block keys not strictly increasing"));
            }
        }
        let ghost before = items@;
        items.push(item);
        proof {
            assert(items@.last() == item);
            let prev = Some(item.0@);
            if let Ok(rest) = decode_from(bytes@, pos as int, prev) {
                assert(record::entries(items@) + rest =~= record::entries(before) + (seq![
                    record::entry(item),
                ] + rest));
            }
        }
    }
    proof {
        assert(record::entries(items@) + seq![] =~= record::entries(items@));
    }
    Ok(items)
}

/// The encoding of the first `k` entries is a prefix of the encoding of all of them,
/// and the entry at `k` follows it.
pub proof fn lemma_encode_at(es: Seq<Entry>, k: int)
    requires
        0 <= k < es.len(),
    ensures
        ({
            let all = codec::encode_entries(es);
            let start = codec::encode_entries(es.take(k)).len() as int;
            let end = codec::encode_entries(es.take(k + 1)).len() as int;
            &&& end == start + codec::encode_entry(es[k]).len()
            &&& end <= all.len()
            &&& all.subrange(start, end) == codec::encode_entry(es[k])
        }),
{
    let all = codec::encode_entries(es);
    let start = codec::encode_entries(es.take(k)).len() as int;
    let end = codec::encode_entries(es.take(k + 1)).len() as int;
    assert(es.take(k + 1).drop_last() =~= es.take(k));
    assert(es.take(k + 1).last() == es[k]);
    assert(es.take(k + 1) + es.skip(k + 1) =~= es);
    codec::lemma_encode_concat(es.take(k + 1), es.skip(k + 1));
    assert(all.subrange(start, end) =~= codec::encode_entry(es[k]));
}

/// Decoding the encoding of ascending entries from the `k`-th one on gives the entries
/// from there.
proof fn lemma_decodes_from(es: Seq<Entry>, k: int)
    requires
        0 <= k <= es.len(),
        model::ascending(es),
        all_fit(es),
        codec::encode_entries(es).len() <= usize::MAX,
    ensures
        decode_from(
            codec::encode_entries(es),
            codec::encode_entries(es.take(k)).len() as int,
            if k == 0 {
                None
            } else {
                Some(es[k - 1].0)
            },
        ) == Ok::<Seq<Entry>, Error>(es.skip(k)),
    decreases es.len() - k,
{
    let all = codec::encode_entries(es);
    let start = codec::encode_entries(es.take(k)).len() as int;
    if k == es.len() {
        assert(es.take(k) =~= es);
        assert(es.skip(k) =~= seq![]);
    } else {
        lemma_encode_at(es, k);
        codec::lemma_entry_decodes(all, start, es[k], Origin::Run);
        lemma_decodes_from(es, k + 1);
        if k > 0 {
            assert(keys::key_lt(es[k - 1].0, es[k].0));
        }
        assert(seq![es[k]] + es.skip(k + 1) =~= es.skip(k));
    }
}

/// What a writer encodes a reader decodes: the encoding of ascending entries that are
/// within the length cap decodes to those entries.
pub proof fn lemma_block_roundtrip(es: Seq<Entry>)
    requires
        model::ascending(es),
        all_fit(es),
        codec::encode_entries(es).len() <= usize::MAX,
    ensures
        decoded(codec::encode_entries(es)) == Ok::<Seq<Entry>, Error>(es),
{
    lemma_decodes_from(es, 0);
    assert(es.take(0) =~= seq![]);
    assert(es.skip(0) =~= es);
}

/// What decodes from `pos` on is ascending, stays above `prev`, is within the length
/// cap, and the bytes from `pos` on are its encoding.
proof fn lemma_canonical_from(bytes: Seq<u8>, pos: int, prev: Option<Seq<u8>>)
    requires
        0 <= pos <= bytes.len() <= usize::MAX,
        decode_from(bytes, pos, prev) is Ok,
    ensures
        ({
            let es = decode_from(bytes, pos, prev)->Ok_0;
            &&& model::ascending(es)
            &&& all_fit(es)
            &&& prev is Some ==> forall|i: int|
                0 <= i < es.len() ==> keys::key_lt(prev->0, (#[trigger] es[i]).0)
            &&& bytes.skip(pos) == codec::encode_entries(es)
        }),
    decreases bytes.len() - pos,
{
    let es = decode_from(bytes, pos, prev)->Ok_0;
    if pos >= bytes.len() {
        assert(bytes.skip(pos) =~= seq![]);
    } else {
        let (entry, end) = codec::entry_at(bytes, pos, Origin::Run)->Ok_0;
        codec::lemma_entry_canonical(bytes, pos, Origin::Run);
        lemma_canonical_from(bytes, end, Some(entry.0));
        let rest = decode_from(bytes, end, Some(entry.0))->Ok_0;
        keys::lemma_key_order();
        assert(es =~= seq![entry] + rest);
        assert forall|i: int, j: int| #![trigger es[i], es[j]]
            0 <= i < j < es.len() implies keys::key_lt(es[i].0, es[j].0) by {
            assert(es[j] == rest[j - 1]);
            if i > 0 {
                assert(es[i] == rest[i - 1]);
            }
        }
        assert forall|i: int| 0 <= i < es.len() implies codec::entry_fits(#[trigger] es[i]) by {
            if i > 0 {
                assert(es[i] == rest[i - 1]);
            }
        }
        if prev is Some {
            assert forall|i: int| 0 <= i < es.len() implies keys::key_lt(
                prev->0,
                (#[trigger] es[i]).0,
            ) by {
                if i > 0 {
                    assert(es[i] == rest[i - 1]);
                    assert(keys::key_lt(prev->0, entry.0));
                    assert(keys::key_lt(entry.0, rest[i - 1].0));
                }
            }
        }
        codec::lemma_encode_concat(seq![entry], rest);
        assert(seq![entry].drop_last() =~= seq![]);
        assert(codec::encode_entries(seq![entry]) =~= codec::encode_entry(entry)) by {
            reveal_with_fuel(codec::encode_entries, 2);
        }
        assert(bytes.skip(pos) =~= bytes.subrange(pos, end) + bytes.skip(end));
    }
}

/// A decoder accepts nothing but encodings: bytes that decode are the encoding of what
/// they decode to, whose keys ascend strictly and whose lengths are within the cap.
pub proof fn lemma_block_canonical(bytes: Seq<u8>)
    requires
        bytes.len() <= usize::MAX,
        decoded(bytes) is Ok,
    ensures
        model::ascending(decoded(bytes)->Ok_0),
        all_fit(decoded(bytes)->Ok_0),
        codec::encode_entries(decoded(bytes)->Ok_0) == bytes,
{
    lemma_canonical_from(bytes, 0, None);
    assert(bytes.skip(0) =~= bytes);
}

} // verus!
