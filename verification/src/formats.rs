//! What is stored, byte by byte.
//!
//! The laws here pin the formats of entries, log records, runs, sidecars and the manifest
//! down to bytes, and say that a reader accepts just what a writer may write.
use vstd::prelude::*;
use crate::block;
use crate::bloom;
use crate::checksum;
use crate::codec;
use crate::durability;
use crate::error::{Error, Result};
use crate::index;
use crate::index::{Footer, Handle};
use crate::keys;
use crate::layout;
use crate::manifest;
use crate::manifest::RunList;
use crate::record::Entry;
use crate::recovery;
use crate::recovery::Verdict;
use crate::sstable;
use crate::text;
use crate::writer;

verus! {

/// A number of 32 bits is stored in four bytes, the least significant first, and four bytes
/// are read as that number.
pub proof fn law_numbers_take_four_bytes(v: u32, s: Seq<u8>)
    requires
        s.len() == 4,
    ensures
        codec::le4(v).len() == 4,
        codec::le4(v)[0] + 256 * codec::le4(v)[1] + 65536 * codec::le4(v)[2] + 16777216
            * codec::le4(v)[3] == v,
        codec::le4_value(s) == s[0] + 256 * s[1] + 65536 * s[2] + 16777216 * s[3],
{
    reveal(codec::le4);
    reveal(codec::le4_value);
}

/// A number of 64 bits is stored in eight bytes, the four least significant ones first, and
/// eight bytes are read as that number.
pub proof fn law_numbers_take_eight_bytes(v: u64, s: Seq<u8>)
    requires
        s.len() == 8,
    ensures
        codec::le8(v).len() == 8,
        codec::le8(v)[0] + 256 * codec::le8(v)[1] + 65536 * codec::le8(v)[2] + 16777216
            * codec::le8(v)[3] + 4294967296 * (codec::le8(v)[4] + 256 * codec::le8(v)[5] + 65536
            * codec::le8(v)[6] + 16777216 * codec::le8(v)[7]) == v,
        codec::le8_value(s) == s[0] + 256 * s[1] + 65536 * s[2] + 16777216 * s[3] + 4294967296 * (
        s[4] + 256 * s[5] + 65536 * s[6] + 16777216 * s[7]),
{
    let low = (v % 4294967296) as u32;
    let high = (v / 4294967296) as u32;
    law_numbers_take_four_bytes(low, s.subrange(0, 4));
    law_numbers_take_four_bytes(high, s.subrange(4, 8));
    reveal(codec::le8);
    reveal(codec::le8_value);
    assert(codec::le8(v) =~= codec::le4(low) + codec::le4(high));
}

/// An entry is stored as the length of its key in four bytes, the key, a tag that is 0 for a
/// value and 1 for a deletion, the length of the value in four bytes, and the value.
pub proof fn law_entries_are_stored_as_documented(e: Entry)
    requires
        e.0.len() <= u32::MAX,
        e.1 matches Some(value) ==> value.len() <= u32::MAX,
    ensures
        ({
            let bytes = codec::encode_entry(e);
            let n = e.0.len() as int;
            let size = match e.1 {
                Some(value) => value.len() as int,
                None => 0,
            };
            &&& bytes.len() == 9 + n + size
            &&& bytes[0] + 256 * bytes[1] + 65536 * bytes[2] + 16777216 * bytes[3] == n
            &&& bytes.subrange(4, 4 + n) == e.0
            &&& bytes[4 + n] == (if e.1 is Some {
                0u8
            } else {
                1u8
            })
            &&& bytes[5 + n] + 256 * bytes[6 + n] + 65536 * bytes[7 + n] + 16777216 * bytes[8 + n]
                == size
            &&& e.1 matches Some(value) ==> bytes.skip(9 + n) == value
        }),
{
    let bytes = codec::encode_entry(e);
    let n = e.0.len() as int;
    let some = seq![0u8, 0u8, 0u8, 0u8];
    law_numbers_take_four_bytes(codec::len_prefix(e.0.len()), some);
    assert(bytes.subrange(4, 4 + n) =~= e.0);
    match e.1 {
        Some(value) => {
            law_numbers_take_four_bytes(codec::len_prefix(value.len()), some);
            assert(bytes.skip(9 + n) =~= value);
        },
        None => {
            law_numbers_take_four_bytes(0, some);
        },
    }
}

/// Entries are stored one after the other.
pub proof fn law_entries_follow_each_other(es: Seq<Entry>, e: Entry)
    ensures
        codec::encode_entries(seq![]) == Seq::<u8>::empty(),
        codec::encode_entries(es.push(e)) == codec::encode_entries(es) + codec::encode_entry(e),
{
    assert(es.push(e).drop_last() =~= es);
}

/// An entry is accepted from storage, and handed to storage, just where neither its key nor
/// its value is longer than a gibibyte.
pub proof fn law_entries_are_within_a_gibibyte(e: Entry)
    ensures
        codec::entry_fits(e) <==> e.0.len() <= 1073741824 && (e.1 matches Some(value)
            ==> value.len() <= 1073741824),
        writer::entry_fault(e) is None <==> codec::entry_fits(e),
{
}

/// A data block decodes to some entries exactly if it is those entries, one after the other,
/// their keys ascend strictly and their lengths are within the limit: nothing else is
/// accepted, and nothing of the kind is refused.
pub proof fn law_blocks_decode_to_what_they_encode(bytes: Seq<u8>, es: Seq<Entry>)
    requires
        bytes.len() <= usize::MAX,
    ensures
        block::decoded(bytes) == Ok::<Seq<Entry>, Error>(es) <==> {
            &&& bytes == codec::encode_entries(es)
            &&& forall|i: int, j: int|
                #![trigger es[i], es[j]]
                0 <= i < j < es.len() ==> keys::key_lt(es[i].0, es[j].0)
            &&& forall|i: int|
                0 <= i < es.len() ==> (#[trigger] es[i]).0.len() <= 1073741824 && (
                es[i].1 matches Some(value) ==> value.len() <= 1073741824)
        },
{
    if block::decoded(bytes) is Ok {
        block::lemma_block_canonical(bytes);
        assert forall|i: int| 0 <= i < (block::decoded(bytes)->Ok_0).len() implies (
        #[trigger] (block::decoded(bytes)->Ok_0)[i]).0.len() <= 1073741824 && ((
        block::decoded(bytes)->Ok_0)[i].1 matches Some(value) ==> value.len() <= 1073741824) by {
            law_entries_are_within_a_gibibyte((block::decoded(bytes)->Ok_0)[i]);
        }
    }
    if bytes == codec::encode_entries(es) && (forall|i: int, j: int|
        #![trigger es[i], es[j]]
        0 <= i < j < es.len() ==> keys::key_lt(es[i].0, es[j].0)) && (forall|i: int|
        0 <= i < es.len() ==> (#[trigger] es[i]).0.len() <= 1073741824 && (
        es[i].1 matches Some(value) ==> value.len() <= 1073741824)) {
        assert forall|i: int| 0 <= i < es.len() implies codec::entry_fits(#[trigger] es[i]) by {
            law_entries_are_within_a_gibibyte(es[i]);
        }
        block::lemma_block_roundtrip(es);
    }
}

/// A log record is stored as the number of its operations in four bytes, and the operations
/// one after the other.
pub proof fn law_log_records_are_stored_as_documented(ops: Seq<Entry>)
    requires
        ops.len() <= u32::MAX,
    ensures
        ({
            let bytes = durability::encode_log(ops);
            &&& bytes.len() >= 4
            &&& bytes[0] + 256 * bytes[1] + 65536 * bytes[2] + 16777216 * bytes[3] == ops.len()
            &&& bytes.skip(4) == codec::encode_entries(ops)
        }),
{
    law_numbers_take_four_bytes(codec::len_prefix(ops.len()), seq![0u8, 0u8, 0u8, 0u8]);
    assert(durability::encode_log(ops).skip(4) =~= codec::encode_entries(ops));
}

/// A log record decodes to some operations exactly if it is the record of those operations,
/// and their lengths are within the limit: a record that is cut off, has bytes after its last
/// operation, or is otherwise damaged in its form is refused.
pub proof fn law_log_records_decode_to_what_they_encode(bytes: Seq<u8>, ops: Seq<Entry>)
    requires
        bytes.len() <= usize::MAX,
    ensures
        durability::decoded_log(bytes) == Ok::<Seq<Entry>, Error>(ops) <==> {
            &&& ops.len() <= u32::MAX
            &&& bytes == durability::encode_log(ops)
            &&& forall|i: int|
                0 <= i < ops.len() ==> (#[trigger] ops[i]).0.len() <= 1073741824 && (
                ops[i].1 matches Some(value) ==> value.len() <= 1073741824)
        },
{
    if durability::decoded_log(bytes) is Ok {
        durability::lemma_log_canonical(bytes);
        let found = durability::decoded_log(bytes)->Ok_0;
        assert forall|i: int| 0 <= i < found.len() implies (#[trigger] found[i]).0.len()
            <= 1073741824 && (found[i].1 matches Some(value) ==> value.len() <= 1073741824) by {
            law_entries_are_within_a_gibibyte(found[i]);
        }
    }
    if ops.len() <= u32::MAX && bytes == durability::encode_log(ops) && (forall|i: int|
        0 <= i < ops.len() ==> (#[trigger] ops[i]).0.len() <= 1073741824 && (
        ops[i].1 matches Some(value) ==> value.len() <= 1073741824)) {
        assert forall|i: int| 0 <= i < ops.len() implies codec::entry_fits(#[trigger] ops[i]) by {
            law_entries_are_within_a_gibibyte(ops[i]);
        }
        durability::lemma_log_roundtrip(ops);
    }
}

/// An index record is stored as the length of its key in four bytes, the key, the offset of
/// its block in eight, and the length and the checksum of the block in four each.
pub proof fn law_index_records_are_stored_as_documented(h: Handle)
    requires
        h.last_key.len() <= u32::MAX,
    ensures
        ({
            let bytes = index::encode_handle(h);
            let n = h.last_key.len() as int;
            &&& bytes.len() == 20 + n
            &&& bytes[0] + 256 * bytes[1] + 65536 * bytes[2] + 16777216 * bytes[3] == n
            &&& bytes.subrange(4, 4 + n) == h.last_key
            &&& codec::le8_value(bytes.subrange(4 + n, 12 + n)) == h.offset
            &&& codec::le4_value(bytes.subrange(12 + n, 16 + n)) == h.len
            &&& codec::le4_value(bytes.subrange(16 + n, 20 + n)) == h.crc
        }),
{
    let bytes = index::encode_handle(h);
    let n = h.last_key.len() as int;
    law_numbers_take_four_bytes(codec::len_prefix(h.last_key.len()), seq![0u8, 0u8, 0u8, 0u8]);
    codec::lemma_le8_roundtrip(h.offset);
    codec::lemma_le4_roundtrip(h.len);
    codec::lemma_le4_roundtrip(h.crc);
    assert(bytes.subrange(4, 4 + n) =~= h.last_key);
    assert(bytes.subrange(4 + n, 12 + n) =~= codec::le8(h.offset));
    assert(bytes.subrange(12 + n, 16 + n) =~= codec::le4(h.len));
    assert(bytes.subrange(16 + n, 20 + n) =~= codec::le4(h.crc));
}

/// Index records are stored one after the other.
pub proof fn law_index_records_follow_each_other(hs: Seq<Handle>, h: Handle)
    ensures
        index::encode_index(seq![]) == Seq::<u8>::empty(),
        index::encode_index(hs.push(h)) == index::encode_index(hs) + index::encode_handle(h),
{
    assert(hs.push(h).drop_last() =~= hs);
}

/// An index decodes to some records exactly if it is those records, one after the other, and
/// their keys ascend strictly and are within the limit.
pub proof fn law_indexes_decode_to_what_they_encode(bytes: Seq<u8>, hs: Seq<Handle>)
    requires
        bytes.len() <= usize::MAX,
    ensures
        index::index_of(bytes) == Ok::<Seq<Handle>, Error>(hs) <==> {
            &&& bytes == index::encode_index(hs)
            &&& forall|i: int, j: int|
                #![trigger hs[i], hs[j]]
                0 <= i < j < hs.len() ==> keys::key_lt(hs[i].last_key, hs[j].last_key)
            &&& forall|i: int|
                0 <= i < hs.len() ==> (#[trigger] hs[i]).last_key.len() <= 1073741824
        },
{
    if index::index_of(bytes) is Ok {
        index::lemma_index_canonical(bytes);
        index::lemma_index_ascending(bytes);
    }
    if bytes == index::encode_index(hs) && (forall|i: int, j: int|
        #![trigger hs[i], hs[j]]
        0 <= i < j < hs.len() ==> keys::key_lt(hs[i].last_key, hs[j].last_key)) && (forall|i: int|
        0 <= i < hs.len() ==> (#[trigger] hs[i]).last_key.len() <= 1073741824) {
        index::lemma_index_roundtrip(hs);
    }
}

/// A footer is stored in 36 bytes: the number of entries, the offset and the length of the
/// index in eight bytes each, the checksum of the index in four, and the magic.
pub proof fn law_footers_are_stored_as_documented(f: Footer)
    ensures
        ({
            let bytes = index::encode_footer(f);
            &&& bytes.len() == 36
            &&& codec::le8_value(bytes.subrange(0, 8)) == f.entry_count
            &&& codec::le8_value(bytes.subrange(8, 16)) == f.index_offset
            &&& codec::le8_value(bytes.subrange(16, 24)) == f.index_len
            &&& codec::le4_value(bytes.subrange(24, 28)) == f.index_crc
            &&& bytes.subrange(28, 36) == seq![
                0x4Cu8,
                0x53u8,
                0x4Du8,
                0x54u8,
                0x42u8,
                0x4Cu8,
                0x30u8,
                0x31u8,
            ]
        }),
{
    index::lemma_footer_roundtrip(f);
}

/// A run file opens with the magic; its data blocks follow, one right after the other; its
/// index, which says of every block where it lies, what its checksum is and which key is its
/// last, follows them; and the footer ends the file.
#[verifier::rlimit(60)]
#[verifier::spinoff_prover]
pub proof fn law_runs_are_laid_out_as_documented(es: Seq<Entry>, k: int)
    requires
        crate::model::ascending(es),
        block::all_fit(es),
        layout::run_bytes(es).len() <= usize::MAX,
        0 <= k < layout::blocks_of(es).len(),
    ensures
        ({
            let image = layout::run_bytes(es);
            let bs = layout::blocks_of(es);
            let bytes = codec::encode_entries(bs[k]);
            &&& image.take(8) == seq![
                0x4Cu8,
                0x53u8,
                0x4Du8,
                0x54u8,
                0x42u8,
                0x4Cu8,
                0x30u8,
                0x31u8,
            ]
            &&& sstable::opened(image) matches Ok(t) && {
                let h = t.index[k];
                &&& t.entry_count == es.len()
                &&& t.index.len() == bs.len()
                &&& h.offset == (if k == 0 {
                    8
                } else {
                    t.index[k - 1].offset + t.index[k - 1].len
                })
                &&& k + 1 == bs.len() ==> h.offset + h.len == t.data_end
                &&& h.last_key == bs[k].last().0
                &&& h.crc == checksum::crc32c_of(bytes)
                &&& h.len == bytes.len()
                &&& image.subrange(h.offset as int, h.offset + h.len) == bytes
            }
        }),
{
    let image = layout::run_bytes(es);
    let bs = layout::blocks_of(es);
    let n = bs.len() as int;
    layout::lemma_index_within(es);
    layout::lemma_run_roundtrip(es);
    layout::lemma_written_block(es, k);
    assert(image.take(8) =~= index::magic());
    if k == 0 {
        assert(bs.take(0) =~= seq![]);
    } else {
        layout::lemma_written_block(es, k - 1);
        assert(bs.take(k).drop_last() =~= bs.take(k - 1));
    }
    if k + 1 == n {
        assert(bs.drop_last() =~= bs.take(n - 1));
        assert(layout::data_bytes(bs).len() + 8 <= image.len());
        assert(layout::data_bytes(bs).len() == layout::data_bytes(bs.take(k)).len()
            + codec::encode_entries(bs[k]).len());
    }
}

/// A sidecar is stored as its magic, the checksum of its payload in four bytes, and the
/// payload; and just that is taken for one.
pub proof fn law_sidecars_are_stored_as_documented(payload: Seq<u8>, bytes: Seq<u8>)
    ensures
        ({
            let sidecar = bloom::envelope(payload);
            &&& sidecar.len() == 12 + payload.len()
            &&& sidecar.take(8) == seq![
                0x4Cu8,
                0x53u8,
                0x4Du8,
                0x42u8,
                0x4Cu8,
                0x4Du8,
                0x30u8,
                0x31u8,
            ]
            &&& codec::le4_value(sidecar.subrange(8, 12)) == checksum::crc32c_of(payload)
            &&& sidecar.skip(12) == payload
        }),
        bloom::payload_of(bytes) == Some(payload) <==> bytes == bloom::envelope(payload),
{
    let sidecar = bloom::envelope(payload);
    codec::lemma_le4_roundtrip(checksum::crc32c_of(payload));
    bloom::lemma_envelope(payload);
    assert(sidecar.take(8) =~= bloom::sidecar_magic());
    assert(sidecar.subrange(8, 12) =~= codec::le4(checksum::crc32c_of(payload)));
    assert(sidecar.skip(12) =~= payload);
    if bloom::payload_of(bytes) == Some(payload) {
        codec::lemma_le4_value_roundtrip(bytes.subrange(8, 12));
        assert(bytes =~= bytes.subrange(0, 8) + bytes.subrange(8, 12) + bytes.skip(12));
    }
}

/// A sidecar is named like its run, with `.bloom` after it; a run is named by its number.
pub proof fn law_files_are_named_as_documented(run: Seq<char>, seq: u64)
    ensures
        bloom::sidecar_name(run) == run + ".bloom"@,
        manifest::run_name(seq) == "run-"@ + text::padded(seq as nat) + ".sst"@,
        manifest::seq_in(manifest::run_name(seq)) == Some(seq),
{
    manifest::lemma_run_name_roundtrip(seq);
}

/// A number between `run-` and `.sst` is the name of the run with that number.
pub proof fn law_numbered_names_are_runs(number: Seq<char>)
    ensures
        manifest::seq_in("run-"@ + number + ".sst"@) == text::parsed_u64(number),
{
    reveal_strlit("run-");
    reveal_strlit(".sst");
    let full = "run-"@ + number + ".sst"@;
    assert(full.take(4) =~= "run-"@);
    assert(full.skip(4) =~= number + ".sst"@);
    let rest = number + ".sst"@;
    assert(rest.skip(rest.len() - 4) =~= ".sst"@);
    assert(rest.take(rest.len() - 4) =~= number);
}

/// Only a name with a number between `run-` and `.sst` is that of a run.
pub proof fn law_only_numbered_names_are_runs(name: Seq<char>) -> (number: Seq<char>)
    requires
        manifest::seq_in(name) is Some,
    ensures
        name == "run-"@ + number + ".sst"@,
        text::parsed_u64(number) == manifest::seq_in(name),
{
    reveal_strlit("run-");
    reveal_strlit(".sst");
    let rest = name.skip(4);
    let number = rest.take(rest.len() - 4);
    assert(name =~= "run-"@ + number + ".sst"@);
    number
}

/// A manifest is a header line, a line with the next sequence number, and a line for every
/// live run, newest first.
pub proof fn law_manifests_are_stored_as_documented(
    next_seq: u64,
    runs: Seq<Seq<char>>,
    name: Seq<char>,
)
    ensures
        manifest::manifest_text(RunList { next_seq, runs: seq![] })
            == "LSMDB-MANIFEST v1"@.push('\n') + ("next_seq="@ + text::decimal(
            next_seq as nat,
        )).push('\n'),
        manifest::manifest_text(RunList { next_seq, runs: runs.push(name) })
            == manifest::manifest_text(RunList { next_seq, runs }) + name.push('\n'),
{
    assert(runs.push(name).drop_last() =~= runs);
    assert(manifest::manifest_text(RunList { next_seq, runs: runs.push(name) })
        =~= manifest::manifest_text(RunList { next_seq, runs }) + name.push('\n'));
    assert(manifest::manifest_text(RunList { next_seq, runs: seq![] })
        =~= "LSMDB-MANIFEST v1"@.push('\n') + ("next_seq="@ + text::decimal(
        next_seq as nat,
    )).push('\n'));
}

/// A manifest is read just where its first line is the header and its second gives a number;
/// the runs are the lines after that, but for empty ones.
pub proof fn law_manifests_are_read_as_documented(
    content: Seq<char>,
    number: Seq<char>,
    ls: Seq<Seq<char>>,
    line: Seq<char>,
)
    ensures
        text::lines(content).len() < 2 || text::lines(content)[0] != "LSMDB-MANIFEST v1"@
            ==> manifest::manifest_of(content) is Err,
        text::lines(content).len() >= 2 && text::lines(content)[0] == "LSMDB-MANIFEST v1"@
            && text::lines(content)[1] == "next_seq="@ + number ==> match text::parsed_u64(number) {
            Some(next_seq) => manifest::manifest_of(content) == Ok::<RunList, Error>(
                RunList { next_seq, runs: manifest::nonempty(text::lines(content).skip(2)) },
            ),
            None => manifest::manifest_of(content) is Err,
        },
        manifest::manifest_of(content) is Ok ==> text::lines(content)[1].len() >= 9
            && text::lines(content)[1].take(9) == "next_seq="@,
        manifest::manifest_of(content) matches Err(e) ==> e is Corruption,
        manifest::nonempty(seq![]) == Seq::<Seq<char>>::empty(),
        manifest::nonempty(ls.push(line)) == (if line.len() == 0 {
            manifest::nonempty(ls)
        } else {
            manifest::nonempty(ls).push(line)
        }),
{
    reveal_strlit("next_seq=");
    let second = "next_seq="@ + number;
    assert(second.take(9) =~= "next_seq="@);
    assert(second.skip(9) =~= number);
    assert(ls.push(line).drop_last() =~= ls);
}

/// What is to become of the files of a directory: temporary files go; a sidecar stays just
/// where its run is live; a run stays just where it is live; and every other file stays.
pub proof fn law_files_are_judged_by_their_names(
    live: Seq<Seq<char>>,
    base: Seq<char>,
    name: Seq<char>,
)
    ensures
        recovery::verdict_of(live, base + ".tmp"@) == Verdict::Temporary,
        recovery::verdict_of(live, base + ".bloom"@) == (if live.contains(base) {
            Verdict::Keep
        } else {
            Verdict::OrphanSidecar
        }),
        (name.len() < 4 || name.skip(name.len() - 4) != ".tmp"@) && (name.len() < 6 || name.skip(
            name.len() - 6,
        ) != ".bloom"@) ==> recovery::verdict_of(live, name) == (if manifest::seq_in(name) is Some
            && !live.contains(name) {
            Verdict::OrphanRun
        } else {
            Verdict::Keep
        }),
        recovery::seq_taken(base + ".tmp"@) is None,
        recovery::seq_taken(base + ".bloom"@) is None,
        (name.len() < 4 || name.skip(name.len() - 4) != ".tmp"@) && (name.len() < 6 || name.skip(
            name.len() - 6,
        ) != ".bloom"@) ==> recovery::seq_taken(name) == manifest::seq_in(name),
{
    reveal_strlit(".tmp");
    reveal_strlit(".bloom");
    let temp = base + ".tmp"@;
    assert(temp.skip(temp.len() - 4) =~= ".tmp"@);
    let sidecar = base + ".bloom"@;
    assert(sidecar.skip(sidecar.len() - 6) =~= ".bloom"@);
    assert(sidecar.take(sidecar.len() - 6) =~= base);
    assert(sidecar.skip(sidecar.len() - 4).last() == ".bloom"@[5]);
    assert(".tmp"@.last() == ".tmp"@[3]);
    assert(sidecar.skip(sidecar.len() - 4) != ".tmp"@);
}

/// The next sequence number is past that of every run file in the directory, and not below
/// what the manifest says; and it is no larger than that asks for.
pub proof fn law_sequence_numbers_pass_every_file(seq: u64, listing: Seq<String>, i: int)
    requires
        forall|k: int| 0 <= k < listing.len() ==> recovery::seq_taken((#[trigger] listing[k])@)
            != Some(u64::MAX),
    ensures
        recovery::seq_after(seq, listing) >= seq,
        0 <= i < listing.len() ==> (recovery::seq_taken(listing[i]@) matches Some(taken)
            ==> recovery::seq_after(seq, listing) > taken),
        recovery::seq_after(seq, listing) == seq || exists|k: int|
            0 <= k < listing.len() && recovery::seq_taken((#[trigger] listing[k])@) == Some(
                (recovery::seq_after(seq, listing) - 1) as u64,
            ),
    decreases listing.len(),
{
    if listing.len() > 0 {
        let n = listing.len() as int;
        let before = listing.drop_last();
        assert forall|k: int| 0 <= k < before.len() implies recovery::seq_taken(
            (#[trigger] before[k])@,
        ) != Some(u64::MAX) by {
            assert(listing[k] == before[k]);
        }
        assert(recovery::seq_taken(listing[n - 1]@) != Some(u64::MAX));
        law_sequence_numbers_pass_every_file(seq, before, i);
        let mid = recovery::seq_after(seq, before);
        if mid != seq {
            let k = choose|k: int|
                0 <= k < before.len() && recovery::seq_taken((#[trigger] before[k])@) == Some(
                    (mid - 1) as u64,
                );
            assert(listing[k] == before[k]);
        }
        if 0 <= i < n - 1 {
            assert(listing[i] == before[i]);
        }
    }
}

/// The data blocks of a run are the bytes of its entries, from the magic to the index.
pub proof fn law_the_data_of_a_run_are_its_entries(es: Seq<Entry>)
    requires
        layout::run_bytes(es).len() <= u64::MAX,
    ensures
        layout::table_for(es).data_end == 8 + codec::encode_entries(es).len(),
        layout::run_bytes(es).subrange(8, (8 + codec::encode_entries(es).len()) as int)
            == codec::encode_entries(es),
{
    layout::lemma_blocks_join(es);
    let bytes = codec::encode_entries(es);
    assert(layout::run_bytes(es).len() >= 8 + bytes.len());
    assert(layout::run_bytes(es).subrange(8, (8 + bytes.len()) as int) =~= bytes);
}

/// Entries that are within the limit, and whose run an offset can reach the end of, are
/// written: neither of them nor of their number is anything else asked.
pub proof fn law_entries_that_fit_are_written(es: Seq<Entry>, error: Error)
    requires
        forall|i: int|
            0 <= i < es.len() ==> (#[trigger] es[i]).0.len() <= 1073741824 && (
            es[i].1 matches Some(value) ==> value.len() <= 1073741824),
        8 + codec::encode_entries(es).len() <= u64::MAX,
    ensures
        !crate::flush::build_fault(es, error),
        !writer::overfull(es),
{
    assert forall|i: int| 0 <= i < es.len() implies writer::entry_fault(#[trigger] es[i])
        is None by {
        law_entries_are_within_a_gibibyte(es[i]);
    }
    assert forall|k: int| 0 <= k <= es.len() implies !writer::overfull(
        #[trigger] es.take(k),
    ) by {
        assert(es.take(k) + es.skip(k) =~= es);
        codec::lemma_encode_concat(es.take(k), es.skip(k));
        layout::lemma_blocks_join(es.take(k));
    }
    assert(es.take(es.len() as int) =~= es);
}

/// A chunk of a compaction's output ends with the pair that takes it to its limit: before
/// each pair but the first it was below.
pub proof fn law_chunks_stay_below_their_limit(
    pairs: Seq<crate::model::Pair>,
    from: int,
    skipped: int,
    limit: usize,
    k: int,
)
    requires
        crate::compact::stayed_below(pairs, from, skipped, limit),
        from < k < pairs.len(),
    ensures
        layout::written(crate::model::pair_entries(pairs.take(k))).len() - skipped < limit,
{
}

/// A writer holds back no more than the block that it is filling: what it has handed out, and
/// the entries of that block, are the magic and all the entries it was given. The block holds
/// one entry, or is within the target size.
pub proof fn law_a_writer_holds_back_one_block(es: Seq<Entry>, e: Entry)
    ensures
        layout::written(es) + codec::encode_entries(layout::layout(es).open) == index::magic()
            + codec::encode_entries(es),
        layout::layout(es).open.len() <= 1 || codec::encode_entries(layout::layout(es).open).len()
            <= 4096,
        layout::written(es.push(e)) == layout::written(es) + layout::flushed(es, e),
        layout::written(es) + layout::tail(es) == layout::run_bytes(es),
{
    layout::lemma_blocks_join(es);
    layout::lemma_layout(es);
    layout::lemma_written_push(es, e);
    layout::lemma_written_tail(es);
    assert(layout::written(es) + codec::encode_entries(layout::layout(es).open) =~= index::magic()
        + codec::encode_entries(es));
}

/// Lists of names and of records are taken as they are, in their order.
pub proof fn law_lists_are_taken_in_their_order(names: Seq<String>, records: Seq<Vec<u8>>, i: int)
    ensures
        manifest::names(names).len() == names.len(),
        0 <= i < names.len() ==> manifest::names(names)[i] == names[i]@,
        recovery::records_of(records).len() == records.len(),
        0 <= i < records.len() ==> recovery::records_of(records)[i] == records[i]@,
{
}

} // verus!
