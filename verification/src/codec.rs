//! Little-endian integers and the entry encoding that runs and log records share.
//!
//! An entry is `key_len u32 · key · tag u8 · value_len u32 · value`. The tag is 0 for a
//! value and 1 for a deletion, whose value length is 0.
use vstd::prelude::*;
use crate::error::{Error, Result};
use crate::record;
use crate::record::{Entry, Item, Record};

verus! {

/// Hard cap on a length prefix read from storage, in bytes.
pub const MAX_RECORD_LEN: u32 = 1_073_741_824;

/// Tag byte of a live value.
pub const TAG_VALUE: u8 = 0;

/// Tag byte of a deletion.
pub const TAG_TOMBSTONE: u8 = 1;

/// What kind of stored bytes are being decoded; it decides how a fault is worded.
#[derive(Clone, Copy, Debug, PartialEq, Eq, Structural)]
pub enum Origin {
    /// A block of a sorted run.
    Run,
    /// A record of the write-ahead log.
    Log,
}

impl Origin {
    /// The fault of bytes that end too early.
    pub open spec fn truncated(self) -> Error {
        match self {
            Origin::Run => Error::Corruption { reason: "record truncated" },
            Origin::Log => Error::Corruption { reason: "log record truncated" },
        }
    }

    /// The fault of an extent that no address can reach.
    pub open spec fn overflow(self) -> Error {
        match self {
            Origin::Run => Error::Corruption { reason: "record extent overflows" },
            Origin::Log => Error::Corruption { reason: "log record overflow" },
        }
    }

    /// The fault of a key length over the cap.
    pub open spec fn key_too_long(self) -> Error {
        match self {
            Origin::Run => Error::Corruption { reason: "key length exceeds maximum" },
            Origin::Log => Error::Corruption { reason: "log key length exceeds maximum" },
        }
    }

    /// The fault of a value length over the cap.
    pub open spec fn value_too_long(self) -> Error {
        match self {
            Origin::Run => Error::Corruption { reason: "value length exceeds maximum" },
            Origin::Log => Error::Corruption { reason: "log value length exceeds maximum" },
        }
    }

    /// The fault of a deletion that claims a value.
    pub open spec fn tombstone_value(self) -> Error {
        match self {
            Origin::Run => Error::Corruption { reason: "tombstone with non-zero value length" },
            Origin::Log => Error::Corruption {
                reason: "log tombstone with non-zero value length",
            },
        }
    }

    /// The fault of a tag that is neither a value's nor a deletion's.
    pub open spec fn unknown_tag(self) -> Error {
        match self {
            Origin::Run => Error::Corruption { reason: "unknown record tag" },
            Origin::Log => Error::Corruption { reason: "unknown log record tag" },
        }
    }
}

/// The four bytes of `v`, least significant first.
#[verifier::opaque]
pub open spec fn le4(v: u32) -> Seq<u8> {
    seq![
        (v % 256) as u8,
        (v / 256 % 256) as u8,
        (v / 65536 % 256) as u8,
        (v / 16777216) as u8,
    ]
}

/// The eight bytes of `v`, least significant first.
#[verifier::opaque]
pub open spec fn le8(v: u64) -> Seq<u8> {
    le4((v % 4294967296) as u32) + le4((v / 4294967296) as u32)
}

/// The number that four bytes stand for, least significant first.
#[verifier::opaque]
pub open spec fn le4_value(s: Seq<u8>) -> u32 {
    (s[0] + 256 * s[1] + 65536 * s[2] + 16777216 * s[3]) as u32
}

/// The number that eight bytes stand for, least significant first.
#[verifier::opaque]
pub open spec fn le8_value(s: Seq<u8>) -> u64 {
    (le4_value(s.subrange(0, 4)) + 4294967296 * le4_value(s.subrange(4, 8))) as u64
}

/// Reading back four encoded bytes gives the number.
pub proof fn lemma_le4_roundtrip(v: u32)
    ensures
        le4(v).len() == 4,
        le4_value(le4(v)) == v,
{
    reveal(le4);
    reveal(le4_value);
}

/// Four bytes are the encoding of the number they stand for.
pub proof fn lemma_le4_value_roundtrip(s: Seq<u8>)
    requires
        s.len() == 4,
    ensures
        le4(le4_value(s)) == s,
{
    reveal(le4);
    reveal(le4_value);
    let v = s[0] + 256 * s[1] + 65536 * s[2] + 16777216 * s[3];
    assert(v / 256 == s[1] + 256 * s[2] + 65536 * s[3]);
    assert(v / 65536 == s[2] + 256 * s[3]);
    assert(v / 16777216 == s[3]);
    assert(le4(le4_value(s)) =~= s);
}

/// Eight bytes are the encoding of the number they stand for.
pub proof fn lemma_le8_value_roundtrip(s: Seq<u8>)
    requires
        s.len() == 8,
    ensures
        le8(le8_value(s)) == s,
{
    reveal(le8);
    reveal(le8_value);
    lemma_le4_value_roundtrip(s.subrange(0, 4));
    lemma_le4_value_roundtrip(s.subrange(4, 8));
    let (low, high) = (le4_value(s.subrange(0, 4)), le4_value(s.subrange(4, 8)));
    let v = le8_value(s);
    assert(v == low + 4294967296 * high);
    assert((v % 4294967296) as u32 == low);
    assert((v / 4294967296) as u32 == high);
    assert(le8(v) =~= s);
}

/// Reading back eight encoded bytes gives the number.
pub proof fn lemma_le8_roundtrip(v: u64)
    ensures
        le8(v).len() == 8,
        le8_value(le8(v)) == v,
{
    reveal(le8);
    reveal(le8_value);
    let lo = (v % 4294967296) as u32;
    let hi = (v / 4294967296) as u32;
    lemma_le4_roundtrip(lo);
    lemma_le4_roundtrip(hi);
    assert(le8(v).subrange(0, 4) =~= le4(lo));
    assert(le8(v).subrange(4, 8) =~= le4(hi));
}

/// Appends a `u32`, little-endian.
pub fn encode_u32(buf: &mut Vec<u8>, v: u32)
    ensures
        final(buf)@ == old(buf)@ + le4(v),
{
    proof {
        reveal(le4);
    }
    buf.push((v % 256) as u8);
    buf.push((v / 256 % 256) as u8);
    buf.push((v / 65536 % 256) as u8);
    buf.push((v / 16777216) as u8);
    assert(buf@ =~= old(buf)@ + le4(v));
}

/// Appends a `u64`, little-endian.
pub fn encode_u64(buf: &mut Vec<u8>, v: u64)
    ensures
        final(buf)@ == old(buf)@ + le8(v),
{
    proof {
        reveal(le8);
    }
    encode_u32(buf, (v % 4294967296) as u32);
    encode_u32(buf, (v / 4294967296) as u32);
    assert(buf@ =~= old(buf)@ + le8(v));
}

/// The number that the four bytes at `pos` stand for.
pub fn u32_at(bytes: &[u8], pos: usize) -> (v: u32)
    requires
        pos + 4 <= bytes@.len(),
    ensures
        v == le4_value(bytes@.subrange(pos as int, pos + 4)),
{
    proof {
        reveal(le4_value);
    }
    bytes[pos] as u32 + 256 * (bytes[pos + 1] as u32) + 65536 * (bytes[pos + 2] as u32) + 16777216
        * (bytes[pos + 3] as u32)
}

/// The number that the eight bytes at `pos` stand for.
pub fn u64_at(bytes: &[u8], pos: usize) -> (v: u64)
    requires
        pos + 8 <= bytes@.len(),
    ensures
        v == le8_value(bytes@.subrange(pos as int, pos + 8)),
{
    proof {
        reveal(le8_value);
    }
    assert(bytes.len() <= usize::MAX);
    let lo: u32 = u32_at(bytes, pos);
    let hi: u32 = u32_at(bytes, pos + 4);
    proof {
        let s = bytes@.subrange(pos as int, pos + 8);
        assert(s.subrange(0, 4) =~= bytes@.subrange(pos as int, pos + 4));
        assert(s.subrange(4, 8) =~= bytes@.subrange(pos + 4, pos + 8));
    }
    lo as u64 + 4294967296 * (hi as u64)
}

/// Where a field of `len` bytes at `pos` ends, or why it cannot be read.
pub open spec fn field_end(bytes: Seq<u8>, pos: int, len: int, origin: Origin) -> Result<int> {
    if pos + len > usize::MAX {
        Err(origin.overflow())
    } else if pos + len > bytes.len() {
        Err(origin.truncated())
    } else {
        Ok(pos + len)
    }
}

/// Checks that a field of `len` bytes at `pos` lies within `bytes`; returns its end.
fn read_extent(bytes: &[u8], pos: usize, len: usize, origin: Origin) -> (end: Result<usize>)
    ensures
        match end {
            Ok(e) => field_end(bytes@, pos as int, len as int, origin) == Ok::<int, Error>(e as int)
                && e == pos + len && e <= bytes@.len(),
            Err(e) => field_end(bytes@, pos as int, len as int, origin) == Err::<int, Error>(e),
        },
{
    match pos.checked_add(len) {
        None => Err(
            match origin {
                Origin::Run => Error::corruption("record extent overflows"),
                Origin::Log => Error::corruption("log record overflow"),
            },
        ),
        Some(end) => if end > bytes.len() {
            Err(truncated(origin))
        } else {
            Ok(end)
        },
    }
}

/// The error for bytes that end too early.
fn truncated(origin: Origin) -> (error: Error)
    ensures
        error == origin.truncated(),
{
    match origin {
        Origin::Run => Error::corruption("record truncated"),
        Origin::Log => Error::corruption("log record truncated"),
    }
}

/// The `u8` at `pos`, or the fault.
pub open spec fn u8_field(bytes: Seq<u8>, pos: int, origin: Origin) -> Result<u8> {
    if pos >= bytes.len() {
        Err(origin.truncated())
    } else {
        Ok(bytes[pos])
    }
}

/// The `u32` at `pos`, or the fault.
pub open spec fn u32_field(bytes: Seq<u8>, pos: int, origin: Origin) -> Result<u32> {
    match field_end(bytes, pos, 4, origin) {
        Ok(end) => Ok(le4_value(bytes.subrange(pos, end))),
        Err(e) => Err(e),
    }
}

/// The `u64` at `pos`, or the fault.
pub open spec fn u64_field(bytes: Seq<u8>, pos: int, origin: Origin) -> Result<u64> {
    match field_end(bytes, pos, 8, origin) {
        Ok(end) => Ok(le8_value(bytes.subrange(pos, end))),
        Err(e) => Err(e),
    }
}

/// The `len` bytes at `pos`, or the fault.
pub open spec fn bytes_field(bytes: Seq<u8>, pos: int, len: int, origin: Origin) -> Result<Seq<u8>> {
    match field_end(bytes, pos, len, origin) {
        Ok(end) => Ok(bytes.subrange(pos, end)),
        Err(e) => Err(e),
    }
}

/// Reads one byte and moves past it.
pub fn read_u8(bytes: &[u8], pos: &mut usize, origin: Origin) -> (value: Result<u8>)
    ensures
        value == u8_field(bytes@, *old(pos) as int, origin),
        *final(pos) == (if value is Ok {
            *old(pos) + 1
        } else {
            *old(pos) as int
        }),
        value is Ok ==> *final(pos) <= bytes@.len(),
{
    if *pos >= bytes.len() {
        Err(truncated(origin))
    } else {
        let b = bytes[*pos];
        *pos = *pos + 1;
        Ok(b)
    }
}

/// Reads a `u32` and moves past it.
pub fn read_u32(bytes: &[u8], pos: &mut usize, origin: Origin) -> (value: Result<u32>)
    ensures
        value == u32_field(bytes@, *old(pos) as int, origin),
        *final(pos) == (if value is Ok {
            *old(pos) + 4
        } else {
            *old(pos) as int
        }),
        value is Ok ==> *final(pos) <= bytes@.len(),
{
    match read_extent(bytes, *pos, 4, origin) {
        Ok(end) => {
            let v = u32_at(bytes, *pos);
            *pos = end;
            Ok(v)
        },
        Err(e) => Err(e),
    }
}

/// Reads a `u64` and moves past it.
pub fn read_u64(bytes: &[u8], pos: &mut usize, origin: Origin) -> (value: Result<u64>)
    ensures
        value == u64_field(bytes@, *old(pos) as int, origin),
        *final(pos) == (if value is Ok {
            *old(pos) + 8
        } else {
            *old(pos) as int
        }),
        value is Ok ==> *final(pos) <= bytes@.len(),
{
    match read_extent(bytes, *pos, 8, origin) {
        Ok(end) => {
            let v = u64_at(bytes, *pos);
            *pos = end;
            Ok(v)
        },
        Err(e) => Err(e),
    }
}

/// Reads `len` bytes and moves past them.
pub fn read_bytes(bytes: &[u8], pos: &mut usize, len: usize, origin: Origin) -> (value: Result<
    Vec<u8>,
>)
    ensures
        match value {
            Ok(v) => bytes_field(bytes@, *old(pos) as int, len as int, origin) == Ok::<
                Seq<u8>,
                Error,
            >(v@) && *final(pos) == *old(pos) + len,
            Err(e) => bytes_field(bytes@, *old(pos) as int, len as int, origin) == Err::<
                Seq<u8>,
                Error,
            >(e) && *final(pos) == *old(pos),
        },
        value is Ok ==> *final(pos) <= bytes@.len(),
{
    match read_extent(bytes, *pos, len, origin) {
        Ok(end) => {
            let v = vstd::slice::slice_to_vec(vstd::slice::slice_subrange(bytes, *pos, end));
            *pos = end;
            Ok(v)
        },
        Err(e) => Err(e),
    }
}

/// The value part of an entry at `pos`, after its key: the record and where it ends.
pub open spec fn record_at(bytes: Seq<u8>, pos: int, origin: Origin) -> Result<
    (Option<Seq<u8>>, int),
> {
    match u8_field(bytes, pos, origin) {
        Err(e) => Err(e),
        Ok(tag) => match u32_field(bytes, pos + 1, origin) {
            Err(e) => Err(e),
            Ok(len) => if len > MAX_RECORD_LEN {
                Err(origin.value_too_long())
            } else if tag == TAG_VALUE {
                match bytes_field(bytes, pos + 5, len as int, origin) {
                    Err(e) => Err(e),
                    Ok(value) => Ok((Some(value), pos + 5 + len)),
                }
            } else if tag == TAG_TOMBSTONE {
                if len != 0 {
                    Err(origin.tombstone_value())
                } else {
                    Ok((None, pos + 5))
                }
            } else {
                Err(origin.unknown_tag())
            },
        },
    }
}

/// The entry that starts at `pos` and where it ends, or the first fault in it.
pub open spec fn entry_at(bytes: Seq<u8>, pos: int, origin: Origin) -> Result<(Entry, int)> {
    match u32_field(bytes, pos, origin) {
        Err(e) => Err(e),
        Ok(len) => if len > MAX_RECORD_LEN {
            Err(origin.key_too_long())
        } else {
            match bytes_field(bytes, pos + 4, len as int, origin) {
                Err(e) => Err(e),
                Ok(key) => match record_at(bytes, pos + 4 + len, origin) {
                    Err(e) => Err(e),
                    Ok((record, end)) => Ok(((key, record), end)),
                },
            }
        },
    }
}

/// Reads the entry at `pos` and moves past it.
pub fn read_entry(bytes: &[u8], pos: &mut usize, origin: Origin) -> (item: Result<Item>)
    ensures
        match item {
            Ok(it) => entry_at(bytes@, *old(pos) as int, origin) == Ok::<(Entry, int), Error>(
                (record::entry(it), *final(pos) as int),
            ) && *old(pos) < *final(pos) <= bytes@.len(),
            Err(e) => entry_at(bytes@, *old(pos) as int, origin) == Err::<(Entry, int), Error>(e),
        },
        *final(pos) == *old(pos) || *old(pos) < *final(pos) <= bytes@.len(),
{
    let key_len: u32 = match read_u32(bytes, pos, origin) {
        Ok(v) => v,
        Err(e) => {
            return Err(e);
        },
    };
    if key_len > MAX_RECORD_LEN {
        return Err(
            match origin {
                Origin::Run => Error::corruption("key length exceeds maximum"),
                Origin::Log => Error::corruption("log key length exceeds maximum"),
            },
        );
    }
    let key = match read_bytes(bytes, pos, key_len as usize, origin) {
        Ok(v) => v,
        Err(e) => {
            return Err(e);
        },
    };
    let tag: u8 = match read_u8(bytes, pos, origin) {
        Ok(v) => v,
        Err(e) => {
            return Err(e);
        },
    };
    let value_len: u32 = match read_u32(bytes, pos, origin) {
        Ok(v) => v,
        Err(e) => {
            return Err(e);
        },
    };
    if value_len > MAX_RECORD_LEN {
        return Err(
            match origin {
                Origin::Run => Error::corruption("value length exceeds maximum"),
                Origin::Log => Error::corruption("log value length exceeds maximum"),
            },
        );
    }
    let record = if tag == TAG_VALUE {
        match read_bytes(bytes, pos, value_len as usize, origin) {
            Ok(v) => Record::Value(v),
            Err(e) => {
                return Err(e);
            },
        }
    } else if tag == TAG_TOMBSTONE {
        if value_len != 0 {
            return Err(
                match origin {
                    Origin::Run => Error::corruption("tombstone with non-zero value length"),
                    Origin::Log => Error::corruption("log tombstone with non-zero value length"),
                },
            );
        }
        Record::Tombstone
    } else {
        return Err(
            match origin {
                Origin::Run => Error::corruption("unknown record tag"),
                Origin::Log => Error::corruption("unknown log record tag"),
            },
        );
    };
    Ok((key, record))
}

/// The low 32 bits of a length, which is all its prefix can hold.
pub open spec fn len_prefix(len: nat) -> u32 {
    (len % 4294967296) as u32
}

/// The bytes of one entry.
pub open spec fn encode_entry(e: Entry) -> Seq<u8> {
    le4(len_prefix(e.0.len())) + e.0 + encode_record(e.1)
}

/// The bytes of an entry after its key.
pub open spec fn encode_record(record: Option<Seq<u8>>) -> Seq<u8> {
    match record {
        Some(value) => seq![TAG_VALUE] + le4(len_prefix(value.len())) + value,
        None => seq![TAG_TOMBSTONE] + le4(0),
    }
}

/// The bytes of a sequence of entries, one after the other.
pub open spec fn encode_entries(es: Seq<Entry>) -> Seq<u8>
    decreases es.len(),
{
    if es.len() == 0 {
        seq![]
    } else {
        encode_entries(es.drop_last()) + encode_entry(es.last())
    }
}

/// The lengths of an entry are within the cap on length prefixes.
pub open spec fn entry_fits(e: Entry) -> bool {
    e.0.len() <= MAX_RECORD_LEN && record::value_size(e.1) <= MAX_RECORD_LEN
}

/// The low 32 bits of a length.
pub fn low_u32(len: usize) -> (v: u32)
    ensures
        v == len_prefix(len as nat),
{
    (len as u64 % 4294967296) as u32
}

/// Appends the bytes of one entry.
pub fn write_entry(buf: &mut Vec<u8>, key: &[u8], record: &Record)
    ensures
        final(buf)@ == old(buf)@ + encode_entry((key@, record@)),
{
    encode_u32(buf, low_u32(key.len()));
    buf.extend_from_slice(key);
    match record {
        Record::Value(value) => {
            buf.push(TAG_VALUE);
            encode_u32(buf, low_u32(value.len()));
            buf.extend_from_slice(value.as_slice());
        },
        Record::Tombstone => {
            buf.push(TAG_TOMBSTONE);
            encode_u32(buf, 0);
        },
    }
    assert(buf@ =~= old(buf)@ + encode_entry((key@, record@)));
}

/// The encoding of two runs of entries is the two encodings joined.
pub proof fn lemma_encode_concat(a: Seq<Entry>, b: Seq<Entry>)
    ensures
        encode_entries(a + b) == encode_entries(a) + encode_entries(b),
    decreases b.len(),
{
    if b.len() == 0 {
        assert(a + b =~= a);
        assert(encode_entries(a) + encode_entries(b) =~= encode_entries(a));
    } else {
        assert((a + b).drop_last() =~= a + b.drop_last());
        assert((a + b).last() == b.last());
        lemma_encode_concat(a, b.drop_last());
        assert(encode_entries(a + b) =~= encode_entries(a) + encode_entries(b));
    }
}

/// An encoded record is read back at whatever position it stands.
proof fn lemma_record_decodes(bytes: Seq<u8>, pos: int, record: Option<Seq<u8>>, origin: Origin)
    requires
        0 <= pos,
        bytes.len() <= usize::MAX,
        record::value_size(record) <= MAX_RECORD_LEN,
        pos + encode_record(record).len() <= bytes.len(),
        bytes.subrange(pos, pos + encode_record(record).len()) == encode_record(record),
    ensures
        record_at(bytes, pos, origin) == Ok::<(Option<Seq<u8>>, int), Error>(
            (record, pos + encode_record(record).len()),
        ),
{
    let enc = encode_record(record);
    let s = bytes.subrange(pos, pos + enc.len());
    let size = record::value_size(record);
    lemma_le4_roundtrip(len_prefix(size));
    assert(s[0] == bytes[pos]);
    assert(bytes.subrange(pos + 1, pos + 5) =~= s.subrange(1, 5));
    assert(enc.subrange(1, 5) =~= le4(len_prefix(size)));
    if let Some(value) = record {
        assert(bytes.subrange(pos + 5, pos + 5 + size) =~= s.subrange(5, enc.len() as int));
        assert(enc.subrange(5, enc.len() as int) =~= value);
    }
}

/// An encoded entry is read back at whatever position it stands.
pub proof fn lemma_entry_decodes(bytes: Seq<u8>, pos: int, e: Entry, origin: Origin)
    requires
        0 <= pos,
        bytes.len() <= usize::MAX,
        entry_fits(e),
        pos + encode_entry(e).len() <= bytes.len(),
        bytes.subrange(pos, pos + encode_entry(e).len()) == encode_entry(e),
    ensures
        entry_at(bytes, pos, origin) == Ok::<(Entry, int), Error>(
            (e, pos + encode_entry(e).len()),
        ),
{
    let enc = encode_entry(e);
    let s = bytes.subrange(pos, pos + enc.len());
    let n = e.0.len() as int;
    let r = encode_record(e.1);
    lemma_le4_roundtrip(len_prefix(e.0.len()));
    assert(bytes.subrange(pos, pos + 4) =~= s.subrange(0, 4));
    assert(enc.subrange(0, 4) =~= le4(len_prefix(e.0.len())));
    assert(bytes.subrange(pos + 4, pos + 4 + n) =~= s.subrange(4, 4 + n));
    assert(enc.subrange(4, 4 + n) =~= e.0);
    assert(bytes.subrange(pos + 4 + n, pos + 4 + n + r.len()) =~= s.subrange(
        4 + n,
        enc.len() as int,
    ));
    assert(enc.subrange(4 + n, enc.len() as int) =~= r);
    lemma_record_decodes(bytes, pos + 4 + n, e.1, origin);
}

/// Bytes that read as a record are the encoding of that record.
proof fn lemma_record_canonical(bytes: Seq<u8>, pos: int, origin: Origin)
    requires
        0 <= pos,
        bytes.len() <= usize::MAX,
        record_at(bytes, pos, origin) is Ok,
    ensures
        ({
            let (record, end) = record_at(bytes, pos, origin)->Ok_0;
            &&& record::value_size(record) <= MAX_RECORD_LEN
            &&& pos < end <= bytes.len()
            &&& bytes.subrange(pos, end) == encode_record(record)
        }),
{
    let (record, end) = record_at(bytes, pos, origin)->Ok_0;
    lemma_le4_value_roundtrip(bytes.subrange(pos + 1, pos + 5));
    let s = bytes.subrange(pos, end);
    assert(s =~= seq![bytes[pos]] + bytes.subrange(pos + 1, pos + 5) + bytes.subrange(pos + 5, end));
    if record is None {
        assert(bytes.subrange(pos + 5, end) =~= seq![]);
        assert(s =~= encode_record(record));
    }
}

/// Bytes that read as an entry are the encoding of that entry: no two byte strings
/// read as the same entry.
pub proof fn lemma_entry_canonical(bytes: Seq<u8>, pos: int, origin: Origin)
    requires
        0 <= pos,
        bytes.len() <= usize::MAX,
        entry_at(bytes, pos, origin) is Ok,
    ensures
        ({
            let (e, end) = entry_at(bytes, pos, origin)->Ok_0;
            &&& entry_fits(e)
            &&& pos < end <= bytes.len()
            &&& bytes.subrange(pos, end) == encode_entry(e)
        }),
{
    let (e, end) = entry_at(bytes, pos, origin)->Ok_0;
    let n = e.0.len() as int;
    lemma_le4_value_roundtrip(bytes.subrange(pos, pos + 4));
    lemma_record_canonical(bytes, pos + 4 + n, origin);
    assert(bytes.subrange(pos, end) =~= bytes.subrange(pos, pos + 4) + bytes.subrange(
        pos + 4,
        pos + 4 + n,
    ) + bytes.subrange(pos + 4 + n, end));
}

} // verus!
