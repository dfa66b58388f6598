//! The index block and the footer of a run.
//!
//! The index has one handle per data block: `last_key_len u32 · last_key · offset u64 ·
//! len u32 · crc u32`. The footer, the last 36 bytes of the file, is
//! `entry_count u64 · index_offset u64 · index_len u64 · index_crc u32 · magic`.
use vstd::prelude::*;
use crate::codec;
use crate::codec::{Origin, MAX_RECORD_LEN};
use crate::error::{Error, Result};
use crate::keys;

verus! {

/// Length of the magic that opens a run file and closes its footer.
pub const MAGIC_LEN: u64 = 8;

/// Length of the footer.
pub const FOOTER_LEN: u64 = 36;

/// The magic: `LSMTBL01` in ASCII.
pub open spec fn magic() -> Seq<u8> {
    seq![0x4Cu8, 0x53u8, 0x4Du8, 0x54u8, 0x42u8, 0x4Cu8, 0x30u8, 0x31u8]
}

/// Appends the magic.
pub fn write_magic(buf: &mut Vec<u8>)
    ensures
        final(buf)@ == old(buf)@ + magic(),
{
    buf.push(0x4C);
    buf.push(0x53);
    buf.push(0x4D);
    buf.push(0x54);
    buf.push(0x42);
    buf.push(0x4C);
    buf.push(0x30);
    buf.push(0x31);
    assert(buf@ =~= old(buf)@ + magic());
}

/// Whether the eight bytes at `pos` are the magic.
fn has_magic(bytes: &[u8], pos: usize) -> (yes: bool)
    requires
        pos + 8 <= bytes@.len(),
    ensures
        yes == (bytes@.subrange(pos as int, pos + 8) == magic()),
{
    assert(bytes.len() <= usize::MAX);
    let yes = bytes[pos] == 0x4C && bytes[pos + 1] == 0x53 && bytes[pos + 2] == 0x4D && bytes[pos
        + 3] == 0x54 && bytes[pos + 4] == 0x42 && bytes[pos + 5] == 0x4C && bytes[pos + 6] == 0x30
        && bytes[pos + 7] == 0x31;
    proof {
        let s = bytes@.subrange(pos as int, pos + 8);
        if yes {
            assert(s =~= magic());
        } else {
            assert(s[0] == bytes@[pos as int] && s[1] == bytes@[pos + 1] && s[2] == bytes@[pos + 2]
                && s[3] == bytes@[pos + 3] && s[4] == bytes@[pos + 4] && s[5] == bytes@[pos + 5]
                && s[6] == bytes@[pos + 6] && s[7] == bytes@[pos + 7]);
        }
    }
    yes
}

/// One index record: the last key of a data block and where the block lives.
#[derive(Debug)]
pub struct BlockHandle {
    /// The last (largest) key in the block.
    pub last_key: Vec<u8>,
    /// Where the block starts in the file.
    pub offset: u64,
    /// The block's length in bytes.
    pub len: u32,
    /// The checksum of the block's bytes.
    pub crc: u32,
}

/// The value of a [`BlockHandle`].
pub struct Handle {
    /// The last (largest) key in the block.
    pub last_key: Seq<u8>,
    /// Where the block starts in the file.
    pub offset: u64,
    /// The block's length in bytes.
    pub len: u32,
    /// The checksum of the block's bytes.
    pub crc: u32,
}

impl View for BlockHandle {
    type V = Handle;

    open spec fn view(&self) -> Handle {
        Handle { last_key: self.last_key@, offset: self.offset, len: self.len, crc: self.crc }
    }
}

/// The values of a sequence of handles.
pub open spec fn handles(hs: Seq<BlockHandle>) -> Seq<Handle> {
    hs.map_values(|h: BlockHandle| h@)
}

/// The last keys of the blocks ascend strictly.
pub open spec fn handles_ascending(hs: Seq<Handle>) -> bool {
    forall|i: int, j: int|
        #![trigger hs[i], hs[j]]
        0 <= i < j < hs.len() ==> keys::key_lt(hs[i].last_key, hs[j].last_key)
}

/// The handle that starts at `pos` and where it ends, or the first fault in it.
pub open spec fn handle_at(bytes: Seq<u8>, pos: int) -> Result<(Handle, int)> {
    match codec::u32_field(bytes, pos, Origin::Run) {
        Err(e) => Err(e),
        Ok(n) => if n > MAX_RECORD_LEN {
            Err(Error::Corruption { reason: "index key length exceeds maximum" })
        } else {
            match codec::bytes_field(bytes, pos + 4, n as int, Origin::Run) {
                Err(e) => Err(e),
                Ok(last_key) => match codec::u64_field(bytes, pos + 4 + n, Origin::Run) {
                    Err(e) => Err(e),
                    Ok(offset) => match codec::u32_field(bytes, pos + 12 + n, Origin::Run) {
                        Err(e) => Err(e),
                        Ok(len) => match codec::u32_field(bytes, pos + 16 + n, Origin::Run) {
                            Err(e) => Err(e),
                            Ok(crc) => Ok((Handle { last_key, offset, len, crc }, pos + 20 + n)),
                        },
                    },
                },
            }
        },
    }
}

/// Reads the handle at `pos` and moves past it.
fn read_handle(bytes: &[u8], pos: &mut usize) -> (handle: Result<BlockHandle>)
    ensures
        match handle {
            Ok(h) => handle_at(bytes@, *old(pos) as int) == Ok::<(Handle, int), Error>(
                (h@, *final(pos) as int),
            ) && *old(pos) < *final(pos) <= bytes@.len(),
            Err(e) => handle_at(bytes@, *old(pos) as int) == Err::<(Handle, int), Error>(e),
        },
        *final(pos) == *old(pos) || *old(pos) < *final(pos) <= bytes@.len(),
{
    let key_len: u32 = match codec::read_u32(bytes, pos, Origin::Run) {
        Ok(v) => v,
        Err(e) => {
            return Err(e);
        },
    };
    if key_len > MAX_RECORD_LEN {
        return Err(Error::corruption("index key length exceeds maximum"));
    }
    let last_key = match codec::read_bytes(bytes, pos, key_len as usize, Origin::Run) {
        Ok(v) => v,
        Err(e) => {
            return Err(e);
        },
    };
    let offset: u64 = match codec::read_u64(bytes, pos, Origin::Run) {
        Ok(v) => v,
        Err(e) => {
            return Err(e);
        },
    };
    let len: u32 = match codec::read_u32(bytes, pos, Origin::Run) {
        Ok(v) => v,
        Err(e) => {
            return Err(e);
        },
    };
    let crc: u32 = match codec::read_u32(bytes, pos, Origin::Run) {
        Ok(v) => v,
        Err(e) => {
            return Err(e);
        },
    };
    Ok(BlockHandle { last_key, offset, len, crc })
}

/// The handles of the index from `pos` on, or the first fault found from there. `prev`
/// is the last key before `pos`, which the next one has to exceed.
pub open spec fn index_from(bytes: Seq<u8>, pos: int, prev: Option<Seq<u8>>) -> Result<Seq<Handle>>
    decreases bytes.len() - pos,
{
    if pos >= bytes.len() {
        Ok(seq![])
    } else {
        match handle_at(bytes, pos) {
            Err(e) => Err(e),
            Ok((handle, end)) => if prev is Some && !keys::key_lt(prev->0, handle.last_key) {
                Err(Error::Corruption { reason: "index block keys not strictly increasing" })
            } else {
                match index_from(bytes, end, Some(handle.last_key)) {
                    Err(e) => Err(e),
                    Ok(rest) => Ok(seq![handle] + rest),
                }
            },
        }
    }
}

/// The handles of an index block, or the first fault found in it.
pub open spec fn index_of(bytes: Seq<u8>) -> Result<Seq<Handle>> {
    index_from(bytes, 0, None)
}

/// Decodes an index block into block handles, checking bounds and order.
pub fn parse_index(bytes: &[u8]) -> (index: Result<Vec<BlockHandle>>)
    ensures
        match index {
            Ok(v) => index_of(bytes@) == Ok::<Seq<Handle>, Error>(handles(v@)),
            Err(e) => index_of(bytes@) == Err::<Seq<Handle>, Error>(e),
        },
{
    let mut index: Vec<BlockHandle> = Vec::new();
    let mut pos: usize = 0;
    proof {
        assert(handles(index@) =~= seq![]);
    }
    while pos < bytes.len()
        invariant
            pos <= bytes@.len(),
            ({
                let prev = if index@.len() == 0 {
                    None
                } else {
                    Some(index@.last().last_key@)
                };
                match index_from(bytes@, pos as int, prev) {
                    Ok(rest) => index_of(bytes@) == Ok::<Seq<Handle>, Error>(
                        handles(index@) + rest,
                    ),
                    Err(e) => index_of(bytes@) == Err::<Seq<Handle>, Error>(e),
                }
            }),
        decreases bytes@.len() - pos,
    {
        let handle = match read_handle(bytes, &mut pos) {
            Ok(handle) => handle,
            Err(e) => {
                return Err(e);
            },
        };
        if index.len() > 0 {
            if !keys::key_before(
                index[index.len() - 1].last_key.as_slice(),
                handle.last_key.as_slice(),
            ) {
                return Err(Error::corruption("index block keys not strictly increasing"));
            }
        }
        let ghost before = index@;
        index.push(handle);
        proof {
            assert(index@.last() == handle);
            if let Ok(rest) = index_from(bytes@, pos as int, Some(handle.last_key@)) {
                assert(handles(index@) + rest =~= handles(before) + (seq![handle@] + rest));
            }
        }
    }
    proof {
        assert(handles(index@) + seq![] =~= handles(index@));
    }
    Ok(index)
}

/// The bytes of one handle.
pub open spec fn encode_handle(h: Handle) -> Seq<u8> {
    codec::le4(codec::len_prefix(h.last_key.len())) + h.last_key + codec::le8(h.offset)
        + codec::le4(h.len) + codec::le4(h.crc)
}

/// The bytes of an index block.
pub open spec fn encode_index(hs: Seq<Handle>) -> Seq<u8>
    decreases hs.len(),
{
    if hs.len() == 0 {
        seq![]
    } else {
        encode_index(hs.drop_last()) + encode_handle(hs.last())
    }
}

/// Appends the bytes of one handle.
fn write_handle(buf: &mut Vec<u8>, h: &BlockHandle)
    requires
        h.last_key@.len() <= MAX_RECORD_LEN,
    ensures
        final(buf)@ == old(buf)@ + encode_handle(h@),
{
    codec::encode_u32(buf, h.last_key.len() as u32);
    buf.extend_from_slice(h.last_key.as_slice());
    codec::encode_u64(buf, h.offset);
    codec::encode_u32(buf, h.len);
    codec::encode_u32(buf, h.crc);
    assert(buf@ =~= old(buf)@ + encode_handle(h@));
}

/// Encodes an index block.
pub fn write_index(index: &Vec<BlockHandle>) -> (bytes: Vec<u8>)
    requires
        forall|i: int| 0 <= i < index@.len() ==> (#[trigger] index@[i]).last_key@.len()
            <= MAX_RECORD_LEN,
    ensures
        bytes@ == encode_index(handles(index@)),
{
    let mut bytes: Vec<u8> = Vec::new();
    let mut i: usize = 0;
    while i < index.len()
        invariant
            i <= index@.len(),
            forall|k: int| 0 <= k < index@.len() ==> (#[trigger] index@[k]).last_key@.len()
                <= MAX_RECORD_LEN,
            bytes@ == encode_index(handles(index@).take(i as int)),
        decreases index@.len() - i,
    {
        write_handle(&mut bytes, &index[i]);
        proof {
            let hs = handles(index@);
            assert(hs.take(i + 1).drop_last() =~= hs.take(i as int));
            assert(hs.take(i + 1).last() == index@[i as int]@);
        }
        i += 1;
    }
    assert(handles(index@).take(i as int) =~= handles(index@));
    bytes
}

/// Two encoded index parts joined are the encoding of the joined handles.
proof fn lemma_encode_index_concat(a: Seq<Handle>, b: Seq<Handle>)
    ensures
        encode_index(a + b) == encode_index(a) + encode_index(b),
    decreases b.len(),
{
    if b.len() == 0 {
        assert(a + b =~= a);
        assert(encode_index(a) + encode_index(b) =~= encode_index(a));
    } else {
        assert((a + b).drop_last() =~= a + b.drop_last());
        assert((a + b).last() == b.last());
        lemma_encode_index_concat(a, b.drop_last());
        assert(encode_index(a + b) =~= encode_index(a) + encode_index(b));
    }
}

/// An encoded handle is read back at whatever position it stands.
proof fn lemma_handle_decodes(bytes: Seq<u8>, pos: int, h: Handle)
    requires
        0 <= pos,
        bytes.len() <= usize::MAX,
        h.last_key.len() <= MAX_RECORD_LEN,
        pos + encode_handle(h).len() <= bytes.len(),
        bytes.subrange(pos, pos + encode_handle(h).len()) == encode_handle(h),
    ensures
        handle_at(bytes, pos) == Ok::<(Handle, int), Error>((h, pos + encode_handle(h).len())),
{
    let enc = encode_handle(h);
    let s = bytes.subrange(pos, pos + enc.len());
    let n = h.last_key.len() as int;
    codec::lemma_le4_roundtrip(codec::len_prefix(h.last_key.len()));
    codec::lemma_le8_roundtrip(h.offset);
    codec::lemma_le4_roundtrip(h.len);
    codec::lemma_le4_roundtrip(h.crc);
    assert(bytes.subrange(pos, pos + 4) =~= s.subrange(0, 4));
    assert(enc.subrange(0, 4) =~= codec::le4(codec::len_prefix(h.last_key.len())));
    assert(bytes.subrange(pos + 4, pos + 4 + n) =~= s.subrange(4, 4 + n));
    assert(enc.subrange(4, 4 + n) =~= h.last_key);
    assert(bytes.subrange(pos + 4 + n, pos + 12 + n) =~= s.subrange(4 + n, 12 + n));
    assert(enc.subrange(4 + n, 12 + n) =~= codec::le8(h.offset));
    assert(bytes.subrange(pos + 12 + n, pos + 16 + n) =~= s.subrange(12 + n, 16 + n));
    assert(enc.subrange(12 + n, 16 + n) =~= codec::le4(h.len));
    assert(bytes.subrange(pos + 16 + n, pos + 20 + n) =~= s.subrange(16 + n, 20 + n));
    assert(enc.subrange(16 + n, 20 + n) =~= codec::le4(h.crc));
}

/// Reading the encoding of ascending handles from the `k`-th one on gives the handles
/// from there.
proof fn lemma_index_decodes_from(hs: Seq<Handle>, k: int)
    requires
        0 <= k <= hs.len(),
        handles_ascending(hs),
        forall|i: int| 0 <= i < hs.len() ==> (#[trigger] hs[i]).last_key.len() <= MAX_RECORD_LEN,
        encode_index(hs).len() <= usize::MAX,
    ensures
        index_from(
            encode_index(hs),
            encode_index(hs.take(k)).len() as int,
            if k == 0 {
                None
            } else {
                Some(hs[k - 1].last_key)
            },
        ) == Ok::<Seq<Handle>, Error>(hs.skip(k)),
    decreases hs.len() - k,
{
    let all = encode_index(hs);
    let start = encode_index(hs.take(k)).len() as int;
    if k == hs.len() {
        assert(hs.take(k) =~= hs);
        assert(hs.skip(k) =~= seq![]);
    } else {
        let end = encode_index(hs.take(k + 1)).len() as int;
        assert(hs.take(k + 1).drop_last() =~= hs.take(k));
        assert(hs.take(k + 1).last() == hs[k]);
        assert(hs.take(k + 1) + hs.skip(k + 1) =~= hs);
        lemma_encode_index_concat(hs.take(k + 1), hs.skip(k + 1));
        assert(all.subrange(start, end) =~= encode_handle(hs[k]));
        lemma_handle_decodes(all, start, hs[k]);
        lemma_index_decodes_from(hs, k + 1);
        if k > 0 {
            assert(keys::key_lt(hs[k - 1].last_key, hs[k].last_key));
        }
        assert(seq![hs[k]] + hs.skip(k + 1) =~= hs.skip(k));
    }
}

/// An encoded index is read back.
pub proof fn lemma_index_roundtrip(hs: Seq<Handle>)
    requires
        handles_ascending(hs),
        forall|i: int| 0 <= i < hs.len() ==> (#[trigger] hs[i]).last_key.len() <= MAX_RECORD_LEN,
        encode_index(hs).len() <= usize::MAX,
    ensures
        index_of(encode_index(hs)) == Ok::<Seq<Handle>, Error>(hs),
{
    lemma_index_decodes_from(hs, 0);
    assert(hs.take(0) =~= seq![]);
    assert(hs.skip(0) =~= hs);
}

/// Bytes that read as a handle are the encoding of that handle.
proof fn lemma_handle_canonical(bytes: Seq<u8>, pos: int)
    requires
        0 <= pos,
        bytes.len() <= usize::MAX,
        handle_at(bytes, pos) is Ok,
    ensures
        ({
            let (h, end) = handle_at(bytes, pos)->Ok_0;
            &&& h.last_key.len() <= MAX_RECORD_LEN
            &&& pos < end <= bytes.len()
            &&& bytes.subrange(pos, end) == encode_handle(h)
        }),
{
    let (h, end) = handle_at(bytes, pos)->Ok_0;
    let n = h.last_key.len() as int;
    codec::lemma_le4_value_roundtrip(bytes.subrange(pos, pos + 4));
    codec::lemma_le8_value_roundtrip(bytes.subrange(pos + 4 + n, pos + 12 + n));
    codec::lemma_le4_value_roundtrip(bytes.subrange(pos + 12 + n, pos + 16 + n));
    codec::lemma_le4_value_roundtrip(bytes.subrange(pos + 16 + n, pos + 20 + n));
    assert(bytes.subrange(pos, end) =~= bytes.subrange(pos, pos + 4) + bytes.subrange(
        pos + 4,
        pos + 4 + n,
    ) + bytes.subrange(pos + 4 + n, pos + 12 + n) + bytes.subrange(pos + 12 + n, pos + 16 + n)
        + bytes.subrange(pos + 16 + n, pos + 20 + n));
}

/// What reads as an index from `pos` on is within the cap, and the bytes from `pos` on are
/// its encoding.
proof fn lemma_index_canonical_from(bytes: Seq<u8>, pos: int, prev: Option<Seq<u8>>)
    requires
        0 <= pos <= bytes.len() <= usize::MAX,
        index_from(bytes, pos, prev) is Ok,
    ensures
        ({
            let hs = index_from(bytes, pos, prev)->Ok_0;
            &&& bytes.skip(pos) == encode_index(hs)
            &&& forall|i: int|
                0 <= i < hs.len() ==> (#[trigger] hs[i]).last_key.len() <= MAX_RECORD_LEN
        }),
    decreases bytes.len() - pos,
{
    let hs = index_from(bytes, pos, prev)->Ok_0;
    if pos >= bytes.len() {
        assert(bytes.skip(pos) =~= seq![]);
    } else {
        let (h, end) = handle_at(bytes, pos)->Ok_0;
        lemma_handle_canonical(bytes, pos);
        lemma_index_canonical_from(bytes, end, Some(h.last_key));
        let rest = index_from(bytes, end, Some(h.last_key))->Ok_0;
        assert(hs =~= seq![h] + rest);
        assert forall|i: int| 0 <= i < hs.len() implies (#[trigger] hs[i]).last_key.len()
            <= MAX_RECORD_LEN by {
            if i > 0 {
                assert(hs[i] == rest[i - 1]);
            }
        }
        lemma_encode_index_concat(seq![h], rest);
        assert(seq![h].drop_last() =~= seq![]);
        assert(encode_index(seq![h]) =~= encode_handle(h)) by {
            reveal_with_fuel(encode_index, 2);
        }
        assert(bytes.skip(pos) =~= bytes.subrange(pos, end) + bytes.skip(end));
    }
}

/// Bytes that read as an index are the encoding of that index.
pub proof fn lemma_index_canonical(bytes: Seq<u8>)
    requires
        bytes.len() <= usize::MAX,
        index_of(bytes) is Ok,
    ensures
        encode_index(index_of(bytes)->Ok_0) == bytes,
        forall|i: int|
            0 <= i < (index_of(bytes)->Ok_0).len() ==> (#[trigger] (index_of(
                bytes,
            )->Ok_0)[i]).last_key.len() <= MAX_RECORD_LEN,
{
    lemma_index_canonical_from(bytes, 0, None);
    assert(bytes.skip(0) =~= bytes);
}

/// The last keys of a parsed index ascend strictly, and exceed `prev`.
proof fn lemma_index_ascending_from(bytes: Seq<u8>, pos: int, prev: Option<Seq<u8>>)
    requires
        index_from(bytes, pos, prev) is Ok,
    ensures
        handles_ascending(index_from(bytes, pos, prev)->Ok_0),
        prev is Some ==> forall|i: int|
            0 <= i < index_from(bytes, pos, prev)->Ok_0.len() ==> keys::key_lt(
                prev->0,
                (#[trigger] index_from(bytes, pos, prev)->Ok_0[i]).last_key,
            ),
    decreases bytes.len() - pos,
{
    if pos < bytes.len() {
        let hs = index_from(bytes, pos, prev)->Ok_0;
        let (handle, end) = handle_at(bytes, pos)->Ok_0;
        let rest = index_from(bytes, end, Some(handle.last_key))->Ok_0;
        lemma_index_ascending_from(bytes, end, Some(handle.last_key));
        keys::lemma_key_order();
        assert(hs =~= seq![handle] + rest);
        assert forall|i: int, j: int| #![trigger hs[i], hs[j]]
            0 <= i < j < hs.len() implies keys::key_lt(hs[i].last_key, hs[j].last_key) by {
            assert(hs[j] == rest[j - 1]);
            if i > 0 {
                assert(hs[i] == rest[i - 1]);
            }
        }
        if prev is Some {
            assert forall|i: int| 0 <= i < hs.len() implies keys::key_lt(
                prev->0,
                (#[trigger] hs[i]).last_key,
            ) by {
                if i > 0 {
                    assert(hs[i] == rest[i - 1]);
                    assert(keys::key_lt(handle.last_key, rest[i - 1].last_key));
                }
            }
        }
    }
}

/// The last keys of a parsed index ascend strictly.
pub proof fn lemma_index_ascending(bytes: Seq<u8>)
    requires
        index_of(bytes) is Ok,
    ensures
        handles_ascending(index_of(bytes)->Ok_0),
{
    lemma_index_ascending_from(bytes, 0, None);
}

/// The footer of a run.
#[derive(Clone, Copy, Debug)]
pub struct Footer {
    /// The number of entries (values and deletions) in the run.
    pub entry_count: u64,
    /// Where the index block starts; the data blocks end there.
    pub index_offset: u64,
    /// The length of the index block.
    pub index_len: u64,
    /// The checksum of the index block.
    pub index_crc: u32,
}

/// The bytes of a footer.
pub open spec fn encode_footer(f: Footer) -> Seq<u8> {
    codec::le8(f.entry_count) + codec::le8(f.index_offset) + codec::le8(f.index_len) + codec::le4(
        f.index_crc,
    ) + magic()
}

/// The footer that 36 bytes stand for.
pub open spec fn footer_fields(bytes: Seq<u8>) -> Footer {
    Footer {
        entry_count: codec::le8_value(bytes.subrange(0, 8)),
        index_offset: codec::le8_value(bytes.subrange(8, 16)),
        index_len: codec::le8_value(bytes.subrange(16, 24)),
        index_crc: codec::le4_value(bytes.subrange(24, 28)),
    }
}

/// The footer at the end of a file of `file_len` bytes, or the fault: the magic has to
/// be there, and the index has to lie past the header and reach up to the footer.
pub open spec fn footer_of(file_len: int, bytes: Seq<u8>) -> Result<Footer> {
    let f = footer_fields(bytes);
    if bytes.subrange(28, 36) != magic() {
        Err(Error::Corruption { reason: "bad magic; not an lsm-db sorted run" })
    } else if f.index_offset < MAGIC_LEN || f.index_offset + f.index_len != file_len - FOOTER_LEN {
        Err(Error::Corruption { reason: "index extent inconsistent with file size" })
    } else {
        Ok(f)
    }
}

/// Parses and checks the footer of a file of `file_len` bytes.
pub fn parse_footer(file_len: u64, bytes: &[u8]) -> (footer: Result<Footer>)
    requires
        file_len >= FOOTER_LEN,
        bytes@.len() == FOOTER_LEN,
    ensures
        footer == footer_of(file_len as int, bytes@),
{
    if !has_magic(bytes, 28) {
        return Err(Error::corruption("bad magic; not an lsm-db sorted run"));
    }
    let entry_count: u64 = codec::u64_at(bytes, 0);
    let index_offset: u64 = codec::u64_at(bytes, 8);
    let index_len: u64 = codec::u64_at(bytes, 16);
    let index_crc: u32 = codec::u32_at(bytes, 24);
    if index_offset < MAGIC_LEN {
        return Err(Error::corruption("index extent inconsistent with file size"));
    }
    match index_offset.checked_add(index_len) {
        Some(end) => {
            if end != file_len - FOOTER_LEN {
                return Err(Error::corruption("index extent inconsistent with file size"));
            }
        },
        None => {
            return Err(Error::corruption("index extent inconsistent with file size"));
        },
    }
    Ok(Footer { entry_count, index_offset, index_len, index_crc })
}

/// Encodes a footer.
pub fn write_footer(buf: &mut Vec<u8>, f: Footer)
    ensures
        final(buf)@ == old(buf)@ + encode_footer(f),
{
    codec::encode_u64(buf, f.entry_count);
    codec::encode_u64(buf, f.index_offset);
    codec::encode_u64(buf, f.index_len);
    codec::encode_u32(buf, f.index_crc);
    write_magic(buf);
    assert(buf@ =~= old(buf)@ + encode_footer(f));
}

/// An encoded footer is read back.
pub proof fn lemma_footer_roundtrip(f: Footer)
    ensures
        encode_footer(f).len() == FOOTER_LEN,
        footer_fields(encode_footer(f)) == f,
        encode_footer(f).subrange(28, 36) == magic(),
{
    let enc = encode_footer(f);
    codec::lemma_le8_roundtrip(f.entry_count);
    codec::lemma_le8_roundtrip(f.index_offset);
    codec::lemma_le8_roundtrip(f.index_len);
    codec::lemma_le4_roundtrip(f.index_crc);
    assert(enc.subrange(0, 8) =~= codec::le8(f.entry_count));
    assert(enc.subrange(8, 16) =~= codec::le8(f.index_offset));
    assert(enc.subrange(16, 24) =~= codec::le8(f.index_len));
    assert(enc.subrange(24, 28) =~= codec::le4(f.index_crc));
    assert(enc.subrange(28, 36) =~= magic());
}

} // verus!
