//! Writing a sorted run.
//!
//! The writer turns entries into the bytes of a run file. It hands the bytes out as they
//! become final, so a caller can stream them to a file.
use vstd::prelude::*;
use crate::block;
use crate::checksum;
use crate::codec;
use crate::codec::MAX_RECORD_LEN;
use crate::error::{Error, Result};
use crate::index;
use crate::index::{BlockHandle, Footer, MAGIC_LEN};
use crate::keys;
use crate::layout;
use crate::layout::TARGET_BLOCK_SIZE;
use crate::model;
use crate::record;
use crate::record::{Entry, Record};

verus! {

/// Why an entry cannot be written, if it cannot: its key or its value is longer than a
/// length prefix can say, or than a reader accepts.
pub open spec fn entry_fault(e: Entry) -> Option<Error> {
    if e.0.len() > u32::MAX {
        Some(Error::Corruption { reason: "key longer than u32 length prefix" })
    } else if e.0.len() > MAX_RECORD_LEN {
        Some(Error::Corruption { reason: "key length exceeds maximum" })
    } else if record::value_size(e.1) > u32::MAX {
        Some(Error::Corruption { reason: "value longer than u32 length prefix" })
    } else if record::value_size(e.1) > MAX_RECORD_LEN {
        Some(Error::Corruption { reason: "value length exceeds maximum" })
    } else {
        None
    }
}

/// The error for a run whose data blocks would end beyond what an offset can say.
pub open spec fn oversize() -> Error {
    Error::Corruption { reason: "sorted run larger than u64" }
}

/// The blocks written once the open one is closed would end beyond what an offset can
/// say.
pub open spec fn overfull(es: Seq<Entry>) -> bool {
    MAGIC_LEN + layout::data_bytes(layout::layout(es).closed).len() + codec::encode_entries(
        layout::layout(es).open,
    ).len() > u64::MAX
}

/// A writer of one sorted run. Entries have to arrive in strictly ascending key order.
pub struct SsTableWriter {
    offset: u64,
    block_buf: Vec<u8>,
    block_last_key: Vec<u8>,
    blocks: Vec<BlockHandle>,
    entry_count: u64,
    pushed: Ghost<Seq<Entry>>,
}

impl View for SsTableWriter {
    type V = Seq<Entry>;

    /// The entries pushed so far.
    closed spec fn view(&self) -> Seq<Entry> {
        self.pushed@
    }
}

impl SsTableWriter {
    /// The buffered block, the index and the counters are those of the entries pushed.
    pub closed spec fn wf(&self) -> bool {
        let l = layout::layout(self@);
        &&& model::ascending(self@)
        &&& block::all_fit(self@)
        &&& self.block_buf@ == codec::encode_entries(l.open)
        &&& l.open.len() > 0 ==> self.block_last_key@ == l.open.last().0
        &&& index::handles(self.blocks@) == layout::index_for(l.closed)
        &&& self.offset == MAGIC_LEN + layout::data_bytes(l.closed).len()
        &&& self.entry_count == self@.len()
    }

    /// What a well-formed writer has accepted is ascending and within the length cap.
    pub proof fn lemma_accepted(&self)
        requires
            self.wf(),
        ensures
            model::ascending(self@),
            block::all_fit(self@),
    {
    }

    /// Starts a run: hands out the file header.
    pub fn create(out: &mut Vec<u8>) -> (writer: SsTableWriter)
        ensures
            writer.wf(),
            writer@ == Seq::<Entry>::empty(),
            final(out)@ == old(out)@ + layout::written(seq![]),
    {
        index::write_magic(out);
        proof {
            assert(layout::written(seq![]) =~= index::magic());
            assert(layout::index_for(seq![]) =~= seq![]);
        }
        let writer = SsTableWriter {
            offset: MAGIC_LEN,
            block_buf: Vec::new(),
            block_last_key: Vec::new(),
            blocks: Vec::new(),
            entry_count: 0,
            pushed: Ghost(Seq::<Entry>::empty()),
        };
        assert(index::handles(writer.blocks@) =~= seq![]);
        writer
    }

    /// Appends one entry. A block that the entry would overfill is completed first and
    /// handed out.
    pub fn push(&mut self, key: &[u8], record: &Record, out: &mut Vec<u8>) -> (done: Result<()>)
        requires
            old(self).wf(),
            old(self)@.len() > 0 ==> keys::key_lt(old(self)@.last().0, key@),
        ensures
            final(self).wf(),
            match done {
                Ok(_) => {
                    &&& entry_fault((key@, record@)) is None
                    &&& final(self)@ == old(self)@.push((key@, record@))
                    &&& final(out)@ == old(out)@ + layout::flushed(old(self)@, (key@, record@))
                },
                Err(e) => {
                    &&& final(self)@ == old(self)@
                    &&& final(out)@ == old(out)@
                    &&& match entry_fault((key@, record@)) {
                        Some(fault) => e == fault,
                        None => e == oversize() && overfull(old(self)@),
                    }
                },
            },
    {
        if key.len() as u64 > u32::MAX as u64 {
            return Err(Error::corruption("key longer than u32 length prefix"));
        }
        if key.len() as u64 > MAX_RECORD_LEN as u64 {
            return Err(Error::corruption("key length exceeds maximum"));
        }
        let value_len: usize = record.value_len();
        if value_len as u64 > u32::MAX as u64 {
            return Err(Error::corruption("value longer than u32 length prefix"));
        }
        if value_len as u64 > MAX_RECORD_LEN as u64 {
            return Err(Error::corruption("value length exceeds maximum"));
        }
        let ghost es = self@;
        let ghost e = (key@, record@);
        let ghost l = layout::layout(es);
        proof {
            layout::lemma_layout(es);
            layout::lemma_entry_size(e);
            layout::lemma_entries_size(l.open);
        }
        let added: u64 = 9 + key.len() as u64 + value_len as u64;
        if self.block_buf.len() > 0 {
            let full = match (self.block_buf.len() as u64).checked_add(added) {
                None => true,
                Some(size) => size > TARGET_BLOCK_SIZE as u64,
            };
            if full {
                assert(l.open.len() > 0);
                if !self.close_block(out) {
                    return Err(Error::corruption("sorted run larger than u64"));
                }
            } else {
                assert(!layout::closes(l.open, e));
            }
        } else {
            assert(l.open.len() == 0);
        }
        let ghost middle = layout::flushed(es, e);
        proof {
            assert(es.push(e).drop_last() =~= es);
            keys::lemma_key_order();
            let all = es.push(e);
            assert forall|i: int, j: int| #![trigger all[i], all[j]]
                0 <= i < j < all.len() implies keys::key_lt(all[i].0, all[j].0) by {
                if j == es.len() {
                    if i < es.len() - 1 {
                        assert(keys::key_lt(es[i].0, es.last().0));
                    }
                }
            }
            assert forall|i: int| 0 <= i < all.len() implies codec::entry_fits(
                #[trigger] all[i],
            ) by {
                if i < es.len() {
                    assert(codec::entry_fits(es[i]));
                }
            }
            layout::lemma_layout(all);
        }
        codec::write_entry(&mut self.block_buf, key, record);
        self.block_last_key = vstd::slice::slice_to_vec(key);
        proof {
            let open = layout::layout(es.push(e)).open;
            reveal_with_fuel(codec::encode_entries, 2);
            if layout::closes(l.open, e) {
                assert(seq![e].drop_last() =~= seq![]);
                assert(self.block_buf@ =~= codec::encode_entries(open));
            } else {
                assert(l.open.push(e).drop_last() =~= l.open);
                assert(self.block_buf@ =~= codec::encode_entries(open));
            }
            assert(self.entry_count == es.len());
        }
        self.entry_count = self.entry_count + 1;
        self.pushed = Ghost(es.push(e));
        assert(out@ =~= old(out)@ + middle);
        Ok(())
    }

    /// Hands out the buffered block and records it in the index; refuses if the block
    /// would end beyond what an offset can say.
    fn close_block(&mut self, out: &mut Vec<u8>) -> (done: bool)
        requires
            old(self).wf(),
            layout::layout(old(self)@).open.len() > 0,
        ensures
            final(self)@ == old(self)@,
            final(self).entry_count == old(self).entry_count,
            done == !overfull(old(self)@),
            !done ==> *final(self) == *old(self) && final(out)@ == old(out)@,
            done ==> ({
                let l = layout::layout(old(self)@);
                &&& final(self).block_buf@ == Seq::<u8>::empty()
                &&& index::handles(final(self).blocks@) == layout::index_for(
                    l.closed.push(l.open),
                )
                &&& final(self).offset == MAGIC_LEN + layout::data_bytes(
                    l.closed.push(l.open),
                ).len()
                &&& final(out)@ == old(out)@ + codec::encode_entries(l.open)
            }),
    {
        let ghost l = layout::layout(self@);
        let end: u64 = match self.offset.checked_add(self.block_buf.len() as u64) {
            None => {
                return false;
            },
            Some(end) => end,
        };
        proof {
            layout::lemma_layout(self@);
            assert forall|i: int| 0 <= i < l.open.len() implies codec::entry_fits(
                #[trigger] l.open[i],
            ) by {
                let k = layout::flat(l.closed).len() + i;
                assert(l.open[i] == (layout::flat(l.closed) + l.open)[k as int]);
                assert(codec::entry_fits(self@[k as int]));
            }
            layout::lemma_block_len(l.open);
        }
        let crc: u32 = checksum::checksum(self.block_buf.as_slice());
        let len: u32 = self.block_buf.len() as u32;
        let mut last_key: Vec<u8> = Vec::new();
        core::mem::swap(&mut last_key, &mut self.block_last_key);
        let handle = BlockHandle { last_key, offset: self.offset, len, crc };
        let ghost before = self.blocks@;
        self.blocks.push(handle);
        out.extend_from_slice(self.block_buf.as_slice());
        self.offset = end;
        self.block_buf.clear();
        proof {
            let bs = l.closed.push(l.open);
            assert(index::handles(before).len() == before.len());
            assert(layout::index_for(l.closed).len() == l.closed.len());
            assert(bs.drop_last() =~= l.closed);
            assert(out@ =~= old(out)@ + codec::encode_entries(l.open));
            assert(bs.take(l.closed.len() as int) =~= l.closed);
            assert forall|k: int| 0 <= k < bs.len() implies index::handles(self.blocks@)[k]
                == layout::index_for(bs)[k] by {
                if k < l.closed.len() {
                    assert(index::handles(before)[k] == layout::index_for(l.closed)[k]);
                    assert(bs.take(k) =~= l.closed.take(k));
                    assert(bs[k] == l.closed[k]);
                    assert(self.blocks@[k] == before[k]);
                } else {
                    assert(self.blocks@[k] == handle);
                }
            }
            assert(index::handles(self.blocks@) =~= layout::index_for(bs));
        }
        true
    }

    /// Finishes the run: hands out the last block, the index and the footer.
    pub fn finish(self, out: &mut Vec<u8>) -> (done: Result<()>)
        requires
            self.wf(),
        ensures
            match done {
                Ok(_) => final(out)@ == old(out)@ + layout::tail(self@),
                Err(e) => e == oversize() && overfull(self@) && final(out)@ == old(out)@,
            },
    {
        let mut w = self;
        let ghost es = w@;
        let ghost l = layout::layout(es);
        let ghost bs = layout::blocks_of(es);
        proof {
            layout::lemma_layout(es);
            layout::lemma_entries_size(l.open);
            layout::lemma_blocks(es);
        }
        if w.block_buf.len() > 0 {
            assert(l.open.len() > 0);
            if !w.close_block(out) {
                return Err(Error::corruption("sorted run larger than u64"));
            }
        } else {
            assert(l.open.len() == 0);
            assert(codec::encode_entries(l.open) =~= seq![]);
        }
        proof {
            assert(index::handles(w.blocks@).len() == w.blocks@.len());
            assert(layout::index_for(bs).len() == bs.len());
            assert forall|i: int| 0 <= i < w.blocks@.len() implies (#[trigger] w.blocks@[i])
                .last_key@.len() <= MAX_RECORD_LEN by {
                assert(index::handles(w.blocks@)[i] == w.blocks@[i]@);
                assert(layout::index_for(bs)[i].last_key == bs[i].last().0);
                layout::lemma_last_key_fits(es, i);
            }
        }
        let index_bytes = index::write_index(&w.blocks);
        let footer = Footer {
            entry_count: w.entry_count,
            index_offset: w.offset,
            index_len: index_bytes.len() as u64,
            index_crc: checksum::checksum(index_bytes.as_slice()),
        };
        out.extend_from_slice(index_bytes.as_slice());
        index::write_footer(out, footer);
        assert(out@ =~= old(out)@ + layout::tail(es));
        Ok(())
    }
}

} // verus!
