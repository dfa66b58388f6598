//! A cache of decoded data blocks.
//!
//! The cache is divided into shards, so that readers contend less, and each shard evicts
//! by CLOCK: a hand sweeps the slots, passing over those used since its last visit. The
//! capacity counts blocks of an assumed size; a capacity below one block disables the
//! cache.
use std::collections::HashMap;
use std::sync::Arc;
use vstd::prelude::*;
use crate::record::Item;

verus! {

/// A decoded data block: its entries in ascending key order.
pub type DecodedBlock = Vec<Item>;

/// The size a cached block is taken to have.
pub const ASSUMED_BLOCK_BYTES: usize = 4096;

/// The number of shards.
pub const SHARDS: usize = 16;

/// Identifies a block: which run, and which block within it.
#[derive(Clone, Copy, Debug, PartialEq, Eq, Structural)]
pub struct BlockKey {
    /// The run's identity.
    pub run_id: u64,
    /// The block's position in the run.
    pub block_idx: u32,
}

/// The key as one number.
pub open spec fn packed(key: BlockKey) -> u128 {
    (key.run_id * 4294967296 + key.block_idx) as u128
}

impl BlockKey {
    /// The key as one number.
    fn pack(&self) -> (n: u128)
        ensures
            n == packed(*self),
    {
        self.run_id as u128 * 4294967296 + self.block_idx as u128
    }
}

/// No two keys pack to the same number.
proof fn lemma_packed_injective(a: BlockKey, b: BlockKey)
    requires
        packed(a) == packed(b),
    ensures
        a == b,
{
    let (x, y) = (a.run_id * 4294967296 + a.block_idx, b.run_id * 4294967296 + b.block_idx);
    assert(x / 4294967296 == a.run_id);
    assert(y / 4294967296 == b.run_id);
}

/// One resident block in a shard.
#[derive(Debug)]
pub struct Slot {
    key: BlockKey,
    block: Arc<DecodedBlock>,
    referenced: bool,
}

/// One shard: a fixed ring of slots with an eviction hand.
#[derive(Debug)]
pub struct Shard {
    slots: Vec<Option<Slot>>,
    index: HashMap<u128, usize>,
    hand: usize,
}

/// The slot `k` places after `hand` on a ring of `n`.
pub open spec fn ahead(hand: int, k: int, n: int) -> int {
    if hand + k < n {
        hand + k
    } else {
        hand + k - n
    }
}

/// How many places after `hand` slot `j` is on a ring of `n`.
pub open spec fn distance(hand: int, j: int, n: int) -> int {
    if j >= hand {
        j - hand
    } else {
        j + n - hand
    }
}

/// How many slots the hand passes over before it stops, given that it has passed `from`:
/// those used since its last visit, up to a full round.
pub open spec fn passed(marks: Seq<Option<bool>>, hand: int, from: int) -> int
    decreases marks.len() - from,
{
    if from >= marks.len() {
        from
    } else if marks[ahead(hand, from, marks.len() as int)] != Some(true) {
        from
    } else {
        passed(marks, hand, from + 1)
    }
}

/// The slot the hand stops at: the first one that is free or was not used since its last
/// visit, or where it started if all were used.
pub open spec fn victim(marks: Seq<Option<bool>>, hand: int) -> int {
    ahead(hand, passed(marks, hand, 0), marks.len() as int)
}

/// As long as a slot is free, the free slots are those from the hand on.
pub open spec fn filled_in_order(marks: Seq<Option<bool>>, hand: int) -> bool {
    forall|i: int, j: int|
        #![trigger marks[i], marks[j]]
        0 <= i < marks.len() && 0 <= j < marks.len() && marks[i] is None ==> (marks[j] is None
            <==> j >= hand)
}

/// What the hand leaves behind: the slots it passed over count as not used.
pub open spec fn swept(marks: Seq<Option<bool>>, hand: int) -> Seq<Option<bool>> {
    Seq::new(
        marks.len(),
        |j: int|
            if distance(hand, j, marks.len() as int) < passed(marks, hand, 0) {
                Some(false)
            } else {
                marks[j]
            },
    )
}

impl Shard {
    /// What the eviction hand sees of the slots.
    pub closed spec fn marks(&self) -> Seq<Option<bool>> {
        self.slots@.map_values(
            |s: Option<Slot>| match s {
                Some(slot) => Some(slot.referenced),
                None => None,
            },
        )
    }

    /// Where the eviction hand stands.
    pub closed spec fn at(&self) -> int {
        self.hand as int
    }

    /// The keys of the blocks, slot by slot.
    pub closed spec fn held(&self) -> Seq<Option<BlockKey>> {
        self.slots@.map_values(
            |s: Option<Slot>| match s {
                Some(slot) => Some(slot.key),
                None => None,
            },
        )
    }

    /// The key of the block in slot `i`.
    pub open spec fn key_at(&self, i: int) -> BlockKey {
        self.held()[i]->0
    }

    /// The slot of the block with this key.
    pub closed spec fn slot_of(&self, key: BlockKey) -> int {
        self.index@[packed(key)] as int
    }

    /// Every block held is in one slot, and every occupied slot has a block held. The hand
    /// stands on a slot, if there are any.
    pub open spec fn laid_out(&self) -> bool {
        &&& self.held().len() == self.marks().len()
        &&& self.marks().len() > 0 ==> 0 <= self.at() < self.marks().len()
        &&& forall|i: int|
            0 <= i < self.held().len() ==> ((#[trigger] self.held()[i]) is Some
                <==> self.marks()[i] is Some)
        &&& forall|i: int|
            0 <= i < self.held().len() && (#[trigger] self.held()[i]) is Some
                ==> self@.contains_key(self.held()[i]->0) && self.slot_of(self.held()[i]->0) == i
        &&& forall|k: BlockKey| #[trigger]
            self@.contains_key(k) ==> 0 <= self.slot_of(k) < self.held().len()
                && self.held()[self.slot_of(k)] == Some(k)
    }

    /// The slots and the index agree, and the slots fill up in order.
    pub closed spec fn wf(&self) -> bool {
        &&& self.linked()
        &&& filled_in_order(self.marks(), self.at())
    }

    /// The slots and the index agree, and the hand is on a slot.
    spec fn linked(&self) -> bool {
        &&& self.slots@.len() > 0 ==> self.hand < self.slots@.len()
        &&& forall|p: u128| #[trigger]
            self.index@.contains_key(p) ==> self.index@[p] < self.slots@.len()
                && self.slots@[self.index@[p] as int] is Some && packed(
                (self.slots@[self.index@[p] as int]->0).key,
            ) == p
        &&& forall|i: int|
            0 <= i < self.slots@.len() && (#[trigger] self.slots@[i]) is Some
                ==> self.index@.contains_key(packed((self.slots@[i]->0).key)) && self.index@[packed(
                (self.slots@[i]->0).key,
            )] == i
    }
}

impl View for Shard {
    type V = Map<BlockKey, Arc<DecodedBlock>>;

    /// The blocks held, by key.
    closed spec fn view(&self) -> Map<BlockKey, Arc<DecodedBlock>> {
        Map::new(
            |k: BlockKey| self.index@.contains_key(packed(k)),
            |k: BlockKey| (self.slots@[self.index@[packed(k)] as int]->0).block,
        )
    }
}

/// The keys held in some slots.
spec fn keys_in(slots: Seq<Option<Slot>>) -> Set<BlockKey>
    decreases slots.len(),
{
    if slots.len() == 0 {
        Set::empty()
    } else {
        match slots.last() {
            Some(slot) => keys_in(slots.drop_last()).insert(slot.key),
            None => keys_in(slots.drop_last()),
        }
    }
}

/// Slots hold no more keys than there are slots.
proof fn lemma_keys_in(slots: Seq<Option<Slot>>)
    ensures
        keys_in(slots).finite(),
        keys_in(slots).len() <= slots.len(),
        forall|k: BlockKey|
            keys_in(slots).contains(k) <==> exists|i: int|
                0 <= i < slots.len() && (#[trigger] slots[i]) is Some && (slots[i]->0).key == k,
    decreases slots.len(),
{
    if slots.len() > 0 {
        let d = slots.drop_last();
        lemma_keys_in(d);
        assert forall|k: BlockKey|
            keys_in(slots).contains(k) <==> exists|i: int|
                0 <= i < slots.len() && (#[trigger] slots[i]) is Some && (slots[i]->0).key == k by {
            if keys_in(d).contains(k) {
                let i = choose|i: int|
                    0 <= i < d.len() && (#[trigger] d[i]) is Some && (d[i]->0).key == k;
                assert(slots[i] == d[i]);
            }
            if exists|i: int|
                0 <= i < slots.len() && (#[trigger] slots[i]) is Some && (slots[i]->0).key == k {
                let i = choose|i: int|
                    0 <= i < slots.len() && (#[trigger] slots[i]) is Some && (slots[i]->0).key == k;
                if i < d.len() {
                    assert(d[i] == slots[i]);
                } else {
                    assert(slots.last() == slots[i]);
                }
            }
            if slots.last() is Some && (slots.last()->0).key == k {
                assert(slots[slots.len() - 1] is Some);
            }
        }
    }
}

impl Shard {
    /// A shard never holds more blocks than it has slots.
    pub proof fn lemma_bounded(&self)
        requires
            self.wf(),
        ensures
            self@.dom().finite(),
            self@.dom().len() <= self.marks().len(),
    {
        lemma_keys_in(self.slots@);
        assert forall|k: BlockKey| self@.dom().contains(k) <==> keys_in(self.slots@).contains(k) by {
            if self@.dom().contains(k) {
                let i = self.index@[packed(k)] as int;
                lemma_packed_injective((self.slots@[i]->0).key, k);
                assert(self.slots@[i] is Some);
            }
        }
        assert(self@.dom() =~= keys_in(self.slots@));
    }

    /// Every block held is in one slot, and every occupied slot has a block held.
    pub proof fn lemma_laid_out(&self)
        requires
            self.wf(),
        ensures
            self.laid_out(),
    {
        assert forall|i: int|
            0 <= i < self.held().len() && (#[trigger] self.held()[i]) is Some implies
            self@.contains_key(self.held()[i]->0) && self.slot_of(self.held()[i]->0) == i by {
            assert(self.slots@[i] is Some);
        }
        assert forall|k: BlockKey| #[trigger] self@.contains_key(k) implies 0 <= self.slot_of(k)
            < self.held().len() && self.held()[self.slot_of(k)] == Some(k) by {
            lemma_packed_injective((self.slots@[self.slot_of(k)]->0).key, k);
        }
    }

    /// As long as a slot is free, the hand stops at a free one.
    proof fn lemma_next_is_free(&self)
        requires
            self.wf(),
            self.marks().contains(None),
        ensures
            self.marks()[victim(self.marks(), self.at())] is None,
    {
        lemma_fills_in_order(self.marks(), self.at());
    }

    /// Nothing leaves a shard while one of its slots is free: storing a block adds it to
    /// what is there.
    pub proof fn law_nothing_leaves_while_a_slot_is_free(
        was: Shard,
        now: Shard,
        key: BlockKey,
        block: Arc<DecodedBlock>,
    )
        requires
            was.wf(),
            was.marks().contains(None),
            stored(was, now, key, block),
        ensures
            now@ == was@.insert(key, block),
    {
        was.lemma_next_is_free();
    }

    /// An empty shard of `n` slots.
    pub fn with_slots(n: usize) -> (shard: Shard)
        ensures
            shard.wf(),
            shard@ == Map::<BlockKey, Arc<DecodedBlock>>::empty(),
            shard.marks() == Seq::new(n as nat, |i: int| None::<bool>),
            shard.held() == Seq::new(n as nat, |i: int| None::<BlockKey>),
            shard.at() == 0,
            shard.laid_out(),
    {
        broadcast use vstd::std_specs::hash::group_hash_axioms;

        let mut slots: Vec<Option<Slot>> = Vec::new();
        let mut i: usize = 0;
        while i < n
            invariant
                i <= n,
                slots@.len() == i,
                forall|k: int| 0 <= k < i ==> (#[trigger] slots@[k]) is None,
            decreases n - i,
        {
            slots.push(None);
            i += 1;
        }
        let shard = Shard { slots, index: HashMap::new(), hand: 0 };
        assert(shard@ =~= Map::<BlockKey, Arc<DecodedBlock>>::empty());
        assert(shard.marks() =~= Seq::new(n as nat, |i: int| None::<bool>));
        assert(shard.held() =~= Seq::new(n as nat, |i: int| None::<BlockKey>));
        proof {
            shard.lemma_laid_out();
        }
        shard
    }
}

impl Shard {
    /// The block with this key, marked as used.
    pub fn get(&mut self, key: BlockKey) -> (block: Option<Arc<DecodedBlock>>)
        requires
            old(self).wf(),
        ensures
            final(self).wf(),
            final(self).laid_out(),
            used(*old(self), *final(self), key),
            block == (if old(self)@.contains_key(key) {
                Some(old(self)@[key])
            } else {
                None
            }),
    {
        broadcast use vstd::std_specs::hash::group_hash_axioms;

        proof {
            self.lemma_laid_out();
        }
        let ghost before = *self;
        let i: usize = match self.index.get(&key.pack()) {
            Some(i) => *i,
            None => {
                return None;
            },
        };
        let mut hit: Option<Arc<DecodedBlock>> = None;
        match &mut self.slots[i] {
            Some(slot) => {
                slot.referenced = true;
                hit = Some(Arc::clone(&slot.block));
            },
            None => {},
        }
        proof {
            lemma_touched(before, *self, i as int);
            assert(self.marks() =~= before.marks().update(i as int, Some(true)));
            assert(self.held() =~= before.held());
            self.lemma_laid_out();
        }
        hit
    }

    /// The slot to use next: a free one if the hand meets one first, else the first one
    /// not used since the hand last passed.
    fn free_or_evict(&mut self) -> (i: usize)
        requires
            old(self).wf(),
            old(self).marks().len() > 0,
        ensures
            final(self).linked(),
            final(self)@ == old(self)@,
            i == victim(old(self).marks(), old(self).at()),
            i < final(self).slots@.len(),
            final(self).marks() == swept(old(self).marks(), old(self).at()),
            final(self).at() == ahead(i as int, 1, old(self).marks().len() as int),
            final(self).index@ == old(self).index@,
            forall|j: int|
                0 <= j < old(self).slots@.len() ==> same_block(
                    #[trigger] final(self).slots@[j],
                    old(self).slots@[j],
                ),
            final(self).slots@.len() == old(self).slots@.len(),
    {
        let len: usize = self.slots.len();
        let ghost before = *self;
        let ghost marks = self.marks();
        let ghost hand = self.hand as int;
        let ghost n = len as int;
        let ghost mut d: int = 0;
        loop
            invariant
                before == *old(self),
                before.wf(),
                marks == before.marks(),
                hand == before.hand,
                n == len,
                n > 0,
                n == before.slots@.len(),
                0 <= hand < n,
                self.slots@.len() == n,
                0 <= d <= n,
                self.hand == ahead(hand, d, n),
                self.index@ == before.index@,
                passed(marks, hand, 0) == passed(marks, hand, d),
                forall|j: int|
                    0 <= j < n ==> same_block(#[trigger] self.slots@[j], before.slots@[j]),
                forall|j: int|
                    0 <= j < n ==> mark_of(#[trigger] self.slots@[j]) == (if distance(hand, j, n)
                        < d {
                        Some(false)
                    } else {
                        marks[j]
                    }),
            decreases n - d,
        {
            let i: usize = self.hand;
            self.hand = if self.hand + 1 == len {
                0
            } else {
                self.hand + 1
            };
            let mut stop = true;
            let ghost mid = *self;
            match &mut self.slots[i] {
                None => {},
                Some(slot) => {
                    if slot.referenced {
                        slot.referenced = false;
                        stop = false;
                    }
                },
            }
            proof {
                assert(distance(hand, i as int, n) == (if d < n {
                    d
                } else {
                    0
                }));
                assert(mark_of(mid.slots@[i as int]) == (if d < n {
                    marks[i as int]
                } else {
                    Some(false)
                }));
            }
            if stop {
                proof {
                    assert(self.slots@ =~= mid.slots@);
                    assert(passed(marks, hand, 0) == d);
                    lemma_same_blocks(before, *self);
                    assert(self.marks() =~= swept(marks, hand));
                }
                return i;
            }
            proof {
                assert(marks[i as int] == Some(true));
                d = d + 1;
            }
        }
    }

    /// Stores a block under a key, replacing the block that had the key, else evicting
    /// one if no slot is free. A shard without slots stores nothing.
    pub fn insert(&mut self, key: BlockKey, block: Arc<DecodedBlock>)
        requires
            old(self).wf(),
        ensures
            final(self).wf(),
            final(self).laid_out(),
            final(self).marks().len() == old(self).marks().len(),
            stored(*old(self), *final(self), key, block),
    {
        broadcast use vstd::std_specs::hash::group_hash_axioms;

        proof {
            self.lemma_laid_out();
        }
        if self.slots.len() == 0 {
            return;
        }
        let ghost was = *self;
        let ghost n = self.slots@.len() as int;
        let known: Option<usize> = match self.index.get(&key.pack()) {
            Some(i) => Some(*i),
            None => None,
        };
        if let Some(i) = known {
            self.slots[i] = Some(Slot { key, block, referenced: true });
            proof {
                lemma_packed_injective((was.slots@[i as int]->0).key, key);
                lemma_replaced(was, *self, i as int, key, block);
                assert(self.marks() =~= was.marks().update(i as int, Some(true)));
                assert(self.held() =~= was.held());
                assert(was.marks()[i as int] is Some);
                self.lemma_laid_out();
            }
            return;
        }
        let i: usize = self.free_or_evict();
        let ghost mid = *self;
        let mut old_key: Option<BlockKey> = None;
        match &self.slots[i] {
            Some(slot) => {
                old_key = Some(slot.key);
            },
            None => {},
        }
        if let Some(k) = old_key {
            let _ = self.index.remove(&k.pack());
        }
        self.slots[i] = Some(Slot { key, block, referenced: true });
        let _ = self.index.insert(key.pack(), i);
        proof {
            assert(same_block(mid.slots@[i as int], was.slots@[i as int]));
            lemma_placed(mid, *self, i, key, block, old_key);
            assert(self.marks() =~= mid.marks().update(i as int, Some(true)));
            assert(was.marks()[i as int] is Some == old_key is Some);
            assert forall|j: int| 0 <= j < was.held().len() && j != i implies self.held()[j]
                == #[trigger] was.held()[j] by {
                assert(same_block(mid.slots@[j], was.slots@[j]));
            }
            assert(self.held() =~= was.held().update(i as int, Some(key)));
            lemma_fills_in_order(was.marks(), was.at());
            self.lemma_laid_out();
        }
    }
}

/// What looking a key up does to a shard: its block, if there is one, counts as used.
pub open spec fn used(was: Shard, now: Shard, key: BlockKey) -> bool {
    &&& now@ == was@
    &&& now.held() == was.held()
    &&& now.at() == was.at()
    &&& now.marks().len() == was.marks().len()
    &&& if was@.contains_key(key) {
        &&& 0 <= was.slot_of(key) < was.marks().len()
        &&& now.marks() == was.marks().update(was.slot_of(key), Some(true))
    } else {
        now.marks() == was.marks()
    }
}

/// What storing a block under a key does to a shard. Without slots nothing is stored.
/// A block that has the key is replaced where it is. Else the block goes where the hand
/// stops, and what was there leaves.
pub open spec fn stored(was: Shard, now: Shard, key: BlockKey, block: Arc<DecodedBlock>) -> bool {
    let v = victim(was.marks(), was.at());
    if was.marks().len() == 0 {
        &&& now@ == was@
        &&& now.held() == was.held()
        &&& now.marks() == was.marks()
        &&& now.at() == was.at()
    } else if was@.contains_key(key) {
        &&& now@ == was@.insert(key, block)
        &&& now.held() == was.held()
        &&& now.marks() == was.marks().update(was.slot_of(key), Some(true))
        &&& now.at() == was.at()
    } else {
        &&& now@ == (if was.marks()[v] is Some {
            was@.remove(was.key_at(v))
        } else {
            was@
        }).insert(key, block)
        &&& now.held() == was.held().update(v, Some(key))
        &&& now.marks() == swept(was.marks(), was.at()).update(v, Some(true))
        &&& now.at() == ahead(v, 1, was.marks().len() as int)
    }
}

/// The hand stops on a slot.
proof fn lemma_victim(marks: Seq<Option<bool>>, hand: int, from: int)
    requires
        0 <= hand < marks.len(),
        0 <= from <= marks.len(),
    ensures
        from <= passed(marks, hand, from) <= marks.len(),
    decreases marks.len() - from,
{
    if from < marks.len() && marks[ahead(hand, from, marks.len() as int)] == Some(true) {
        lemma_victim(marks, hand, from + 1);
    }
}

/// The slot where the hand stops is the next to fill, as long as one is free.
proof fn lemma_fills_in_order(marks: Seq<Option<bool>>, hand: int)
    requires
        0 <= hand < marks.len(),
        filled_in_order(marks, hand),
    ensures
        filled_in_order(
            swept(marks, hand).update(victim(marks, hand), Some(true)),
            ahead(victim(marks, hand), 1, marks.len() as int),
        ),
        marks.contains(None) ==> marks[victim(marks, hand)] is None,
{
    let n = marks.len() as int;
    let v = victim(marks, hand);
    lemma_victim(marks, hand, 0);
    if exists|i: int| 0 <= i < n && (#[trigger] marks[i]) is None {
        let i = choose|i: int| 0 <= i < n && (#[trigger] marks[i]) is None;
        assert(marks[hand] is None);
        assert(v == hand);
        assert(swept(marks, hand) =~= marks);
    }
}

/// The mark of a slot.
spec fn mark_of(slot: Option<Slot>) -> Option<bool> {
    match slot {
        Some(s) => Some(s.referenced),
        None => None,
    }
}

/// The slots hold the same block under the same key, whatever their marks.
spec fn same_block(a: Option<Slot>, b: Option<Slot>) -> bool {
    match (a, b) {
        (Some(x), Some(y)) => x.key == y.key && x.block == y.block,
        (None, None) => true,
        _ => false,
    }
}

/// Shards whose slots differ in their marks only hold the same blocks.
proof fn lemma_same_blocks(a: Shard, b: Shard)
    requires
        a.linked(),
        b.index@ == a.index@,
        b.slots@.len() == a.slots@.len(),
        b.slots@.len() > 0 ==> b.hand < b.slots@.len(),
        forall|j: int| 0 <= j < a.slots@.len() ==> same_block(#[trigger] b.slots@[j], a.slots@[j]),
    ensures
        b.linked(),
        b@ == a@,
{
    assert forall|p: u128| #[trigger] b.index@.contains_key(p) implies b.index@[p] < b.slots@.len()
        && b.slots@[b.index@[p] as int] is Some && packed((b.slots@[b.index@[p] as int]->0).key)
        == p by {
        assert(a.index@.contains_key(p));
        assert(same_block(b.slots@[b.index@[p] as int], a.slots@[b.index@[p] as int]));
    }
    assert forall|i: int| 0 <= i < b.slots@.len() && (#[trigger] b.slots@[i]) is Some implies
        b.index@.contains_key(packed((b.slots@[i]->0).key)) && b.index@[packed(
        (b.slots@[i]->0).key,
    )] == i by {
        assert(same_block(b.slots@[i], a.slots@[i]));
        assert(a.slots@[i] is Some);
    }
    assert(b@ =~= a@) by {
        assert forall|k: BlockKey| a@.contains_key(k) implies b@[k] == a@[k] by {
            let i = a.index@[packed(k)] as int;
            assert(a.index@.contains_key(packed(k)));
            assert(same_block(b.slots@[i], a.slots@[i]));
        }
    }
}

/// Marking the block in one slot leaves the blocks alone.
proof fn lemma_touched(a: Shard, b: Shard, i: int)
    requires
        a.linked(),
        b.index@ == a.index@,
        b.hand == a.hand,
        0 <= i < a.slots@.len(),
        a.slots@[i] is Some,
        b.slots@ == a.slots@.update(
            i,
            Some(Slot { key: (a.slots@[i]->0).key, block: (a.slots@[i]->0).block, referenced: true }),
        ),
    ensures
        b.linked(),
        b@ == a@,
{
    assert forall|j: int| 0 <= j < a.slots@.len() implies same_block(
        #[trigger] b.slots@[j],
        a.slots@[j],
    ) by {}
    lemma_same_blocks(a, b);
}

/// Replacing the block in the slot of its key.
proof fn lemma_replaced(a: Shard, b: Shard, i: int, key: BlockKey, block: Arc<DecodedBlock>)
    requires
        a.linked(),
        b.index@ == a.index@,
        b.hand == a.hand,
        0 <= i < a.slots@.len(),
        a.index@.contains_key(packed(key)),
        a.index@[packed(key)] == i,
        b.slots@ == a.slots@.update(i, Some(Slot { key, block, referenced: true })),
    ensures
        b.linked(),
        b@ == a@.insert(key, block),
{
    assert(a.slots@[i] is Some);
    lemma_packed_injective((a.slots@[i]->0).key, key);
    assert forall|p: u128| #[trigger] b.index@.contains_key(p) implies b.index@[p] < b.slots@.len()
        && b.slots@[b.index@[p] as int] is Some && packed((b.slots@[b.index@[p] as int]->0).key)
        == p by {
        assert(a.index@.contains_key(p));
    }
    assert forall|j: int| 0 <= j < b.slots@.len() && (#[trigger] b.slots@[j]) is Some implies
        b.index@.contains_key(packed((b.slots@[j]->0).key)) && b.index@[packed(
        (b.slots@[j]->0).key,
    )] == j by {
        if j != i {
            assert(a.slots@[j] is Some);
        }
    }
    assert(b@ =~= a@.insert(key, block)) by {
        assert forall|k: BlockKey| b@.contains_key(k) implies b@[k] == a@.insert(key, block)[k] by {
            if k != key {
                let j = a.index@[packed(k)] as int;
                assert(a.index@.contains_key(packed(k)));
                if j == i {
                    lemma_packed_injective(k, key);
                }
            }
        }
    }
}

/// Placing a block in a slot whose previous block, if any, left the index.
proof fn lemma_placed(
    a: Shard,
    b: Shard,
    at: usize,
    key: BlockKey,
    block: Arc<DecodedBlock>,
    gone: Option<BlockKey>,
)
    requires
        a.linked(),
        !a.index@.contains_key(packed(key)),
        at < a.slots@.len(),
        b.hand == a.hand,
        b.slots@ == a.slots@.update(at as int, Some(Slot { key, block, referenced: true })),
        gone == (match a.slots@[at as int] {
            Some(slot) => Some(slot.key),
            None => None,
        }),
        b.index@ == (match gone {
            Some(k) => a.index@.remove(packed(k)),
            None => a.index@,
        }).insert(packed(key), at),
    ensures
        b.linked(),
        b@ == (match gone {
            Some(k) => a@.remove(k),
            None => a@,
        }).insert(key, block),
{
    let i = at as int;
    assert forall|p: u128| #[trigger] b.index@.contains_key(p) implies b.index@[p] < b.slots@.len()
        && b.slots@[b.index@[p] as int] is Some && packed((b.slots@[b.index@[p] as int]->0).key)
        == p by {
        if p != packed(key) {
            assert(a.index@.contains_key(p));
            assert(a.index@[p] != i);
        }
    }
    assert forall|j: int| 0 <= j < b.slots@.len() && (#[trigger] b.slots@[j]) is Some implies
        b.index@.contains_key(packed((b.slots@[j]->0).key)) && b.index@[packed(
        (b.slots@[j]->0).key,
    )] == j by {
        if j != i {
            assert(a.slots@[j] is Some);
            let p = packed((a.slots@[j]->0).key);
            assert(a.index@[p] == j);
            if gone is Some {
                assert(a.slots@[i] is Some);
                assert(a.index@[packed(gone->0)] == i);
            }
        }
    }
    let want = (match gone {
        Some(k) => a@.remove(k),
        None => a@,
    }).insert(key, block);
    assert forall|k: BlockKey| b@.contains_key(k) <==> want.contains_key(k) by {
        if gone is Some && packed(k) == packed(gone->0) {
            lemma_packed_injective(k, gone->0);
        }
        if packed(k) == packed(key) {
            lemma_packed_injective(k, key);
        }
    }
    assert forall|k: BlockKey| b@.contains_key(k) implies b@[k] == want[k] by {
        if packed(k) == packed(key) {
            lemma_packed_injective(k, key);
        } else {
            let p = packed(k);
            assert(a.index@.contains_key(p));
            assert(a.index@[p] != i) by {
                if a.index@[p] == i {
                    assert(a.slots@[i] is Some);
                    assert(packed((a.slots@[i]->0).key) == p);
                }
            }
        }
    }
    assert(b@ =~= want);
}

/// The key mixed to a number whose low bits select the shard.
pub open spec fn mixed(key: BlockKey) -> u64 {
    key.run_id.wrapping_mul(0x9E37_79B9_7F4A_7C15) ^ (key.block_idx as u64).wrapping_mul(
        0xC2B2_AE3D_27D4_EB4F,
    )
}

/// The shard that a key belongs to.
#[verifier::opaque]
pub open spec fn shard_of(key: BlockKey) -> int {
    (mixed(key) & 15) as int
}

/// The shard that a key belongs to.
pub fn shard_index(key: BlockKey) -> (i: usize)
    ensures
        i == shard_of(key),
        i < SHARDS,
{
    proof {
        reveal(shard_of);
    }
    let h: u64 = key.run_id.wrapping_mul(0x9E37_79B9_7F4A_7C15) ^ (
    key.block_idx as u64).wrapping_mul(0xC2B2_AE3D_27D4_EB4F);
    assert(h & 15 < 16) by (bit_vector);
    (h & 15) as usize
}

/// The slots of each shard of a cache of `capacity` bytes: enough for the blocks that fit
/// the capacity, divided evenly and rounded up, and none if not even one block fits.
pub open spec fn slots_per_shard(capacity: nat) -> nat {
    let total = capacity / ASSUMED_BLOCK_BYTES as nat;
    if total == 0 {
        0
    } else {
        ((total + SHARDS - 1) / SHARDS as int) as nat
    }
}

/// A cache of decoded data blocks, shared by the runs of one engine.
#[derive(Debug)]
pub struct BlockCache {
    shards: Vec<Shard>,
}

impl View for BlockCache {
    type V = Map<BlockKey, Arc<DecodedBlock>>;

    /// The blocks held, by key.
    open spec fn view(&self) -> Map<BlockKey, Arc<DecodedBlock>> {
        Map::new(
            |k: BlockKey| self.parts()[shard_of(k)]@.contains_key(k),
            |k: BlockKey| self.parts()[shard_of(k)]@[k],
        )
    }
}

impl BlockCache {
    /// The shards, as they are.
    pub closed spec fn parts(&self) -> Seq<Shard> {
        self.shards@
    }

    /// The number of slots of each shard; without slots the cache is disabled.
    pub open spec fn slots(&self) -> nat {
        self.parts()[0].marks().len()
    }

    /// The shards are well-formed, of the same size, and hold only keys that belong to
    /// them.
    pub open spec fn wf(&self) -> bool {
        &&& self.parts().len() == SHARDS
        &&& forall|i: int|
            0 <= i < SHARDS ==> (#[trigger] self.parts()[i]).wf() && self.parts()[i].marks().len()
                == self.parts()[0].marks().len()
        &&& forall|i: int, k: BlockKey|
            0 <= i < SHARDS && #[trigger] self.parts()[i]@.contains_key(k) ==> shard_of(k) == i
    }

    /// The key whose block has to leave for a block stored under `key`, if one has to.
    pub open spec fn evicts(&self, key: BlockKey) -> Option<BlockKey> {
        let shard = self.parts()[shard_of(key)];
        let v = victim(shard.marks(), shard.at());
        if shard@.contains_key(key) || shard.marks()[v] is None {
            None
        } else {
            Some(shard.key_at(v))
        }
    }

    /// An empty cache that holds roughly `capacity_bytes` of decoded blocks.
    pub fn new(capacity_bytes: usize) -> (cache: BlockCache)
        ensures
            cache.wf(),
            cache@ == Map::<BlockKey, Arc<DecodedBlock>>::empty(),
            cache.slots() == slots_per_shard(capacity_bytes as nat),
            forall|i: int|
                0 <= i < SHARDS ==> (#[trigger] cache.parts()[i]).at() == 0
                    && cache.parts()[i].marks() == Seq::new(cache.slots(), |j: int| None::<bool>)
                    && cache.parts()[i].held() == Seq::new(
                    cache.slots(),
                    |j: int| None::<BlockKey>,
                ),
    {
        let total: usize = capacity_bytes / ASSUMED_BLOCK_BYTES;
        let per_shard: usize = if total > 0 {
            (total - 1) / SHARDS + 1
        } else {
            0
        };
        let mut shards: Vec<Shard> = Vec::new();
        let mut i: usize = 0;
        while i < SHARDS
            invariant
                i <= SHARDS,
                shards@.len() == i,
                forall|k: int|
                    0 <= k < i ==> (#[trigger] shards@[k]).wf() && shards@[k]@ == Map::<
                        BlockKey,
                        Arc<DecodedBlock>,
                    >::empty() && shards@[k].at() == 0 && shards@[k].marks() == Seq::new(
                        per_shard as nat,
                        |j: int| None::<bool>,
                    ) && shards@[k].held() == Seq::new(
                        per_shard as nat,
                        |j: int| None::<BlockKey>,
                    ),
            decreases SHARDS - i,
        {
            shards.push(Shard::with_slots(per_shard));
            i += 1;
        }
        let cache = BlockCache { shards };
        proof {
            assert forall|k: BlockKey| 0 <= #[trigger] shard_of(k) < SHARDS by {
                lemma_shard_in_range(k);
            }
            assert(cache@ =~= Map::<BlockKey, Arc<DecodedBlock>>::empty());
        }
        cache
    }

    /// The block with this key, marked as used.
    pub fn get(&mut self, key: BlockKey) -> (block: Option<Arc<DecodedBlock>>)
        requires
            old(self).wf(),
        ensures
            final(self).wf(),
            final(self)@ == old(self)@,
            final(self).slots() == old(self).slots(),
            used(old(self).parts()[shard_of(key)], final(self).parts()[shard_of(key)], key),
            forall|i: int|
                0 <= i < SHARDS && i != shard_of(key) ==> #[trigger] final(self).parts()[i]
                    == old(self).parts()[i],
            block == (if old(self)@.contains_key(key) {
                Some(old(self)@[key])
            } else {
                None
            }),
    {
        let ghost before = *self;
        let i: usize = shard_index(key);
        let block = self.shards[i].get(key);
        proof {
            assert forall|k: BlockKey| 0 <= #[trigger] shard_of(k) < SHARDS by {
                lemma_shard_in_range(k);
            }
            assert(self@ =~= before@);
        }
        block
    }

    /// Stores a decoded block, unless the cache is disabled.
    pub fn insert(&mut self, key: BlockKey, block: Arc<DecodedBlock>)
        requires
            old(self).wf(),
        ensures
            final(self).wf(),
            final(self).slots() == old(self).slots(),
            final(self)@ == (if old(self).slots() == 0 {
                old(self)@
            } else {
                (match old(self).evicts(key) {
                    Some(k) => old(self)@.remove(k),
                    None => old(self)@,
                }).insert(key, block)
            }),
            stored(
                old(self).parts()[shard_of(key)],
                final(self).parts()[shard_of(key)],
                key,
                block,
            ),
            forall|i: int|
                0 <= i < SHARDS && i != shard_of(key) ==> #[trigger] final(self).parts()[i]
                    == old(self).parts()[i],
    {
        let ghost before = *self;
        let i: usize = shard_index(key);
        self.shards[i].insert(key, block);
        proof {
            assert forall|k: BlockKey| 0 <= #[trigger] shard_of(k) < SHARDS by {
                lemma_shard_in_range(k);
            }
            let shard = before.shards@[i as int];
            let now = self.shards@[i as int];
            assert forall|j: int, k: BlockKey|
                0 <= j < SHARDS && #[trigger] self.shards@[j]@.contains_key(k) implies shard_of(k)
                == j by {
                if j != i {
                    assert(before.shards@[j]@.contains_key(k));
                } else if k != key {
                    assert(shard@.contains_key(k));
                }
            }
            if before.slots() > 0 {
                let v = victim(shard.marks(), shard.at());
                shard.lemma_laid_out();
                lemma_victim(shard.marks(), shard.at(), 0);
                if before.evicts(key) is Some {
                    assert(shard.held()[v] is Some);
                    assert(shard_of(shard.key_at(v)) == i);
                }
                let want = (match before.evicts(key) {
                    Some(k) => before@.remove(k),
                    None => before@,
                }).insert(key, block);
                assert forall|k: BlockKey| self@.contains_key(k) <==> want.contains_key(k) by {
                    if shard_of(k) != i {
                        assert(self.shards@[shard_of(k)] == before.shards@[shard_of(k)]);
                    }
                }
                assert forall|k: BlockKey| self@.contains_key(k) implies self@[k] == want[k] by {
                    if shard_of(k) != i {
                        assert(self.shards@[shard_of(k)] == before.shards@[shard_of(k)]);
                    }
                }
                assert(self@ =~= want);
            } else {
                assert(self@ =~= before@);
            }
        }
    }

    /// Nothing leaves a shard while one of its slots is free: whatever is stored comes on
    /// top of what is there.
    pub proof fn law_nothing_leaves_while_a_slot_is_free(&self, key: BlockKey)
        requires
            self.wf(),
            self.parts()[shard_of(key)].marks().contains(None),
        ensures
            self.evicts(key) is None,
    {
        lemma_shard_in_range(key);
        self.parts()[shard_of(key)].lemma_next_is_free();
    }

    /// The shards, to be locked one by one.
    pub fn into_shards(self) -> (shards: Vec<Shard>)
        requires
            self.wf(),
        ensures
            shards@ == self.parts(),
            shards@.len() == SHARDS,
            forall|i: int| 0 <= i < shards@.len() ==> (#[trigger] shards@[i]).wf(),
    {
        self.shards
    }
}

/// The shard of a key is one of the shards.
proof fn lemma_shard_in_range(key: BlockKey)
    ensures
        0 <= shard_of(key) < SHARDS,
{
    reveal(shard_of);
    let h = mixed(key);
    assert(h & 15 < 16) by (bit_vector);
}

/// A cache of `capacity` bytes has room for the blocks of 4096 bytes that fit it, spread over
/// its sixteen shards and rounded up, and no room if not even one fits.
pub proof fn law_the_capacity_counts_blocks(capacity: nat)
    ensures
        capacity < 4096 ==> slots_per_shard(capacity) == 0,
        16 * slots_per_shard(capacity) >= capacity / 4096,
        capacity >= 4096 ==> 16 * (slots_per_shard(capacity) - 1) < capacity / 4096,
{
}

/// Where the hand stops: every slot that it passes over was used, and the slot that it stops
/// at was not, unless all of them were; in that case it stops where it started.
proof fn lemma_hand_stops(marks: Seq<Option<bool>>, hand: int, from: int)
    requires
        0 <= hand < marks.len(),
        0 <= from <= marks.len(),
    ensures
        from <= passed(marks, hand, from) <= marks.len(),
        forall|k: int|
            #![trigger ahead(hand, k, marks.len() as int)]
            from <= k < passed(marks, hand, from) ==> marks[ahead(hand, k, marks.len() as int)]
                == Some(true),
        passed(marks, hand, from) < marks.len() ==> marks[ahead(
            hand,
            passed(marks, hand, from),
            marks.len() as int,
        )] != Some(true),
    decreases marks.len() - from,
{
    if from < marks.len() && marks[ahead(hand, from, marks.len() as int)] == Some(true) {
        lemma_hand_stops(marks, hand, from + 1);
    }
}

/// A block that was used since the hand last passed is spared as long as there is a slot
/// that was not: the hand stops at the first such slot that it comes to, counted from where
/// it stands around the ring; and if there is none it stops where it stands.
pub proof fn law_used_blocks_are_spared(marks: Seq<Option<bool>>, hand: int, i: int)
    requires
        0 <= hand < marks.len(),
        0 <= i < marks.len(),
    ensures
        0 <= victim(marks, hand) < marks.len(),
        marks[i] != Some(true) ==> marks[victim(marks, hand)] != Some(true),
        marks[i] != Some(true) && i >= hand ==> hand <= victim(marks, hand) <= i,
        marks[i] != Some(true) && i < hand ==> victim(marks, hand) >= hand || victim(marks, hand)
            <= i,
        (forall|k: int| 0 <= k < marks.len() ==> #[trigger] marks[k] == Some(true)) ==> victim(
            marks,
            hand,
        ) == hand,
{
    let n = marks.len() as int;
    lemma_hand_stops(marks, hand, 0);
    let p = passed(marks, hand, 0);
    let d = if i >= hand {
        i - hand
    } else {
        i + n - hand
    };
    assert(ahead(hand, d, n) == i);
    if marks[i] != Some(true) {
        assert(p <= d);
    }
    if forall|k: int| 0 <= k < marks.len() ==> #[trigger] marks[k] == Some(true) {
        if p < n {
            assert(marks[ahead(hand, p, n)] == Some(true));
        }
    }
}

/// A lookup counts as a use of the block it finds, and changes nothing else.
pub proof fn law_a_lookup_is_a_use(was: Shard, now: Shard, key: BlockKey, i: int)
    requires
        was.laid_out(),
        used(was, now, key),
        0 <= i < was.held().len(),
    ensures
        now@ == was@,
        now.held() == was.held(),
        now.at() == was.at(),
        now.marks().len() == was.marks().len(),
        was.held()[i] == Some(key) ==> now.marks()[i] == Some(true),
        was.held()[i] != Some(key) ==> now.marks()[i] == was.marks()[i],
{
    if was@.contains_key(key) {
        assert(was.held()[was.slot_of(key)] == Some(key));
    } else if was.held()[i] == Some(key) {
        assert(was@.contains_key(was.held()[i]->0));
    }
}

/// Storing a block makes only one other block leave, if any; one that was used since the hand
/// last passed leaves only if all of them were. The slots that the hand passed over count as
/// not used, and the new block counts as used.
pub proof fn law_storing_evicts_an_unused_block(
    was: Shard,
    now: Shard,
    key: BlockKey,
    block: Arc<DecodedBlock>,
    gone: BlockKey,
    i: int,
)
    requires
        was.laid_out(),
        was.marks().len() > 0,
        stored(was, now, key, block),
        was@.contains_key(gone),
        !now@.contains_key(gone),
        0 <= i < was.marks().len(),
    ensures
        now@.contains_key(key),
        now@[key] == block,
        !was@.contains_key(key),
        was.held()[victim(was.marks(), was.at())] == Some(gone),
        was.marks()[i] != Some(true) ==> was.marks()[victim(was.marks(), was.at())] != Some(true),
        now.held() == was.held().update(victim(was.marks(), was.at()), Some(key)),
        now.marks()[victim(was.marks(), was.at())] == Some(true),
        i != victim(was.marks(), was.at()) ==> now.marks()[i] == was.marks()[i] || (was.marks()[i]
            == Some(true) && now.marks()[i] == Some(false)),
{
    let n = was.marks().len() as int;
    let v = victim(was.marks(), was.at());
    law_used_blocks_are_spared(was.marks(), was.at(), i);
    lemma_hand_stops(was.marks(), was.at(), 0);
    let d = distance(was.at(), i, n);
    assert(ahead(was.at(), d, n) == i);
}

/// Storing a block under a key that has one replaces it where it is: nothing leaves, and the
/// hand stays.
pub proof fn law_storing_again_replaces(
    was: Shard,
    now: Shard,
    key: BlockKey,
    block: Arc<DecodedBlock>,
    i: int,
)
    requires
        was.laid_out(),
        was.marks().len() > 0,
        stored(was, now, key, block),
        was@.contains_key(key),
        0 <= i < was.marks().len(),
    ensures
        now@ == was@.insert(key, block),
        now.held() == was.held(),
        now.at() == was.at(),
        was.held()[i] == Some(key) ==> now.marks()[i] == Some(true),
        was.held()[i] != Some(key) ==> now.marks()[i] == was.marks()[i],
{
    assert(was.held()[was.slot_of(key)] == Some(key));
}

/// A block that is new goes where the hand stops, and the hand moves on to the next slot. A
/// shard without slots stores nothing.
pub proof fn law_new_blocks_go_where_the_hand_stops(
    was: Shard,
    now: Shard,
    key: BlockKey,
    block: Arc<DecodedBlock>,
)
    requires
        was.laid_out(),
        stored(was, now, key, block),
        !was@.contains_key(key),
    ensures
        was.marks().len() == 0 ==> now@ == was@,
        was.marks().len() > 0 ==> {
            let v = victim(was.marks(), was.at());
            &&& now.held() == was.held().update(v, Some(key))
            &&& now.at() == (if v + 1 == was.marks().len() {
                0
            } else {
                v + 1
            })
            &&& now@.contains_key(key)
            &&& now@[key] == block
            &&& was.marks()[v] is None ==> now@ == was@.insert(key, block)
        },
{
    if was.marks().len() > 0 {
        law_used_blocks_are_spared(was.marks(), was.at(), 0);
    }
}

} // verus!
