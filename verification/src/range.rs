//! Key ranges.
use vstd::prelude::*;
use crate::keys;
use crate::keys::KeyOrder;

verus! {

/// One end of a range of keys.
#[derive(Debug)]
pub enum KeyBound {
    /// The key itself belongs to the range.
    Included(Vec<u8>),
    /// The key itself does not belong to the range.
    Excluded(Vec<u8>),
    /// The range has no end on this side.
    Unbounded,
}

/// A range of keys.
#[derive(Debug)]
pub struct KeyRange {
    /// The lower end.
    pub start: KeyBound,
    /// The upper end.
    pub end: KeyBound,
}

/// Where a key sits relative to a range.
#[derive(Clone, Copy, Debug, PartialEq, Eq, Structural)]
pub enum Pos {
    /// Before the range starts.
    Below,
    /// In the range.
    In,
    /// After the range ends.
    Above,
}

impl KeyRange {
    /// The key comes before the range starts.
    pub open spec fn before_start(&self, key: Seq<u8>) -> bool {
        match self.start {
            KeyBound::Included(s) => keys::key_lt(key, s@),
            KeyBound::Excluded(s) => keys::key_le(key, s@),
            KeyBound::Unbounded => false,
        }
    }

    /// The key comes after the range ends.
    pub open spec fn after_end(&self, key: Seq<u8>) -> bool {
        match self.end {
            KeyBound::Included(e) => keys::key_lt(e@, key),
            KeyBound::Excluded(e) => keys::key_le(e@, key),
            KeyBound::Unbounded => false,
        }
    }

    /// The key is in the range.
    pub open spec fn contains(&self, key: Seq<u8>) -> bool {
        !self.before_start(key) && !self.after_end(key)
    }

    /// The range of all keys.
    pub fn all() -> (range: KeyRange)
        ensures
            forall|key: Seq<u8>| #[trigger] range.contains(key),
    {
        KeyRange { start: KeyBound::Unbounded, end: KeyBound::Unbounded }
    }

    /// Classifies `key` against the range.
    pub fn position(&self, key: &[u8]) -> (pos: Pos)
        ensures
            pos == (if self.before_start(key@) {
                Pos::Below
            } else if self.after_end(key@) {
                Pos::Above
            } else {
                Pos::In
            }),
            pos != Pos::Below <==> (match self.start {
                KeyBound::Included(s) => s@ == key@ || keys::key_lt(s@, key@),
                KeyBound::Excluded(s) => keys::key_lt(s@, key@),
                KeyBound::Unbounded => true,
            }),
            pos == Pos::Above ==> (match self.end {
                KeyBound::Included(e) => keys::key_lt(e@, key@),
                KeyBound::Excluded(e) => e@ == key@ || keys::key_lt(e@, key@),
                KeyBound::Unbounded => false,
            }),
            pos == Pos::In <==> self.contains(key@),
    {
        let below = match &self.start {
            KeyBound::Included(s) => keys::key_before(key, s.as_slice()),
            KeyBound::Excluded(s) => match keys::compare_keys(key, s.as_slice()) {
                KeyOrder::After => false,
                _ => true,
            },
            KeyBound::Unbounded => false,
        };
        proof {
            keys::lemma_key_order();
        }
        if below {
            return Pos::Below;
        }
        let above = match &self.end {
            KeyBound::Included(e) => keys::key_before(e.as_slice(), key),
            KeyBound::Excluded(e) => match keys::compare_keys(e.as_slice(), key) {
                KeyOrder::After => false,
                _ => true,
            },
            KeyBound::Unbounded => false,
        };
        if above {
            Pos::Above
        } else {
            Pos::In
        }
    }

    /// No key from one after the end of the range on is in the range.
    pub proof fn lemma_after_end(&self, key: Seq<u8>, later: Seq<u8>)
        requires
            self.after_end(key),
            keys::key_le(key, later),
        ensures
            self.after_end(later),
            !self.contains(later),
    {
        keys::lemma_key_order();
    }
}

} // verus!
