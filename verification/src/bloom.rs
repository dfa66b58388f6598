//! Per-run bloom filters.
//!
//! A filter over a run's keys lets a point lookup skip the run when the key is certainly
//! absent. A filter may answer "maybe" for an absent key, but never "no" for a present
//! one, so skipping a run it rejects is always safe.
//!
//! The filter lives in a sidecar file next to its run, in an envelope of a magic and a
//! checksum. A sidecar is only a hint: one that is missing or damaged costs time, never
//! correctness.
use vstd::prelude::*;
use crate::checksum;
use crate::codec;
use crate::error::{Error, Result};
use crate::keys;
use crate::sidecar;
use crate::sidecar::Parts;
use crate::text;

verus! {

/// The filter of the `bloom_lib` crate. Its bits are reached through the functions below.
#[verifier::external_type_specification]
#[verifier::external_body]
#[verifier::reject_recursive_types(T)]
#[verifier::reject_recursive_types(S)]
pub struct ExBloomFilter<T: ?Sized, S>(bloom_lib::BloomFilter<T, S>);

/// The hasher that a filter uses by default. It is seeded with a constant.
#[verifier::external_type_specification]
#[verifier::external_body]
pub struct ExDefaultHashBuilder(bloom_lib::hash::DefaultHashBuilder);

/// The words that a filter's bits are packed into.
pub uninterp spec fn filter_words(filter: bloom_lib::BloomFilter<[u8]>) -> Seq<u64>;

/// The number of bits a filter was made with.
pub uninterp spec fn filter_num_bits(filter: bloom_lib::BloomFilter<[u8]>) -> u64;

/// The number of bits a filter probes per key.
pub uninterp spec fn filter_num_hashes(filter: bloom_lib::BloomFilter<[u8]>) -> u32;

/// The keys a filter answers "maybe" for.
pub uninterp spec fn filter_keys(filter: bloom_lib::BloomFilter<[u8]>) -> Set<Seq<u8>>;

/// A filter's words and dimensions.
pub open spec fn parts_of(filter: bloom_lib::BloomFilter<[u8]>) -> Parts {
    (filter_words(filter), filter_num_bits(filter), filter_num_hashes(filter))
}

/// The number of words that hold `num_bits` bits.
pub open spec fn words_for(num_bits: u64) -> nat {
    ((num_bits + 63) / 64) as nat
}

/// A filter of `num_bits` bits can be allocated as far as addresses go.
pub open spec fn addressable(num_bits: u64) -> bool {
    8 * words_for(num_bits) <= isize::MAX
}

/// The filter has bits and probes, and just the words that its bits need, so that probing
/// it stays within its words.
pub open spec fn usable(filter: bloom_lib::BloomFilter<[u8]>) -> bool {
    &&& filter_num_bits(filter) > 0
    &&& filter_num_hashes(filter) > 0
    &&& filter_words(filter).len() == words_for(filter_num_bits(filter))
}

/// The number of words that probing a filter of `num_bits` bits reaches: those that hold its
/// bits, and at least one.
pub open spec fn words_probed(num_bits: u64) -> nat {
    if num_bits == 0 {
        1
    } else {
        words_for(num_bits)
    }
}

/// A filter of these words and dimensions can be probed: it probes nothing, or the words that
/// its probes reach are there. There may be more of them.
pub open spec fn probeable(parts: Parts) -> bool {
    parts.2 == 0 || words_probed(parts.1) <= parts.0.len()
}

/// The words that hold `num_bits` bits, all clear.
pub open spec fn clear_words(num_bits: u64) -> Seq<u64> {
    Seq::new(words_for(num_bits), |i: int| 0u64)
}

/// The words with one bit set: bit `at % 64` of word `at / 64`.
pub open spec fn with_bit(words: Seq<u64>, at: u64) -> Seq<u64> {
    let word = (at / 64) as int;
    words.update(word, words[word] | (1u64 << (at % 64)))
}

/// The words with the bits at these places set, one after another.
pub open spec fn with_bits(words: Seq<u64>, places: Seq<u64>) -> Seq<u64>
    decreases places.len(),
{
    if places.len() == 0 {
        words
    } else {
        with_bit(with_bits(words, places.drop_last()), places.last())
    }
}

/// The words `now` come from `was` by setting `count` bits out of the first `num_bits`. Some
/// of them may have been set before, and one may be among them more than once: no bit is
/// cleared, and at most `count` are new.
pub open spec fn marked(was: Seq<u64>, now: Seq<u64>, num_bits: u64, count: nat) -> bool {
    exists|places: Seq<u64>|
        places.len() == count && (forall|i: int|
            0 <= i < places.len() ==> #[trigger] places[i] < num_bits) && now
            == #[trigger] with_bits(was, places)
}

/// Setting some bits and then others is setting all of them.
proof fn lemma_with_bits(words: Seq<u64>, first: Seq<u64>, second: Seq<u64>)
    ensures
        with_bits(with_bits(words, first), second) == with_bits(words, first + second),
    decreases second.len(),
{
    let all = first + second;
    if second.len() == 0 {
        assert(all =~= first);
    } else {
        assert(all.drop_last() =~= first + second.drop_last());
        assert(all.last() == second.last());
        lemma_with_bits(words, first, second.drop_last());
    }
}

/// Nothing is marked by setting no bit.
pub proof fn lemma_unmarked(words: Seq<u64>, num_bits: u64)
    ensures
        marked(words, words, num_bits, 0),
{
    let none = Seq::<u64>::empty();
    assert(with_bits(words, none) == words);
    assert(none.len() == 0);
}

/// Marks add up.
pub proof fn lemma_marked_on(
    was: Seq<u64>,
    mid: Seq<u64>,
    now: Seq<u64>,
    num_bits: u64,
    first: nat,
    second: nat,
)
    requires
        marked(was, mid, num_bits, first),
        marked(mid, now, num_bits, second),
    ensures
        marked(was, now, num_bits, first + second),
{
    let one = choose|places: Seq<u64>|
        places.len() == first && (forall|i: int|
            0 <= i < places.len() ==> #[trigger] places[i] < num_bits) && mid
            == #[trigger] with_bits(was, places);
    let two = choose|places: Seq<u64>|
        places.len() == second && (forall|i: int|
            0 <= i < places.len() ==> #[trigger] places[i] < num_bits) && now
            == #[trigger] with_bits(mid, places);
    lemma_with_bits(was, one, two);
    let all = one + two;
    assert(now == with_bits(was, all));
    assert(forall|i: int| 0 <= i < all.len() ==> #[trigger] all[i] < num_bits);
}

/// Calls `BloomFilter::with_dimensions`. It refuses a dimension of zero; else the filter
/// has the dimensions it was asked for, and just the words its bits need, all clear, so
/// that it admits no key.
#[verifier::external_body]
fn make_filter(num_bits: u64, num_hashes: u32) -> (filter: Option<bloom_lib::BloomFilter<[u8]>>)
    requires
        addressable(num_bits),
    ensures
        filter is None <==> num_bits == 0 || num_hashes == 0,
        filter matches Some(f) ==> usable(f) && filter_num_bits(f) == num_bits
            && filter_num_hashes(f) == num_hashes && filter_words(f) == clear_words(num_bits)
            && filter_keys(f) == Set::<Seq<u8>>::empty(),
{
    bloom_lib::BloomFilter::with_dimensions(num_bits, num_hashes).ok()
}

/// Calls `BloomFilter::insert`. The filter answers "maybe" for the key from then on, and
/// still does for every key it did before; its dimensions stay. It sets one bit per probe
/// and clears none, and a key that it answered "maybe" for before changes nothing. Which
/// bits it sets, and so which other keys it admits from then on, is left open: it turns on
/// a hash that takes in the key's length in the machine's own word.
#[verifier::external_body]
fn insert_key(filter: &mut bloom_lib::BloomFilter<[u8]>, key: &[u8])
    requires
        usable(*old(filter)),
    ensures
        usable(*final(filter)),
        filter_num_bits(*final(filter)) == filter_num_bits(*old(filter)),
        filter_num_hashes(*final(filter)) == filter_num_hashes(*old(filter)),
        filter_keys(*old(filter)).insert(key@).subset_of(filter_keys(*final(filter))),
        marked(
            filter_words(*old(filter)),
            filter_words(*final(filter)),
            filter_num_bits(*old(filter)),
            filter_num_hashes(*old(filter)) as nat,
        ),
        filter_keys(*old(filter)).contains(key@) ==> filter_words(*final(filter)) == filter_words(
            *old(filter),
        ),
{
    let _ = filter.insert(key);
}

/// Calls `BloomFilter::contains`: whether the filter admits the key. One that probes nothing
/// admits every key.
#[verifier::external_body]
fn admits_key(filter: &bloom_lib::BloomFilter<[u8]>, key: &[u8]) -> (maybe: bool)
    requires
        probeable(parts_of(*filter)),
    ensures
        maybe == filter_keys(*filter).contains(key@),
        filter_num_hashes(*filter) == 0 ==> maybe,
{
    filter.contains(key)
}

/// Calls `BloomFilter::num_bits`.
#[verifier::external_body]
fn bits_of(filter: &bloom_lib::BloomFilter<[u8]>) -> (num_bits: u64)
    ensures
        num_bits == filter_num_bits(*filter),
{
    filter.num_bits()
}

/// Calls `BloomFilter::num_hashes`.
#[verifier::external_body]
fn hashes_of(filter: &bloom_lib::BloomFilter<[u8]>) -> (num_hashes: u32)
    ensures
        num_hashes == filter_num_hashes(*filter),
{
    filter.num_hashes()
}

/// Calls `postcard::to_allocvec`. Writing to memory does not fail, and the bytes are the
/// filter's words and dimensions as varints: the hasher is not written.
#[verifier::external_body]
fn encode_filter(filter: &bloom_lib::BloomFilter<[u8]>) -> (bytes: Option<Vec<u8>>)
    ensures
        bytes is Some,
        bytes matches Some(b) ==> b@ == sidecar::filter_encoding(parts_of(*filter)),
{
    postcard::to_allocvec(filter).ok()
}

/// The filter answers from its words and dimensions alone: filters that agree in these admit
/// the same keys.
pub open spec fn answers_alike(filter: bloom_lib::BloomFilter<[u8]>) -> bool {
    forall|same: bloom_lib::BloomFilter<[u8]>|
        #![trigger filter_keys(same)]
        parts_of(same) == parts_of(filter) ==> filter_keys(same) == filter_keys(filter)
}

/// Calls `postcard::from_bytes`. It reads the varints of a filter's words and dimensions,
/// does not look at what follows them, and fails just if a number is cut off or does not
/// fit its type. Probing the filter read need not stay within its words. The hasher is not
/// read: every filter has the same one, so that filters of the same words and dimensions
/// admit the same keys.
#[verifier::external_body]
fn decode_filter(bytes: &[u8]) -> (filter: Option<bloom_lib::BloomFilter<[u8]>>)
    ensures
        filter is None <==> sidecar::filter_at(bytes@) is None,
        filter matches Some(f) ==> sidecar::filter_at(bytes@) == Some(parts_of(f)),
        filter matches Some(f) ==> answers_alike(f),
{
    postcard::from_bytes(bytes).ok()
}

/// The magic of a sidecar: `LSMBLM01` in ASCII.
pub open spec fn sidecar_magic() -> Seq<u8> {
    seq![0x4Cu8, 0x53u8, 0x4Du8, 0x42u8, 0x4Cu8, 0x4Du8, 0x30u8, 0x31u8]
}

/// A payload in its envelope: the magic, the payload's checksum, and the payload.
pub open spec fn envelope(payload: Seq<u8>) -> Seq<u8> {
    sidecar_magic() + codec::le4(checksum::crc32c_of(payload)) + payload
}

/// The payload of a sidecar whose envelope is intact.
pub open spec fn payload_of(bytes: Seq<u8>) -> Option<Seq<u8>> {
    if bytes.len() < 12 || bytes.subrange(0, 8) != sidecar_magic() || checksum::crc32c_of(
        bytes.skip(12),
    ) != codec::le4_value(bytes.subrange(8, 12)) {
        None
    } else {
        Some(bytes.skip(12))
    }
}

/// The words and dimensions of the filter that a payload begins with, if that one can be
/// probed.
pub open spec fn loaded(payload: Seq<u8>) -> Option<Parts> {
    match sidecar::filter_at(payload) {
        None => None,
        Some(parts) => if probeable(parts) {
            Some(parts)
        } else {
            None
        },
    }
}

/// A bloom filter over the keys of one run.
#[derive(Debug)]
pub struct RunFilter {
    filter: bloom_lib::BloomFilter<[u8]>,
}

impl RunFilter {
    /// The keys the filter admits.
    pub closed spec fn admitted(&self) -> Set<Seq<u8>> {
        filter_keys(self.filter)
    }

    /// The filter's words and dimensions.
    pub closed spec fn parts(&self) -> Parts {
        parts_of(self.filter)
    }

    /// Probing the filter stays within its words.
    pub closed spec fn wf(&self) -> bool {
        &&& probeable(self.parts())
        &&& self.parts().0.len() <= usize::MAX
    }

    /// Whether the run might hold `key`. A `false` is definitive.
    pub fn might_contain(&self, key: &[u8]) -> (maybe: bool)
        requires
            self.wf(),
        ensures
            maybe == self.admitted().contains(key@),
            self.parts().2 == 0 ==> maybe,
    {
        admits_key(&self.filter, key)
    }

    /// The bytes of the filter's sidecar.
    pub fn sidecar(&self) -> (bytes: Result<Vec<u8>>)
        requires
            self.wf(),
        ensures
            bytes matches Ok(b) && b@ == envelope(sidecar::filter_encoding(self.parts())),
    {
        let payload = match encode_filter(&self.filter) {
            Some(p) => p,
            None => {
                return Err(Error::corruption("failed to encode bloom sidecar"));
            },
        };
        let mut bytes: Vec<u8> = Vec::new();
        bytes.push(0x4C);
        bytes.push(0x53);
        bytes.push(0x4D);
        bytes.push(0x42);
        bytes.push(0x4C);
        bytes.push(0x4D);
        bytes.push(0x30);
        bytes.push(0x31);
        codec::encode_u32(&mut bytes, checksum::checksum(payload.as_slice()));
        bytes.extend_from_slice(payload.as_slice());
        proof {
            assert(bytes@ =~= envelope(payload@));
        }
        Ok(bytes)
    }

    /// A filter's sidecar holds the filter.
    pub proof fn lemma_sidecar(&self)
        requires
            self.wf(),
        ensures
            payload_of(envelope(sidecar::filter_encoding(self.parts()))) == Some(
                sidecar::filter_encoding(self.parts()),
            ),
            loaded(sidecar::filter_encoding(self.parts())) == Some(self.parts()),
    {
        let payload = sidecar::filter_encoding(self.parts());
        lemma_envelope(payload);
        sidecar::lemma_filter_at(self.parts(), seq![]);
        assert(payload + seq![] =~= payload);
    }

    /// The filter of a sidecar; `None` if the sidecar is damaged or does not hold a
    /// filter that can be probed. A filter that probes nothing can be: it admits every key.
    pub fn decode(bytes: &[u8]) -> (filter: Option<RunFilter>)
        ensures
            match filter {
                Some(f) => {
                    &&& f.wf()
                    &&& payload_of(bytes@) matches Some(p) && loaded(p) == Some(f.parts())
                    &&& forall|g: RunFilter|
                        #![trigger g.admitted()]
                        g.parts() == f.parts() ==> g.admitted() == f.admitted()
                },
                None => payload_of(bytes@) is None || loaded((payload_of(bytes@)->0)) is None,
            },
    {
        if bytes.len() < 12 {
            return None;
        }
        let magic = vstd::slice::slice_to_vec(vstd::slice::slice_subrange(bytes, 0, 8));
        let mut expected: Vec<u8> = Vec::new();
        expected.push(0x4C);
        expected.push(0x53);
        expected.push(0x4D);
        expected.push(0x42);
        expected.push(0x4C);
        expected.push(0x4D);
        expected.push(0x30);
        expected.push(0x31);
        assert(expected@ =~= sidecar_magic());
        if !keys::same_key(magic.as_slice(), expected.as_slice()) {
            return None;
        }
        let crc: u32 = codec::u32_at(bytes, 8);
        let payload = vstd::slice::slice_subrange(bytes, 12, bytes.len());
        assert(payload@ =~= bytes@.skip(12));
        if checksum::checksum(payload) != crc {
            return None;
        }
        Self::from_payload(payload)
    }

    /// The filter that a payload stands for.
    fn from_payload(payload: &[u8]) -> (filter: Option<RunFilter>)
        ensures
            match filter {
                Some(f) => f.wf() && loaded(payload@) == Some(f.parts()) && forall|g: RunFilter|
                    #![trigger g.admitted()]
                    g.parts() == f.parts() ==> g.admitted() == f.admitted(),
                None => loaded(payload@) is None,
            },
    {
        let raw = match decode_filter(payload) {
            Some(f) => f,
            None => {
                return None;
            },
        };
        proof {
            sidecar::lemma_filter_count(payload@);
        }
        let num_bits: u64 = bits_of(&raw);
        let reached: u64 = if num_bits == 0 {
            1
        } else {
            (num_bits - 1) / 64 + 1
        };
        assert(reached == words_probed(num_bits));
        if hashes_of(&raw) > 0 && sidecar::leading_number(payload) < reached {
            return None;
        }
        Some(RunFilter { filter: raw })
    }
}

/// A payload is taken out of the envelope it was put in.
pub proof fn lemma_envelope(payload: Seq<u8>)
    ensures
        payload_of(envelope(payload)) == Some(payload),
{
    let bytes = envelope(payload);
    codec::lemma_le4_roundtrip(checksum::crc32c_of(payload));
    assert(bytes.subrange(0, 8) =~= sidecar_magic());
    assert(bytes.subrange(8, 12) =~= codec::le4(checksum::crc32c_of(payload)));
    assert(bytes.skip(12) =~= payload);
}

/// Accumulates keys into a filter as a run is written.
#[derive(Debug)]
pub struct RunFilterBuilder {
    filter: Option<bloom_lib::BloomFilter<[u8]>>,
}

/// The dimensions can be had: neither is zero, and the bits can be addressed.
pub open spec fn sizeable(dimensions: Option<(u64, u32)>) -> bool {
    dimensions matches Some((num_bits, num_hashes)) && num_bits > 0 && num_hashes > 0
        && addressable(num_bits)
}

/// Starts a builder for up to `capacity` keys, with the dimensions (bits, and probes per
/// key) that such a filter is to have. A run without keys gets no filter, nor does one
/// whose filter cannot be sized.
pub fn builder(capacity: usize, dimensions: Option<(u64, u32)>) -> (b: RunFilterBuilder)
    ensures
        b.wf(),
        b.active() == (capacity > 0 && sizeable(dimensions)),
        b.active() ==> b.dimensions() == dimensions->0 && b.words() == clear_words(
            b.dimensions().0,
        ) && b.admitted() == Set::<Seq<u8>>::empty(),
{
    let filter = match dimensions {
        None => None,
        Some((num_bits, num_hashes)) => if capacity == 0 || num_bits == 0 {
            None
        } else {
            let words: u64 = (num_bits - 1) / 64 + 1;
            assert(words == words_for(num_bits));
            if words > isize::MAX as u64 / 8 {
                None
            } else {
                make_filter(num_bits, num_hashes)
            }
        },
    };
    RunFilterBuilder { filter }
}

impl RunFilterBuilder {
    /// Whether a filter is being built.
    pub closed spec fn active(&self) -> bool {
        self.filter is Some
    }

    /// The keys the filter admits so far.
    pub closed spec fn admitted(&self) -> Set<Seq<u8>> {
        filter_keys(self.filter->0)
    }

    /// The bits of the filter, and its probes per key.
    pub closed spec fn dimensions(&self) -> (u64, u32) {
        (filter_num_bits(self.filter->0), filter_num_hashes(self.filter->0))
    }

    /// The words of the filter's bits.
    pub closed spec fn words(&self) -> Seq<u64> {
        filter_words(self.filter->0)
    }

    /// The filter being built can be probed.
    pub closed spec fn wf(&self) -> bool {
        self.filter matches Some(f) ==> usable(f) && addressable(filter_num_bits(f))
    }

    /// Records a key: the filter admits it from then on, besides those it admitted before.
    /// One bit is set per probe, and none if the key was admitted already.
    pub fn add(&mut self, key: &[u8])
        requires
            old(self).wf(),
        ensures
            final(self).wf(),
            final(self).active() == old(self).active(),
            old(self).active() ==> {
                &&& final(self).dimensions() == old(self).dimensions()
                &&& old(self).admitted().insert(key@).subset_of(final(self).admitted())
                &&& marked(
                    old(self).words(),
                    final(self).words(),
                    old(self).dimensions().0,
                    old(self).dimensions().1 as nat,
                )
                &&& old(self).admitted().contains(key@) ==> final(self).words()
                    == old(self).words()
            },
    {
        match &mut self.filter {
            Some(filter) => {
                insert_key(filter, key);
            },
            None => {},
        }
    }

    /// Finishes building.
    pub fn finish(self) -> (filter: Option<RunFilter>)
        requires
            self.wf(),
        ensures
            match filter {
                Some(f) => self.active() && f.wf() && f.admitted() == self.admitted()
                    && f.parts() == (self.words(), self.dimensions().0, self.dimensions().1),
                None => !self.active(),
            },
    {
        match self.filter {
            Some(filter) => Some(RunFilter { filter }),
            None => None,
        }
    }
}

/// The name of a run's sidecar: the run's name with `.bloom` appended.
pub open spec fn sidecar_name(run: Seq<char>) -> Seq<char> {
    run + ".bloom"@
}

/// The name of a run's sidecar.
pub fn sidecar_of(run: &str) -> (name: String)
    ensures
        name@ == sidecar_name(run@),
{
    let mut name = text::chars_of(run);
    let suffix = text::chars_of(".bloom");
    name.extend_from_slice(suffix.as_slice());
    text::string_of(&name)
}

} // verus!
