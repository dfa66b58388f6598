//! How a filter's words and dimensions are laid out in bytes.
//!
//! Every number is a varint: seven bits to a byte, the lowest first, the top bit set on
//! all bytes but the last. A filter is the number of its words, the words, the number of
//! its bits and the number of its probes, one after the other.
use vstd::prelude::*;

verus! {

/// A filter's words, the number of its bits, and the number of bits it probes per key.
pub type Parts = (Seq<u64>, u64, u32);

/// A number as a varint.
pub open spec fn varint(n: nat) -> Seq<u8>
    decreases n,
{
    if n < 128 {
        seq![n as u8]
    } else {
        seq![(128 + n % 128) as u8] + varint(n / 128)
    }
}

/// Words as varints, one after the other.
pub open spec fn varints(words: Seq<u64>) -> Seq<u8>
    decreases words.len(),
{
    if words.len() == 0 {
        seq![]
    } else {
        varint(words[0] as nat) + varints(words.drop_first())
    }
}

/// A filter in bytes.
pub open spec fn filter_encoding(parts: Parts) -> Seq<u8> {
    varint(parts.0.len()) + varints(parts.0) + varint(parts.1 as nat) + varint(parts.2 as nat)
}

/// The value of the varint at `pos` and where it ends, if it ends within `room` bytes. It
/// need not be the shortest for its value.
pub open spec fn varint_at(bytes: Seq<u8>, pos: int, room: int) -> Option<(nat, int)>
    decreases room,
{
    if room <= 0 || pos >= bytes.len() {
        None
    } else if bytes[pos] < 128 {
        Some((bytes[pos] as nat, pos + 1))
    } else {
        match varint_at(bytes, pos + 1, room - 1) {
            None => None,
            Some((high, end)) => Some(((bytes[pos] - 128 + 128 * high) as nat, end)),
        }
    }
}

/// The number at `pos`, of a type that reaches up to `most`, and where it ends. A type
/// takes as many bytes as it has groups of seven bits, whole or not.
pub open spec fn number_at(bytes: Seq<u8>, pos: int, most: nat) -> Option<(nat, int)> {
    let room = if most <= u32::MAX {
        5int
    } else {
        10int
    };
    match varint_at(bytes, pos, room) {
        None => None,
        Some((n, end)) => if n <= most {
            Some((n, end))
        } else {
            None
        },
    }
}

/// The `n` words at `pos` and where they end.
pub open spec fn words_at(bytes: Seq<u8>, pos: int, n: nat) -> Option<(Seq<u64>, int)>
    decreases n,
{
    if n == 0 {
        Some((seq![], pos))
    } else {
        match number_at(bytes, pos, u64::MAX as nat) {
            None => None,
            Some((word, next)) => match words_at(bytes, next, (n - 1) as nat) {
                None => None,
                Some((rest, end)) => Some((seq![word as u64] + rest, end)),
            },
        }
    }
}

/// The filter that some bytes begin with. What follows it is not looked at.
pub open spec fn filter_at(bytes: Seq<u8>) -> Option<Parts> {
    match number_at(bytes, 0, usize::MAX as nat) {
        None => None,
        Some((n, first)) => match words_at(bytes, first, n) {
            None => None,
            Some((words, dims)) => match number_at(bytes, dims, u64::MAX as nat) {
                None => None,
                Some((num_bits, last)) => match number_at(bytes, last, u32::MAX as nat) {
                    None => None,
                    Some((num_hashes, _)) => Some((words, num_bits as u64, num_hashes as u32)),
                },
            },
        },
    }
}

/// How far `k` groups of seven bits reach.
spec fn reach(k: nat) -> nat
    decreases k,
{
    if k == 0 {
        1
    } else {
        128 * reach((k - 1) as nat)
    }
}

/// A varint takes at least one byte, and no more than its value has groups of seven bits.
proof fn lemma_varint_len(n: nat, k: nat)
    requires
        n < reach(k),
        k > 0,
    ensures
        1 <= varint(n).len() <= k,
    decreases k,
{
    if n >= 128 {
        reveal_with_fuel(reach, 2);
        lemma_varint_len(n / 128, (k - 1) as nat);
    }
}

/// The varint of a number that a type reaches fits the bytes the type takes.
proof fn lemma_number_len(n: nat, most: nat)
    requires
        n <= most <= u64::MAX,
    ensures
        1 <= varint(n).len() <= (if most <= u32::MAX {
            5int
        } else {
            10int
        }),
{
    reveal_with_fuel(reach, 11);
    if most <= u32::MAX {
        lemma_varint_len(n, 5);
    } else {
        lemma_varint_len(n, 10);
    }
}

/// A larger number takes no fewer bytes.
proof fn lemma_varint_monotone(a: nat, b: nat)
    requires
        a <= b,
    ensures
        1 <= varint(a).len() <= varint(b).len(),
    decreases b,
{
    if b >= 128 {
        if a >= 128 {
            lemma_varint_monotone(a / 128, b / 128);
        } else {
            lemma_varint_monotone(0, b / 128);
        }
    }
}

/// A varint is read back as the number it was written for.
proof fn lemma_varint_at(before: Seq<u8>, n: nat, after: Seq<u8>, room: int)
    requires
        varint(n).len() <= room,
    ensures
        varint_at(before + varint(n) + after, before.len() as int, room) == Some(
            (n, (before.len() + varint(n).len()) as int),
        ),
    decreases n,
{
    let bytes = before + varint(n) + after;
    let pos = before.len() as int;
    lemma_varint_monotone(n, n);
    assert(bytes[pos] == varint(n)[0]);
    if n >= 128 {
        let longer = before + seq![(128 + n % 128) as u8];
        assert(bytes =~= longer + varint(n / 128) + after);
        lemma_varint_at(longer, n / 128, after, room - 1);
        assert(128 + n % 128 - 128 + 128 * (n / 128) == n);
    }
}

/// A number is read back as it was written.
proof fn lemma_number_at(before: Seq<u8>, n: nat, after: Seq<u8>, most: nat)
    requires
        n <= most <= u64::MAX,
    ensures
        number_at(before + varint(n) + after, before.len() as int, most) == Some(
            (n, (before.len() + varint(n).len()) as int),
        ),
{
    lemma_number_len(n, most);
    lemma_varint_at(
        before,
        n,
        after,
        if most <= u32::MAX {
            5
        } else {
            10
        },
    );
}

/// Words are read back as they were written.
proof fn lemma_words_at(before: Seq<u8>, words: Seq<u64>, after: Seq<u8>)
    ensures
        words_at(before + varints(words) + after, before.len() as int, words.len()) == Some(
            (words, (before.len() + varints(words).len()) as int),
        ),
    decreases words.len(),
{
    let bytes = before + varints(words) + after;
    if words.len() == 0 {
        assert(words =~= seq![]);
    } else {
        let first = varint(words[0] as nat);
        let rest = words.drop_first();
        assert(bytes =~= before + first + (varints(rest) + after));
        lemma_number_at(before, words[0] as nat, varints(rest) + after, u64::MAX as nat);
        assert(bytes =~= (before + first) + varints(rest) + after);
        lemma_words_at(before + first, rest, after);
        assert(seq![words[0]] + rest =~= words);
    }
}

/// A filter is read back as it was written, whatever follows it.
pub proof fn lemma_filter_at(parts: Parts, after: Seq<u8>)
    requires
        parts.0.len() <= usize::MAX,
    ensures
        filter_at(filter_encoding(parts) + after) == Some(parts),
{
    let bytes = filter_encoding(parts) + after;
    let count = varint(parts.0.len());
    let words = varints(parts.0);
    let num_bits = varint(parts.1 as nat);
    let num_hashes = varint(parts.2 as nat);
    assert(bytes =~= seq![] + count + (words + num_bits + num_hashes + after));
    lemma_number_at(
        seq![],
        parts.0.len(),
        words + num_bits + num_hashes + after,
        usize::MAX as nat,
    );
    assert(bytes =~= count + words + (num_bits + num_hashes + after));
    lemma_words_at(count, parts.0, num_bits + num_hashes + after);
    assert(bytes =~= (count + words) + num_bits + (num_hashes + after));
    lemma_number_at(count + words, parts.1 as nat, num_hashes + after, u64::MAX as nat);
    assert(bytes =~= (count + words + num_bits) + num_hashes + after);
    lemma_number_at(count + words + num_bits, parts.2 as nat, after, u32::MAX as nat);
}

/// A varint ends behind its start and within the bytes.
proof fn lemma_varint_extent(bytes: Seq<u8>, pos: int, room: int)
    ensures
        varint_at(bytes, pos, room) matches Some((n, end)) ==> pos < end <= bytes.len(),
    decreases room,
{
    if 0 < room && pos < bytes.len() {
        lemma_varint_extent(bytes, pos + 1, room - 1);
    }
}

/// Every word takes at least one byte.
proof fn lemma_words_extent(bytes: Seq<u8>, pos: int, n: nat)
    requires
        pos <= bytes.len(),
    ensures
        words_at(bytes, pos, n) matches Some((words, end)) ==> words.len() == n && pos + n <= end
            <= bytes.len(),
    decreases n,
{
    if n > 0 {
        lemma_varint_extent(bytes, pos, 10);
        match number_at(bytes, pos, u64::MAX as nat) {
            None => {},
            Some((word, next)) => {
                lemma_words_extent(bytes, next, (n - 1) as nat);
            },
        }
    }
}

/// The value of a number that was read.
pub open spec fn value_of(number: Option<(nat, int)>) -> nat {
    match number {
        Some((n, _)) => n,
        None => 0,
    }
}

/// A filter's words are as many as the number that its bytes begin with says.
pub proof fn lemma_filter_count(bytes: Seq<u8>)
    ensures
        filter_at(bytes) matches Some(parts) ==> number_at(bytes, 0, usize::MAX as nat) is Some
            && value_of(number_at(bytes, 0, usize::MAX as nat)) == parts.0.len() && parts.0.len()
            <= usize::MAX,
{
    lemma_varint_extent(bytes, 0, 5);
    lemma_varint_extent(bytes, 0, 10);
    match number_at(bytes, 0, usize::MAX as nat) {
        None => {},
        Some((n, first)) => {
            lemma_words_extent(bytes, first, n);
        },
    }
}

/// A varint with more room is read as the same, if it is read with less.
proof fn lemma_more_room(bytes: Seq<u8>, pos: int, less: int, more: int)
    requires
        less <= more,
        varint_at(bytes, pos, less) is Some,
    ensures
        varint_at(bytes, pos, more) == varint_at(bytes, pos, less),
    decreases less,
{
    if bytes[pos] >= 128 {
        lemma_more_room(bytes, pos + 1, less - 1, more - 1);
    }
}

/// The number that the bytes begin with, where they begin with one that the machine's
/// addresses reach.
pub fn leading_number(bytes: &[u8]) -> (n: u64)
    requires
        number_at(bytes@, 0, usize::MAX as nat) is Some,
    ensures
        n == value_of(number_at(bytes@, 0, usize::MAX as nat)),
{
    let ghost whole = varint_at(bytes@, 0, 10);
    proof {
        if usize::MAX <= u32::MAX {
            lemma_more_room(bytes@, 0, 5, 10);
        }
        reveal_with_fuel(reach, 11);
    }
    let mut low: u128 = 0;
    let mut unit: u128 = 1;
    let mut pos: usize = 0;
    loop
        invariant_except_break
            pos < 10,
            unit == reach(pos as nat),
            low < unit,
            reach(10) < 0x100_0000_0000_0000_0000_0000,
            whole is Some,
            value_of(whole) <= u64::MAX,
            (match varint_at(bytes@, pos as int, 10 - pos) {
                None => whole is None,
                Some((high, end)) => whole == Some(((low + unit * high) as nat, end)),
            }),
        ensures
            whole is Some,
            value_of(whole) <= u64::MAX,
            low == value_of(whole),
        decreases 10 - pos,
    {
        let b: u8 = bytes[pos];
        proof {
            lemma_reach_monotone(pos as nat + 1, 10);
            assert(reach(pos as nat + 1) == 128 * reach(pos as nat));
        }
        if b < 128 {
            assert(low + unit * (b as u128) < 128 * unit) by (nonlinear_arith)
                requires
                    low < unit,
                    b < 128,
            ;
            low = low + unit * (b as u128);
            break;
        }
        let digit: u128 = (b - 128) as u128;
        let ghost was = low;
        assert(low + unit * digit < 128 * unit) by (nonlinear_arith)
            requires
                low < unit,
                digit < 128,
        ;
        low = low + unit * digit;
        proof {
            match varint_at(bytes@, pos + 1, 10 - pos - 1) {
                None => {},
                Some((high, end)) => {
                    assert(was + unit * (digit + 128 * high) == was + unit * digit + (unit * 128)
                        * high) by (nonlinear_arith);
                },
            }
        }
        unit = unit * 128;
        pos = pos + 1;
    }
    low as u64
}

/// More groups of bits reach further.
proof fn lemma_reach_monotone(a: nat, b: nat)
    requires
        a <= b,
    ensures
        1 <= reach(a) <= reach(b),
    decreases b,
{
    if a < b {
        lemma_reach_monotone(a, (b - 1) as nat);
    } else if a > 0 {
        lemma_reach_monotone((a - 1) as nat, (b - 1) as nat);
    }
}

} // verus!
