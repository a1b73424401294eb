//! Fixed-width big-endian encoding of author identifiers and timestamps.
//!
//! Both kinds of stored integer take eight bytes, most significant byte
//! first. Author identifiers are unsigned; timestamps are signed and stored
//! in two's complement.

use vstd::prelude::*;

verus! {

/// Number of bytes in an encoded author identifier or timestamp.
pub const RECORD_WIDTH: usize = 8;

/// 256 raised to `width`: the number of byte strings of that length.
pub open spec fn radix_power(width: nat) -> nat
    decreases width,
{
    if width == 0 {
        1
    } else {
        256 * radix_power((width - 1) as nat)
    }
}

/// The natural number that a byte string denotes when it is read big-endian:
/// the first byte is the most significant one.
pub open spec fn be_value(bytes: Seq<u8>) -> nat
    decreases bytes.len(),
{
    if bytes.len() == 0 {
        0
    } else {
        be_value(bytes.drop_last()) * 256 + bytes.last() as nat
    }
}

/// The big-endian encoding of `n` in exactly `width` bytes. Digits of `n`
/// beyond the width are dropped.
pub open spec fn be_bytes(n: nat, width: nat) -> Seq<u8>
    decreases width,
{
    if width == 0 {
        Seq::empty()
    } else {
        be_bytes(n / 256, (width - 1) as nat).push((n % 256) as u8)
    }
}

/// The unsigned 64-bit word that holds a timestamp in two's complement.
pub open spec fn timestamp_word(timestamp: i64) -> nat {
    if timestamp >= 0 {
        timestamp as nat
    } else {
        (timestamp + 0x1_0000_0000_0000_0000) as nat
    }
}

/// The timestamp that a 64-bit word holds in two's complement.
pub open spec fn word_timestamp(word: nat) -> i64
    recommends
        word < 0x1_0000_0000_0000_0000,
{
    if word < 0x8000_0000_0000_0000 {
        word as i64
    } else {
        (word - 0x1_0000_0000_0000_0000) as i64
    }
}

/// The stored key of an author: the identifier in eight big-endian bytes.
pub open spec fn author_key(author_id: u64) -> Seq<u8> {
    be_bytes(author_id as nat, 8)
}

/// The stored value of a timestamp: its two's complement word in eight
/// big-endian bytes.
pub open spec fn timestamp_value(timestamp: i64) -> Seq<u8> {
    be_bytes(timestamp_word(timestamp), 8)
}

/// The author identifier that a stored key holds, if the key has the right
/// length.
pub open spec fn author_id_of(key: Seq<u8>) -> Option<u64> {
    if key.len() == 8 {
        Some(be_value(key) as u64)
    } else {
        None
    }
}

/// The timestamp that a stored value holds, if the value has the right
/// length.
pub open spec fn timestamp_of(value: Seq<u8>) -> Option<i64> {
    if value.len() == 8 {
        Some(word_timestamp(be_value(value)))
    } else {
        None
    }
}

/// A byte string of length `n` denotes a number below 256 to the `n`.
pub proof fn lemma_be_value_bound(bytes: Seq<u8>)
    ensures
        be_value(bytes) < radix_power(bytes.len()),
    decreases bytes.len(),
{
    if bytes.len() > 0 {
        lemma_be_value_bound(bytes.drop_last());
    }
}

/// Encoding yields exactly `width` bytes.
pub proof fn lemma_be_bytes_len(n: nat, width: nat)
    ensures
        be_bytes(n, width).len() == width,
    decreases width,
{
    if width > 0 {
        lemma_be_bytes_len(n / 256, (width - 1) as nat);
    }
}

/// Decoding undoes encoding for every number that fits the width.
pub proof fn lemma_be_value_of_bytes(n: nat, width: nat)
    requires
        n < radix_power(width),
    ensures
        be_value(be_bytes(n, width)) == n,
    decreases width,
{
    if width > 0 {
        let head = be_bytes(n / 256, (width - 1) as nat);
        lemma_be_value_of_bytes(n / 256, (width - 1) as nat);
        assert(head.push((n % 256) as u8).drop_last() =~= head);
    }
}

/// Encoding undoes decoding: every byte string is the encoding of the number
/// it denotes, so the encoding reaches every string of the width.
pub proof fn lemma_be_bytes_of_value(bytes: Seq<u8>)
    ensures
        be_bytes(be_value(bytes), bytes.len()) == bytes,
    decreases bytes.len(),
{
    if bytes.len() > 0 {
        let head = bytes.drop_last();
        lemma_be_bytes_of_value(head);
        assert(head.push(bytes.last()) =~= bytes);
    } else {
        assert(bytes =~= Seq::<u8>::empty());
    }
}

/// Eight bytes hold exactly the 64-bit words.
pub proof fn lemma_radix_power_eight()
    ensures
        radix_power(8) == 0x1_0000_0000_0000_0000,
{
    reveal_with_fuel(radix_power, 9);
}

/// An author identifier read back from its key is the identifier that was
/// encoded.
pub proof fn lemma_author_id_round_trip(author_id: u64)
    ensures
        author_key(author_id).len() == 8,
        author_id_of(author_key(author_id)) == Some(author_id),
{
    lemma_radix_power_eight();
    lemma_be_bytes_len(author_id as nat, 8);
    lemma_be_value_of_bytes(author_id as nat, 8);
}

/// A timestamp read back from its stored value is the timestamp that was
/// encoded, for every 64-bit timestamp, negative ones included.
pub proof fn lemma_timestamp_round_trip(timestamp: i64)
    ensures
        timestamp_value(timestamp).len() == 8,
        timestamp_of(timestamp_value(timestamp)) == Some(timestamp),
{
    lemma_radix_power_eight();
    lemma_be_bytes_len(timestamp_word(timestamp), 8);
    lemma_be_value_of_bytes(timestamp_word(timestamp), 8);
}

/// Distinct author identifiers have distinct keys.
pub proof fn lemma_author_key_injective(a: u64, b: u64)
    requires
        author_key(a) == author_key(b),
    ensures
        a == b,
{
    lemma_author_id_round_trip(a);
    lemma_author_id_round_trip(b);
}

/// Every eight-byte key is the key of the author identifier it decodes to.
pub proof fn lemma_author_key_of_decoded(key: Seq<u8>)
    requires
        key.len() == 8,
    ensures
        author_id_of(key) matches Some(id) && author_key(id) == key,
{
    lemma_radix_power_eight();
    lemma_be_value_bound(key);
    lemma_be_bytes_of_value(key);
}

/// Every eight-byte value is the stored form of the timestamp it decodes to.
pub proof fn lemma_timestamp_value_of_decoded(value: Seq<u8>)
    requires
        value.len() == 8,
    ensures
        timestamp_of(value) matches Some(ts) && timestamp_value(ts) == value,
{
    lemma_radix_power_eight();
    lemma_be_value_bound(value);
    lemma_be_bytes_of_value(value);
}

/// Whether `a` comes before `b` in the order in which a sorted store hands
/// out its keys: byte by byte from the front, a proper prefix first.
pub open spec fn key_before(a: Seq<u8>, b: Seq<u8>) -> bool {
    ||| a.len() < b.len() && b.take(a.len() as int) == a
    ||| exists|k: int|
        0 <= k < a.len() && k < b.len() && a.take(k) == b.take(k) && #[trigger] a[k] < b[k]
}

/// Among numbers that fit the width, the smaller number has the earlier
/// encoding, and only it.
pub proof fn lemma_be_bytes_order(n: nat, m: nat, width: nat)
    requires
        n < radix_power(width),
        m < radix_power(width),
    ensures
        n < m <==> key_before(be_bytes(n, width), be_bytes(m, width)),
    decreases width,
{
    let a = be_bytes(n, width);
    let b = be_bytes(m, width);
    lemma_be_bytes_len(n, width);
    lemma_be_bytes_len(m, width);
    if width > 0 {
        let rest = (width - 1) as nat;
        let a_head = be_bytes(n / 256, rest);
        let b_head = be_bytes(m / 256, rest);
        lemma_be_bytes_len(n / 256, rest);
        lemma_be_bytes_len(m / 256, rest);
        lemma_be_bytes_order(n / 256, m / 256, rest);
        lemma_be_value_of_bytes(n / 256, rest);
        lemma_be_value_of_bytes(m / 256, rest);
        assert(a.take(rest as int) =~= a_head);
        assert(b.take(rest as int) =~= b_head);
        if n < m {
            if n / 256 < m / 256 {
                let k = choose|k: int|
                    0 <= k < a_head.len() && k < b_head.len() && a_head.take(k) == b_head.take(k)
                        && #[trigger] a_head[k] < b_head[k];
                assert(a.take(k) =~= a_head.take(k));
                assert(b.take(k) =~= b_head.take(k));
                assert(a[k] < b[k]);
            } else {
                assert(a[rest as int] < b[rest as int]);
            }
        }
        if key_before(a, b) {
            let k = choose|k: int|
                0 <= k < a.len() && k < b.len() && a.take(k) == b.take(k) && #[trigger] a[k]
                    < b[k];
            if k < rest {
                assert(a_head.take(k) =~= a.take(k));
                assert(b_head.take(k) =~= b.take(k));
                assert(a_head[k] < b_head[k]);
                assert(key_before(a_head, b_head));
            } else {
                assert(a_head == b_head);
            }
        }
    }
}

/// Keys sort as the author identifiers do: a store that hands out records
/// in key order hands them out by ascending author identifier.
pub proof fn lemma_author_key_order(a: u64, b: u64)
    ensures
        a < b <==> key_before(author_key(a), author_key(b)),
{
    lemma_radix_power_eight();
    lemma_be_bytes_order(a as nat, b as nat, 8);
}

/// Splits a 64-bit word into its eight big-endian bytes.
fn word_to_bytes(word: u64) -> (bytes: [u8; 8])
    ensures
        bytes@ == be_bytes(word as nat, 8),
{
    let b7: u8 = (word % 256) as u8;
    let r6: u64 = word / 256;
    let b6: u8 = (r6 % 256) as u8;
    let r5: u64 = r6 / 256;
    let b5: u8 = (r5 % 256) as u8;
    let r4: u64 = r5 / 256;
    let b4: u8 = (r4 % 256) as u8;
    let r3: u64 = r4 / 256;
    let b3: u8 = (r3 % 256) as u8;
    let r2: u64 = r3 / 256;
    let b2: u8 = (r2 % 256) as u8;
    let r1: u64 = r2 / 256;
    let b1: u8 = (r1 % 256) as u8;
    let r0: u64 = r1 / 256;
    let b0: u8 = (r0 % 256) as u8;
    let bytes = [b0, b1, b2, b3, b4, b5, b6, b7];
    proof {
        reveal_with_fuel(be_bytes, 9);
        assert(bytes@ =~= be_bytes(word as nat, 8));
    }
    bytes
}

/// Reads eight big-endian bytes as a 64-bit word.
fn bytes_to_word(bytes: &[u8]) -> (word: u64)
    requires
        bytes@.len() == 8,
    ensures
        word as nat == be_value(bytes@),
{
    let mut word: u64 = 0;
    let mut i: usize = 0;
    while i < 8
        invariant
            i <= 8,
            bytes@.len() == 8,
            word as nat == be_value(bytes@.take(i as int)),
            (word as nat) < radix_power(i as nat),
        decreases 8 - i,
    {
        proof {
            lemma_radix_power_eight();
            lemma_radix_power_monotonic(i as nat, 7);
            reveal_with_fuel(radix_power, 2);
            assert(bytes@.take(i + 1).drop_last() =~= bytes@.take(i as int));
        }
        word = word * 256 + bytes[i] as u64;
        i = i + 1;
    }
    proof {
        assert(bytes@.take(8) =~= bytes@);
    }
    word
}

/// A longer width holds at least as many numbers.
pub proof fn lemma_radix_power_monotonic(a: nat, b: nat)
    requires
        a <= b,
    ensures
        radix_power(a) <= radix_power(b),
        radix_power(a) >= 1,
    decreases b,
{
    if a < b {
        lemma_radix_power_monotonic(a, (b - 1) as nat);
    } else if a > 0 {
        lemma_radix_power_monotonic((a - 1) as nat, (a - 1) as nat);
    }
}

/// Encodes an author identifier as a store key.
pub fn encode_author_id(author_id: u64) -> (key: [u8; 8])
    ensures
        key@ == author_key(author_id),
{
    word_to_bytes(author_id)
}

/// Encodes a timestamp as a store value.
pub fn encode_timestamp(timestamp: i64) -> (value: [u8; 8])
    ensures
        value@ == timestamp_value(timestamp),
{
    let word: u64 = if timestamp >= 0 {
        timestamp as u64
    } else {
        (timestamp - i64::MIN) as u64 + 0x8000_0000_0000_0000u64
    };
    word_to_bytes(word)
}

/// Decodes a store key. The key is an author identifier exactly when it is
/// eight bytes long.
pub fn decode_author_id(key: &[u8]) -> (author_id: Option<u64>)
    ensures
        author_id == author_id_of(key@),
{
    if key.len() != RECORD_WIDTH {
        return None;
    }
    Some(bytes_to_word(key))
}

/// Decodes a store value. The value is a timestamp exactly when it is eight
/// bytes long.
pub fn decode_timestamp(value: &[u8]) -> (timestamp: Option<i64>)
    ensures
        timestamp == timestamp_of(value@),
{
    if value.len() != RECORD_WIDTH {
        return None;
    }
    let word = bytes_to_word(value);
    if word < 0x8000_0000_0000_0000u64 {
        Some(word as i64)
    } else {
        Some((word - 0x8000_0000_0000_0000u64) as i64 + i64::MIN)
    }
}

} // verus!
