//! Names of the store's partitions.
//!
//! Every guild has a partition of its own, named by the guild identifier in
//! decimal. Display names live in one partition shared by all guilds.

use vstd::prelude::*;

verus! {

/// Name of the partition that maps author identifiers to display names.
pub const AUTHORS_PARTITION: &'static str = "authors";

/// The character sequence of [`AUTHORS_PARTITION`].
pub open spec fn authors_partition() -> Seq<char> {
    seq!['a', 'u', 't', 'h', 'o', 'r', 's']
}

/// Whether `c` is one of the ten ASCII digits.
pub open spec fn is_digit(c: char) -> bool {
    c == '0' || c == '1' || c == '2' || c == '3' || c == '4' || c == '5' || c == '6' || c == '7'
        || c == '8' || c == '9'
}

/// The value of an ASCII digit; zero for any other character.
pub open spec fn digit_of(c: char) -> nat {
    if c == '1' {
        1
    } else if c == '2' {
        2
    } else if c == '3' {
        3
    } else if c == '4' {
        4
    } else if c == '5' {
        5
    } else if c == '6' {
        6
    } else if c == '7' {
        7
    } else if c == '8' {
        8
    } else if c == '9' {
        9
    } else {
        0
    }
}

/// The ASCII digit for a value below ten.
pub open spec fn digit_char(d: nat) -> char
    recommends
        d < 10,
{
    if d == 0 {
        '0'
    } else if d == 1 {
        '1'
    } else if d == 2 {
        '2'
    } else if d == 3 {
        '3'
    } else if d == 4 {
        '4'
    } else if d == 5 {
        '5'
    } else if d == 6 {
        '6'
    } else if d == 7 {
        '7'
    } else if d == 8 {
        '8'
    } else {
        '9'
    }
}

/// The decimal numeral of `n`, without sign or leading zeros.
pub open spec fn decimal(n: nat) -> Seq<char>
    decreases n,
{
    if n < 10 {
        seq![digit_char(n)]
    } else {
        decimal(n / 10).push(digit_char(n % 10))
    }
}

/// Whether every character of `s` is an ASCII digit.
pub open spec fn all_digits(s: Seq<char>) -> bool {
    forall|i: int| 0 <= i < s.len() ==> is_digit(#[trigger] s[i])
}

/// The number that a string of digits denotes in base ten.
pub open spec fn decimal_value(s: Seq<char>) -> nat
    decreases s.len(),
{
    if s.len() == 0 {
        0
    } else {
        decimal_value(s.drop_last()) * 10 + digit_of(s.last())
    }
}

/// The text without one leading plus sign, if it has one.
pub open spec fn unsigned_part(text: Seq<char>) -> Seq<char> {
    if text.len() > 0 && text[0] == '+' {
        text.drop_first()
    } else {
        text
    }
}

/// The guild identifier that `text` denotes: an optional plus sign followed
/// by at least one ASCII digit, with a value that fits 64 bits. Anything else
/// denotes no identifier.
pub open spec fn parsed_guild_id(text: Seq<char>) -> Option<u64> {
    let digits = unsigned_part(text);
    if digits.len() > 0 && all_digits(digits) && decimal_value(digits) <= u64::MAX {
        Some(decimal_value(digits) as u64)
    } else {
        None
    }
}

/// The name of a guild's partition.
pub open spec fn guild_partition_name(guild_id: u64) -> Seq<char> {
    decimal(guild_id as nat)
}

/// A numeral consists of digits, is not empty, and denotes its number.
pub proof fn lemma_decimal_value_of_decimal(n: nat)
    ensures
        decimal(n).len() > 0,
        all_digits(decimal(n)),
        decimal_value(decimal(n)) == n,
    decreases n,
{
    if n < 10 {
        assert(decimal(n).drop_last() =~= Seq::<char>::empty());
        assert(decimal_value(decimal(n).drop_last()) == 0);
    } else {
        let head = decimal(n / 10);
        lemma_decimal_value_of_decimal(n / 10);
        assert(head.push(digit_char(n % 10)).drop_last() =~= head);
    }
}

/// A prefix of a digit string denotes a number no larger than the whole.
pub proof fn lemma_decimal_value_prefix(s: Seq<char>, k: int)
    requires
        0 <= k <= s.len(),
    ensures
        decimal_value(s.take(k)) <= decimal_value(s),
    decreases s.len(),
{
    if k == s.len() {
        assert(s.take(k) =~= s);
    } else {
        lemma_decimal_value_prefix(s.drop_last(), k);
        assert(s.drop_last().take(k) =~= s.take(k));
    }
}

/// Reading a guild's partition name gives back the guild identifier.
pub proof fn lemma_guild_id_round_trip(guild_id: u64)
    ensures
        parsed_guild_id(guild_partition_name(guild_id)) == Some(guild_id),
{
    lemma_decimal_value_of_decimal(guild_id as nat);
    let name = decimal(guild_id as nat);
    assert(is_digit(name[0]));
}

/// Distinct guilds have distinct partitions.
pub proof fn lemma_guild_partition_injective(a: u64, b: u64)
    requires
        guild_partition_name(a) == guild_partition_name(b),
    ensures
        a == b,
{
    lemma_decimal_value_of_decimal(a as nat);
    lemma_decimal_value_of_decimal(b as nat);
}

/// No guild's partition is the shared partition of display names.
pub proof fn lemma_guild_partition_is_not_authors(guild_id: u64)
    ensures
        guild_partition_name(guild_id) != authors_partition(),
{
    lemma_decimal_value_of_decimal(guild_id as nat);
    let name = decimal(guild_id as nat);
    assert(is_digit(name[0]));
    assert(authors_partition()[0] == 'a');
}

/// The one-character string of a digit.
fn digit_text(d: u64) -> (text: &'static str)
    requires
        d < 10,
    ensures
        text@ == seq![digit_char(d as nat)],
{
    proof {
        reveal_strlit("0");
        reveal_strlit("1");
        reveal_strlit("2");
        reveal_strlit("3");
        reveal_strlit("4");
        reveal_strlit("5");
        reveal_strlit("6");
        reveal_strlit("7");
        reveal_strlit("8");
        reveal_strlit("9");
    }
    let text = if d == 0 {
        "0"
    } else if d == 1 {
        "1"
    } else if d == 2 {
        "2"
    } else if d == 3 {
        "3"
    } else if d == 4 {
        "4"
    } else if d == 5 {
        "5"
    } else if d == 6 {
        "6"
    } else if d == 7 {
        "7"
    } else if d == 8 {
        "8"
    } else {
        "9"
    };
    assert(text@ =~= seq![digit_char(d as nat)]);
    text
}

/// Appends the decimal numeral of `n` to `out`.
fn push_decimal(out: &mut String, n: u64)
    ensures
        final(out)@ == old(out)@ + decimal(n as nat),
    decreases n,
{
    if n >= 10 {
        push_decimal(out, n / 10);
    }
    out.append(digit_text(n % 10));
    proof {
        if n >= 10 {
            assert(old(out)@ + decimal((n / 10) as nat) + seq![digit_char((n % 10) as nat)]
                =~= old(out)@ + decimal(n as nat));
        }
    }
}

/// The name of the partition that holds a guild's activity records.
pub fn guild_partition(guild_id: u64) -> (name: String)
    ensures
        name@ == guild_partition_name(guild_id),
{
    let mut name = String::new();
    push_decimal(&mut name, guild_id);
    assert(Seq::<char>::empty() + decimal(guild_id as nat) =~= decimal(guild_id as nat));
    name
}

/// The name of the shared partition of display names, as an owned string.
pub fn authors_partition_name() -> (name: String)
    ensures
        name@ == authors_partition(),
{
    proof {
        reveal_strlit("authors");
    }
    let name = String::from_str(AUTHORS_PARTITION);
    assert(name@ =~= authors_partition());
    name
}

/// The value of `c` if it is an ASCII digit.
fn digit_value(c: char) -> (d: Option<u64>)
    ensures
        d is Some == is_digit(c),
        d matches Some(v) ==> v == digit_of(c) && v < 10,
{
    if c == '0' {
        Some(0)
    } else if c == '1' {
        Some(1)
    } else if c == '2' {
        Some(2)
    } else if c == '3' {
        Some(3)
    } else if c == '4' {
        Some(4)
    } else if c == '5' {
        Some(5)
    } else if c == '6' {
        Some(6)
    } else if c == '7' {
        Some(7)
    } else if c == '8' {
        Some(8)
    } else if c == '9' {
        Some(9)
    } else {
        None
    }
}

/// Reads a guild identifier from text, as the configuration supplies it.
pub fn parse_guild_id(text: &str) -> (guild_id: Option<u64>)
    ensures
        guild_id == parsed_guild_id(text@),
{
    let mut value: u64 = 0;
    let mut signed: bool = false;
    let mut started: bool = false;
    let mut has_digit: bool = false;
    for c in it: text.chars()
        invariant
            it.seq() == text@,
            started == (it.index() > 0),
            signed == (it.index() > 0 && text@[0] == '+'),
            has_digit == (it.index() > (if signed { 1int } else { 0int })),
            ({
                let start: int = if signed { 1int } else { 0int };
                let seen = text@.subrange(start, it.index() as int);
                &&& all_digits(seen)
                &&& value == decimal_value(seen)
            }),
    {
        let ghost start: int = if signed { 1int } else { 0int };
        let ghost index: int = it.index() as int;
        let ghost seen = text@.subrange(start, index);
        if !started && c == '+' {
            signed = true;
            assert(text@.subrange(1, 1) =~= Seq::<char>::empty());
        } else {
            let ghost digits = unsigned_part(text@);
            let ghost next = text@.subrange(start, index + 1);
            proof {
                assert(digits =~= text@.subrange(start, text@.len() as int));
                assert(next =~= digits.take(index + 1 - start));
                assert(next.drop_last() =~= seen);
                assert(next.last() == c);
                assert(digits[index - start] == c);
                lemma_decimal_value_prefix(digits, index + 1 - start);
            }
            match digit_value(c) {
                None => {
                    return None;
                },
                Some(d) => {
                    if value > (u64::MAX - d) / 10 {
                        return None;
                    }
                    value = value * 10 + d;
                    has_digit = true;
                    assert(all_digits(next));
                },
            }
        }
        started = true;
    }
    proof {
        let start: int = if signed { 1int } else { 0int };
        assert(unsigned_part(text@) =~= text@.subrange(start, text@.len() as int));
    }
    if has_digit {
        Some(value)
    } else {
        None
    }
}

} // verus!
