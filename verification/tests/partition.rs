use idlebot::partition::{
    authors_partition_name, guild_partition, parse_guild_id, AUTHORS_PARTITION,
};
use serenity::model::id::GuildId;

#[test]
fn guild_partition_is_the_decimal_identifier() {
    assert_eq!(guild_partition(0), "0");
    assert_eq!(guild_partition(7), "7");
    assert_eq!(guild_partition(10), "10");
    assert_eq!(guild_partition(175928847299117063), "175928847299117063");
    assert_eq!(guild_partition(u64::MAX), "18446744073709551615");
}

#[test]
fn guild_partition_is_how_the_platform_prints_a_guild() {
    for id in [0u64, 9, 10, 99, 100, 1234567890, 175928847299117063, u64::MAX] {
        assert_eq!(guild_partition(id), GuildId(id).to_string());
        assert_eq!(guild_partition(id), id.to_string());
    }
}

#[test]
fn authors_partition_has_its_fixed_name() {
    assert_eq!(AUTHORS_PARTITION, "authors");
    assert_eq!(authors_partition_name(), "authors");
    assert_ne!(guild_partition(0), AUTHORS_PARTITION);
}

#[test]
fn guild_id_is_read_from_digits() {
    assert_eq!(parse_guild_id("0"), Some(0));
    assert_eq!(parse_guild_id("42"), Some(42));
    assert_eq!(parse_guild_id("0042"), Some(42));
    assert_eq!(parse_guild_id("+42"), Some(42));
    assert_eq!(parse_guild_id("175928847299117063"), Some(175928847299117063));
    assert_eq!(parse_guild_id("18446744073709551615"), Some(u64::MAX));
}

#[test]
fn guild_id_is_refused_when_not_a_number() {
    assert_eq!(parse_guild_id(""), None);
    assert_eq!(parse_guild_id("+"), None);
    assert_eq!(parse_guild_id("-"), None);
    assert_eq!(parse_guild_id("-1"), None);
    assert_eq!(parse_guild_id("-0"), None);
    assert_eq!(parse_guild_id("++1"), None);
    assert_eq!(parse_guild_id("1+"), None);
    assert_eq!(parse_guild_id(" 1"), None);
    assert_eq!(parse_guild_id("1 "), None);
    assert_eq!(parse_guild_id("12a"), None);
    assert_eq!(parse_guild_id("a12"), None);
    assert_eq!(parse_guild_id("1.5"), None);
    assert_eq!(parse_guild_id("0x10"), None);
    assert_eq!(parse_guild_id("١٢٣"), None);
    assert_eq!(parse_guild_id("authors"), None);
}

#[test]
fn guild_id_is_refused_when_too_large() {
    assert_eq!(parse_guild_id("18446744073709551616"), None);
    assert_eq!(parse_guild_id("18446744073709551620"), None);
    assert_eq!(parse_guild_id("99999999999999999999"), None);
    assert_eq!(parse_guild_id("184467440737095516150"), None);
    assert_eq!(parse_guild_id("+18446744073709551616"), None);
    assert_eq!(parse_guild_id("00018446744073709551615"), Some(u64::MAX));
}

#[test]
fn guild_id_is_read_as_the_standard_library_reads_it() {
    let samples = [
        "", "0", "1", "+1", "-1", "+", "-", "+-1", "007", "18446744073709551615",
        "18446744073709551616", "28446744073709551615", "1e3", "12 ", "١", "+0", "++0", "9_000",
        "340282366920938463463374607431768211456",
    ];
    for text in samples {
        assert_eq!(parse_guild_id(text), text.parse::<u64>().ok());
    }
}

#[test]
fn partition_name_reads_back_as_the_guild() {
    for id in [0u64, 1, 10, 1 << 32, 175928847299117063, u64::MAX] {
        assert_eq!(parse_guild_id(&guild_partition(id)), Some(id));
    }
}
