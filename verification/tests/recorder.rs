use idlebot::recorder::{record_message, InboundMessage};

fn inbound(bot: bool, guild: Option<u64>, author: u64, timestamp: i64, name: &str) -> InboundMessage {
    InboundMessage {
        author_is_bot: bot,
        guild_id: guild,
        author_id: author,
        timestamp,
        author_name: name.to_string(),
    }
}

#[test]
fn guild_message_writes_activity_and_name() {
    let plan = record_message(&inbound(false, Some(42), 7, 1000, "alice")).unwrap();
    assert_eq!(plan.activity.partition, "42");
    assert_eq!(plan.activity.key, vec![0, 0, 0, 0, 0, 0, 0, 7]);
    assert_eq!(plan.activity.value, vec![0, 0, 0, 0, 0, 0, 3, 232]);
    assert_eq!(plan.author_name.partition, "authors");
    assert_eq!(plan.author_name.key, vec![0, 0, 0, 0, 0, 0, 0, 7]);
    assert_eq!(plan.author_name.value, b"alice".to_vec());
}

#[test]
fn written_bytes_are_the_big_endian_forms() {
    let author: u64 = 175928847299117063;
    let timestamp: i64 = 1_462_015_105;
    let plan = record_message(&inbound(false, Some(u64::MAX), author, timestamp, "Zoë ✓")).unwrap();
    assert_eq!(plan.activity.partition, u64::MAX.to_string());
    assert_eq!(plan.activity.key, author.to_be_bytes().to_vec());
    assert_eq!(plan.activity.value, timestamp.to_be_bytes().to_vec());
    assert_eq!(plan.author_name.key, author.to_be_bytes().to_vec());
    assert_eq!(plan.author_name.value, "Zoë ✓".as_bytes().to_vec());
}

#[test]
fn bot_message_writes_nothing() {
    assert!(record_message(&inbound(true, Some(42), 7, 1000, "robot")).is_none());
}

#[test]
fn direct_message_writes_nothing() {
    assert!(record_message(&inbound(false, None, 7, 1000, "alice")).is_none());
    assert!(record_message(&inbound(true, None, 7, 1000, "robot")).is_none());
}

#[test]
fn repeated_message_targets_the_same_record() {
    let first = record_message(&inbound(false, Some(42), 7, 1000, "alice")).unwrap();
    let second = record_message(&inbound(false, Some(42), 7, 2000, "alice2")).unwrap();
    assert_eq!(first.activity.partition, second.activity.partition);
    assert_eq!(first.activity.key, second.activity.key);
    assert_eq!(first.author_name.partition, second.author_name.partition);
    assert_eq!(first.author_name.key, second.author_name.key);
    assert_eq!(second.activity.value, 2000i64.to_be_bytes().to_vec());
    assert_eq!(second.author_name.value, b"alice2".to_vec());
}

#[test]
fn other_guild_or_author_targets_another_record() {
    let base = record_message(&inbound(false, Some(42), 7, 1000, "alice")).unwrap();
    let other_guild = record_message(&inbound(false, Some(43), 7, 1000, "alice")).unwrap();
    let other_author = record_message(&inbound(false, Some(42), 8, 1000, "bob")).unwrap();
    assert_ne!(base.activity.partition, other_guild.activity.partition);
    assert_eq!(base.author_name.key, other_guild.author_name.key);
    assert_eq!(base.activity.partition, other_author.activity.partition);
    assert_ne!(base.activity.key, other_author.activity.key);
    assert_ne!(base.author_name.key, other_author.author_name.key);
}

#[test]
fn empty_name_and_negative_timestamp_are_recorded() {
    let plan = record_message(&inbound(false, Some(0), 0, -1, "")).unwrap();
    assert_eq!(plan.activity.partition, "0");
    assert_eq!(plan.activity.key, vec![0; 8]);
    assert_eq!(plan.activity.value, vec![255; 8]);
    assert_eq!(plan.author_name.value, Vec::<u8>::new());
}
