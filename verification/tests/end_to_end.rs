use idlebot::codec::{decode_timestamp, encode_author_id};
use idlebot::commands::idle::{run, ScannedRecord};
use idlebot::commands::{plan_interaction, InteractionPlan};
use idlebot::partition::{guild_partition, AUTHORS_PARTITION};
use idlebot::recorder::{record_message, InboundMessage, StoreWrite};

fn open_store() -> sled::Db {
    sled::Config::new().temporary(true).open().expect("a temporary store opens")
}

fn apply(db: &sled::Db, write: &StoreWrite) {
    let tree = db.open_tree(write.partition.as_bytes()).expect("the partition opens");
    tree.insert(write.key.as_slice(), write.value.as_slice()).expect("the write succeeds");
}

fn post(db: &sled::Db, bot: bool, guild: Option<u64>, author: u64, timestamp: i64, name: &str) {
    let message = InboundMessage {
        author_is_bot: bot,
        guild_id: guild,
        author_id: author,
        timestamp,
        author_name: name.to_string(),
    };
    if let Some(plan) = record_message(&message) {
        apply(db, &plan.activity);
        apply(db, &plan.author_name);
    }
}

fn scan(db: &sled::Db, partition: &str) -> Vec<ScannedRecord> {
    let tree = db.open_tree(partition.as_bytes()).expect("the partition opens");
    let authors = db.open_tree(AUTHORS_PARTITION).expect("the partition opens");
    let mut records = Vec::new();
    for item in tree.iter() {
        let (key, value) = item.expect("the scan succeeds");
        let name = authors.get(&key).expect("the lookup succeeds");
        records.push(ScannedRecord {
            key: key.to_vec(),
            value: value.to_vec(),
            name: name.map(|n| n.to_vec()),
        });
    }
    records
}

fn record_count(db: &sled::Db) -> usize {
    let mut count = 0;
    for name in db.tree_names() {
        count += db.open_tree(name).expect("the partition opens").len();
    }
    count
}

fn idle_command(db: &sled::Db, guild: u64, now: i64) -> String {
    match plan_interaction("idle", Some(guild)) {
        InteractionPlan::IdleReport { partition } => {
            let (content, skipped) = run(&scan(db, &partition), now);
            assert!(skipped.is_empty());
            content
        },
        _ => panic!("the idle command is answered from the store"),
    }
}

#[test]
fn two_posts_then_idle_command() {
    let db = open_store();
    post(&db, false, Some(9), 1, 1000, "A");
    post(&db, false, Some(9), 2, 2000, "B");
    assert_eq!(idle_command(&db, 9, 5000), "List of idle users:\n* A (1:06:40)\n* B (50:00)\n");
}

#[test]
fn stored_timestamp_is_read_back() {
    let db = open_store();
    for (author, timestamp) in [(1u64, 0i64), (2, -1), (3, 1_462_015_105), (4, i64::MAX), (5, i64::MIN)] {
        post(&db, false, Some(9), author, timestamp, "n");
        let tree = db.open_tree(guild_partition(9)).unwrap();
        let value = tree.get(encode_author_id(author)).unwrap().unwrap();
        assert_eq!(decode_timestamp(&value), Some(timestamp));
    }
}

#[test]
fn bots_and_direct_messages_leave_the_store_alone() {
    let db = open_store();
    post(&db, false, Some(9), 1, 1000, "A");
    let before = record_count(&db);
    let names_before = db.tree_names().len();
    post(&db, true, Some(9), 2, 2000, "robot");
    post(&db, true, Some(9), 1, 3000, "robot");
    post(&db, false, None, 3, 4000, "whisper");
    post(&db, false, None, 1, 5000, "whisper");
    post(&db, true, None, 4, 6000, "robot");
    assert_eq!(record_count(&db), before);
    assert_eq!(db.tree_names().len(), names_before);
    assert_eq!(idle_command(&db, 9, 7000), "List of idle users:\n* A (1:40:00)\n");
}

#[test]
fn later_post_overwrites_earlier_one() {
    let db = open_store();
    post(&db, false, Some(9), 1, 1000, "A");
    post(&db, false, Some(9), 1, 2000, "A");
    post(&db, false, Some(9), 1, 1500, "Anew");
    let records = scan(&db, "9");
    assert_eq!(records.len(), 1);
    assert_eq!(decode_timestamp(&records[0].value), Some(1500));
    assert_eq!(records[0].name, Some(b"Anew".to_vec()));
    assert_eq!(idle_command(&db, 9, 1530), "List of idle users:\n* Anew (30s)\n");
}

#[test]
fn guilds_are_kept_apart_and_names_are_shared() {
    let db = open_store();
    post(&db, false, Some(1), 7, 100, "old name");
    post(&db, false, Some(2), 7, 200, "new name");
    post(&db, false, Some(2), 8, 150, "B");
    assert_eq!(idle_command(&db, 1, 260), "List of idle users:\n* new name (2:40)\n");
    assert_eq!(
        idle_command(&db, 2, 260),
        "List of idle users:\n* B (1:50)\n* new name (1:00)\n"
    );
    assert_eq!(idle_command(&db, 3, 260), "List of idle users:\n");
}

#[test]
fn activity_without_a_name_record_is_unknown() {
    let db = open_store();
    post(&db, false, Some(9), 1, 1000, "A");
    db.open_tree(AUTHORS_PARTITION).unwrap().remove(encode_author_id(1)).unwrap();
    post(&db, false, Some(9), 2, 2000, "B");
    assert_eq!(
        idle_command(&db, 9, 2059),
        "List of idle users:\n* Unknown (17:39)\n* B (59s)\n"
    );
}

#[test]
fn corrupt_record_is_skipped_and_the_rest_is_listed() {
    let db = open_store();
    post(&db, false, Some(9), 1, 1000, "A");
    post(&db, false, Some(9), 2, 2000, "B");
    post(&db, false, Some(9), 3, 1500, "C");
    db.open_tree("9").unwrap().insert(encode_author_id(2), &[1u8, 2, 3][..]).unwrap();
    db.open_tree(AUTHORS_PARTITION).unwrap().insert(encode_author_id(3), &[0xffu8][..]).unwrap();
    db.open_tree("9").unwrap().insert(&[7u8][..], &[0u8; 8][..]).unwrap();
    let (content, skipped) = run(&scan(&db, "9"), 5000);
    assert_eq!(content, "List of idle users:\n* A (1:06:40)\n");
    let seen: Vec<(usize, String)> =
        skipped.iter().map(|s| (s.index, s.reason.description())).collect();
    assert_eq!(
        seen,
        vec![
            (1, "stored timestamp is not eight bytes long".to_string()),
            (2, "stored display name is not valid UTF-8".to_string()),
            (3, "stored author identifier is not eight bytes long".to_string()),
        ]
    );
}

#[test]
fn posts_in_either_order_give_the_same_report() {
    for a_first in [true, false] {
        for (a, b) in [(1u64, 2u64), (2, 1)] {
            let db = open_store();
            if a_first {
                post(&db, false, Some(9), a, 1000, "A");
                post(&db, false, Some(9), b, 2000, "B");
            } else {
                post(&db, false, Some(9), b, 2000, "B");
                post(&db, false, Some(9), a, 1000, "A");
            }
            assert_eq!(
                idle_command(&db, 9, 2000),
                "List of idle users:\n* A (16:40)\n* B (0ns)\n"
            );
        }
    }
}

#[test]
fn scan_hands_records_out_by_author_id() {
    let db = open_store();
    for author in [300u64, 2, 70000, 1, 256, 255] {
        post(&db, false, Some(9), author, 500, "n");
    }
    let records = scan(&db, "9");
    let keys: Vec<Vec<u8>> = records.iter().map(|r| r.key.clone()).collect();
    let expected: Vec<Vec<u8>> =
        [1u64, 2, 255, 256, 300, 70000].iter().map(|&a| encode_author_id(a).to_vec()).collect();
    assert_eq!(keys, expected);
}
