use idlebot::commands::idle::{
    decode_record, examine_record, examine_records, render_line, render_report, run,
    ScannedRecord, Skipped,
};
use idlebot::elapsed::{idle_seconds, FIRST_TIMESTAMP, LAST_TIMESTAMP};
use idlebot::error::ReportError;
use idlebot::names::{display_name, UNKNOWN_NAME};
use idlebot::ranking::IdleEntry;

fn record(author: u64, timestamp: i64, name: Option<&str>) -> ScannedRecord {
    ScannedRecord {
        key: author.to_be_bytes().to_vec(),
        value: timestamp.to_be_bytes().to_vec(),
        name: name.map(|n| n.as_bytes().to_vec()),
    }
}

fn skip(index: usize, reason: ReportError) -> Skipped {
    Skipped { index, reason }
}

#[test]
fn two_authors_are_listed_most_idle_first() {
    let records = vec![record(1, 1000, Some("A")), record(2, 2000, Some("B"))];
    let (content, skipped) = run(&records, 5000);
    assert_eq!(content, "List of idle users:\n* A (1:06:40)\n* B (50:00)\n");
    assert_eq!(skipped, vec![]);
}

#[test]
fn report_order_does_not_depend_on_scan_order() {
    let records = vec![record(1, 2000, Some("B")), record(2, 1000, Some("A"))];
    let (content, skipped) = run(&records, 5000);
    assert_eq!(content, "List of idle users:\n* A (1:06:40)\n* B (50:00)\n");
    assert_eq!(skipped, vec![]);
}

#[test]
fn three_authors_oldest_first_newest_last() {
    let lines = [(100i64, "first"), (200, "second"), (300, "third")];
    let orders = [[0usize, 1, 2], [0, 2, 1], [1, 0, 2], [1, 2, 0], [2, 0, 1], [2, 1, 0]];
    for order in orders {
        let records: Vec<ScannedRecord> = order
            .iter()
            .enumerate()
            .map(|(author, &which)| record(author as u64, lines[which].0, Some(lines[which].1)))
            .collect();
        let (content, skipped) = run(&records, 330);
        assert_eq!(
            content,
            "List of idle users:\n* first (3:50)\n* second (2:10)\n* third (30s)\n"
        );
        assert_eq!(skipped, vec![]);
    }
}

#[test]
fn empty_guild_gives_the_header_alone() {
    assert_eq!(run(&Vec::new(), 0), ("List of idle users:\n".to_string(), vec![]));
}

#[test]
fn author_without_name_is_unknown() {
    let records = vec![record(1, 1000, None), record(2, 2000, Some("B"))];
    let (content, skipped) = run(&records, 2059);
    assert_eq!(content, "List of idle users:\n* Unknown (17:39)\n* B (59s)\n");
    assert_eq!(skipped, vec![]);
    assert_eq!(UNKNOWN_NAME, "Unknown");
    assert_eq!(display_name(None), Ok("Unknown".to_string()));
}

#[test]
fn missing_name_reports_as_a_stored_placeholder_does() {
    let without = vec![record(3, 30, None), record(1, 10, Some("a")), record(2, 20, None)];
    let with = vec![
        record(3, 30, Some("Unknown")),
        record(1, 10, Some("a")),
        record(2, 20, Some("Unknown")),
    ];
    assert_eq!(run(&without, 90), run(&with, 90));
    assert_eq!(
        run(&without, 90).0,
        "List of idle users:\n* a (1:20)\n* Unknown (1:10)\n* Unknown (1:00)\n"
    );
}

#[test]
fn authors_with_equal_timestamps_are_all_listed() {
    let records = vec![
        record(1, 1000, Some("A")),
        record(2, 1000, Some("B")),
        record(3, 1000, Some("C")),
    ];
    let (content, skipped) = run(&records, 1001);
    assert_eq!(content, "List of idle users:\n* A (1s)\n* B (1s)\n* C (1s)\n");
    assert_eq!(skipped, vec![]);
}

#[test]
fn idle_time_is_now_minus_timestamp() {
    assert_eq!(idle_seconds(Some(1000), 5000), Ok(4000));
    assert_eq!(idle_seconds(Some(2000), 5000), Ok(3000));
    assert_eq!(idle_seconds(Some(5000), 5000), Ok(0));
    assert_eq!(idle_seconds(Some(-10), 5), Ok(15));
    assert_eq!(idle_seconds(Some(-10), -5), Ok(5));
    assert_eq!(idle_seconds(Some(i64::MIN), i64::MAX), Ok(u64::MAX));
    assert_eq!(idle_seconds(Some(i64::MIN), 0), Ok(1 << 63));
    assert_eq!(idle_seconds(Some(-1), i64::MAX), Ok(1 << 63));
}

#[test]
fn idle_time_is_refused_for_future_or_unchecked_timestamps() {
    assert_eq!(idle_seconds(Some(5001), 5000), Err(ReportError::TimestampInFuture));
    assert_eq!(idle_seconds(Some(i64::MAX), i64::MIN), Err(ReportError::TimestampInFuture));
    assert_eq!(idle_seconds(None, 5000), Err(ReportError::TimestampOutOfRange));
}

#[test]
fn durations_are_shown_in_human_form() {
    let cases: [(i64, &str); 10] = [
        (0, "0ns"),
        (1, "1s"),
        (59, "59s"),
        (60, "1:00"),
        (61, "1:01"),
        (3599, "59:59"),
        (3600, "1:00:00"),
        (86400, "24:00:00"),
        (259200, "72:00:00"),
        (100000000000, "27777777:46:40"),
    ];
    for (idle, text) in cases {
        let (content, skipped) = run(&vec![record(1, 0, Some("n"))], idle);
        assert_eq!(content, format!("List of idle users:\n* n ({})\n", text));
        assert_eq!(skipped, vec![]);
    }
}

#[test]
fn line_is_bullet_name_and_duration() {
    assert_eq!(render_line("A", "3:50"), "* A (3:50)\n");
    assert_eq!(render_line("", ""), "*  ()\n");
    assert_eq!(render_line("Zoë (she)", "1s"), "* Zoë (she) (1s)\n");
}

#[test]
fn ranked_entries_are_rendered_in_the_given_order() {
    let entries = vec![
        IdleEntry { author_id: 2, timestamp: 50, name: "late".to_string() },
        IdleEntry { author_id: 1, timestamp: 10, name: "early".to_string() },
    ];
    assert_eq!(
        render_report(&entries, 70),
        Ok("List of idle users:\n* late (20s)\n* early (1:00)\n".to_string())
    );
    assert_eq!(
        render_report(&entries, 50),
        Ok("List of idle users:\n* late (0ns)\n* early (40s)\n".to_string())
    );
    assert_eq!(render_report(&entries, 49), Err(ReportError::TimestampInFuture));
    assert_eq!(render_report(&Vec::new(), 0), Ok("List of idle users:\n".to_string()));
}

#[test]
fn record_decodes_to_author_timestamp_and_name() {
    let entry = decode_record(&record(77, -3, Some("née"))).unwrap();
    assert_eq!(entry.author_id, 77);
    assert_eq!(entry.timestamp, -3);
    assert_eq!(entry.name, "née");
    let examined = examine_record(&record(77, -3, Some("née")), -3).unwrap();
    assert_eq!((examined.author_id, examined.timestamp), (77, -3));
    assert_eq!(examined.name, "née");
}

#[test]
fn malformed_timestamp_is_skipped() {
    let mut bad = record(1, 1000, Some("A"));
    bad.value = vec![0; 7];
    assert_eq!(decode_record(&bad).err(), Some(ReportError::MalformedTimestamp));
    assert_eq!(examine_record(&bad, 5000).err(), Some(ReportError::MalformedTimestamp));
    let (content, skipped) = run(&vec![record(2, 5, None), bad, record(3, 4940, Some("C"))], 5000);
    assert_eq!(content, "List of idle users:\n* Unknown (1:23:15)\n* C (1:00)\n");
    assert_eq!(skipped, vec![skip(1, ReportError::MalformedTimestamp)]);
}

#[test]
fn malformed_author_id_is_skipped() {
    let mut bad = record(1, 1000, Some("A"));
    bad.key = vec![0; 9];
    assert_eq!(decode_record(&bad).err(), Some(ReportError::MalformedAuthorId));
    let (content, skipped) = run(&vec![bad, record(2, 4999, Some("B"))], 5000);
    assert_eq!(content, "List of idle users:\n* B (1s)\n");
    assert_eq!(skipped, vec![skip(0, ReportError::MalformedAuthorId)]);
}

#[test]
fn malformed_name_is_skipped() {
    let mut bad = record(1, 1000, Some("A"));
    bad.name = Some(vec![0xff, 0xfe]);
    assert_eq!(decode_record(&bad).err(), Some(ReportError::MalformedName));
    let (content, skipped) = run(&vec![record(2, 4999, Some("B")), bad], 5000);
    assert_eq!(content, "List of idle users:\n* B (1s)\n");
    assert_eq!(skipped, vec![skip(1, ReportError::MalformedName)]);
    assert_eq!(display_name(Some(&vec![0xc3])), Err(ReportError::MalformedName));
    assert_eq!(display_name(Some(&vec![0xc3, 0xab])), Ok("ë".to_string()));
}

#[test]
fn value_is_checked_before_key_and_key_before_name() {
    let all_bad = ScannedRecord { key: vec![], value: vec![], name: Some(vec![0xff]) };
    assert_eq!(decode_record(&all_bad).err(), Some(ReportError::MalformedTimestamp));
    let key_and_name_bad = ScannedRecord { key: vec![], value: vec![0; 8], name: Some(vec![0xff]) };
    assert_eq!(decode_record(&key_and_name_bad).err(), Some(ReportError::MalformedAuthorId));
    let name_bad_and_late = ScannedRecord {
        key: vec![0; 8],
        value: i64::MAX.to_be_bytes().to_vec(),
        name: Some(vec![0xff]),
    };
    assert_eq!(examine_record(&name_bad_and_late, 0).err(), Some(ReportError::MalformedName));
    assert_eq!(
        examine_record(&record(1, i64::MAX, None), 0).err(),
        Some(ReportError::TimestampOutOfRange)
    );
}

#[test]
fn every_bad_record_is_skipped_and_the_rest_is_reported() {
    let mut bad_key = record(1, 1000, Some("A"));
    bad_key.key = vec![1];
    let mut bad_value = record(2, 1000, Some("B"));
    bad_value.value = vec![1];
    let mut bad_name = record(3, 1000, Some("C"));
    bad_name.name = Some(vec![0x80]);
    let scan = vec![
        record(10, 300, Some("third")),
        bad_key,
        record(11, 100, None),
        bad_value,
        record(12, 6000, Some("future")),
        bad_name,
        record(13, i64::MIN, Some("ancient")),
        record(14, 200, Some("second")),
    ];
    let (content, skipped) = run(&scan, 330);
    assert_eq!(
        content,
        "List of idle users:\n* Unknown (3:50)\n* second (2:10)\n* third (30s)\n"
    );
    assert_eq!(
        skipped,
        vec![
            skip(1, ReportError::MalformedAuthorId),
            skip(3, ReportError::MalformedTimestamp),
            skip(4, ReportError::TimestampInFuture),
            skip(5, ReportError::MalformedName),
            skip(6, ReportError::TimestampOutOfRange),
        ]
    );
}

#[test]
fn scan_of_bad_records_alone_gives_the_header() {
    let scan = vec![
        ScannedRecord { key: vec![], value: vec![], name: None },
        record(1, 10, Some("later")),
    ];
    let (content, skipped) = run(&scan, 9);
    assert_eq!(content, "List of idle users:\n");
    assert_eq!(
        skipped,
        vec![skip(0, ReportError::MalformedTimestamp), skip(1, ReportError::TimestampInFuture)]
    );
}

#[test]
fn examination_keeps_scan_order() {
    let mut bad = record(9, 1, None);
    bad.key = vec![];
    let scan = vec![record(3, 30, Some("c")), bad, record(1, 10, None), record(2, 20, Some("b"))];
    let (entries, skipped) = examine_records(&scan, 30);
    let seen: Vec<(u64, i64, &str)> =
        entries.iter().map(|e| (e.author_id, e.timestamp, e.name.as_str())).collect();
    assert_eq!(seen, vec![(3, 30, "c"), (1, 10, "Unknown"), (2, 20, "b")]);
    assert_eq!(skipped, vec![skip(1, ReportError::MalformedAuthorId)]);
}

#[test]
fn timestamp_in_the_future_is_skipped() {
    assert_eq!(
        run(&vec![record(1, 5001, Some("A"))], 5000),
        ("List of idle users:\n".to_string(), vec![skip(0, ReportError::TimestampInFuture)])
    );
    let (content, skipped) = run(&vec![record(1, 1000, Some("A")), record(2, 5001, Some("B"))], 5000);
    assert_eq!(content, "List of idle users:\n* A (1:06:40)\n");
    assert_eq!(skipped, vec![skip(1, ReportError::TimestampInFuture)]);
}

#[test]
fn timestamp_outside_the_calendar_is_skipped() {
    assert_eq!(
        run(&vec![record(1, i64::MAX, Some("A"))], i64::MAX).1,
        vec![skip(0, ReportError::TimestampOutOfRange)]
    );
    let (content, skipped) =
        run(&vec![record(1, i64::MIN, Some("A")), record(2, 4000, Some("B"))], 5000);
    assert_eq!(content, "List of idle users:\n* B (16:40)\n");
    assert_eq!(skipped, vec![skip(0, ReportError::TimestampOutOfRange)]);
}

#[test]
fn calendar_range_is_the_platform_timestamp_range() {
    assert_eq!(LAST_TIMESTAMP, 8210266876799);
    assert_eq!(FIRST_TIMESTAMP, -8334601228800);
    let (last, first) = (LAST_TIMESTAMP, FIRST_TIMESTAMP);
    assert_eq!(
        run(&vec![record(1, last, None)], last),
        ("List of idle users:\n* Unknown (0ns)\n".to_string(), vec![])
    );
    assert_eq!(
        run(&vec![record(1, last + 1, None)], last + 1).1,
        vec![skip(0, ReportError::TimestampOutOfRange)]
    );
    assert_eq!(
        run(&vec![record(1, first, None)], first + 1),
        ("List of idle users:\n* Unknown (1s)\n".to_string(), vec![])
    );
    assert_eq!(
        run(&vec![record(1, first - 1, None)], first).1,
        vec![skip(0, ReportError::TimestampOutOfRange)]
    );
    for seconds in [first - 1, first, -1, 0, 1000, 2000, 1_462_015_105, last, last + 1] {
        let accepted = serenity::model::timestamp::Timestamp::from_unix_timestamp(seconds).is_ok();
        assert_eq!(accepted, first <= seconds && seconds <= last);
        assert_eq!(examine_record(&record(1, seconds, None), i64::MAX).is_ok(), accepted);
    }
}

#[test]
fn errors_describe_themselves() {
    assert_eq!(
        ReportError::MalformedTimestamp.description(),
        "stored timestamp is not eight bytes long"
    );
    assert_eq!(
        ReportError::MalformedAuthorId.description(),
        "stored author identifier is not eight bytes long"
    );
    assert_eq!(ReportError::MalformedName.description(), "stored display name is not valid UTF-8");
    assert_eq!(ReportError::TimestampOutOfRange.description(), "stored timestamp is out of range");
    assert_eq!(
        ReportError::TimestampInFuture.description(),
        "stored timestamp is later than the current time"
    );
}
