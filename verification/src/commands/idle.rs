//! The `idle` command: the authors of a guild, most idle first.

use vstd::prelude::*;
use vstd::utf8::{
    decode_utf8, encode_utf8, encode_utf8_decode_utf8, encode_utf8_valid_utf8, valid_utf8,
};
use crate::codec::{
    author_id_of, decode_author_id, decode_timestamp, lemma_author_id_round_trip,
    lemma_timestamp_round_trip, timestamp_of,
};
use crate::elapsed::{
    checked_unix_timestamp, human_duration, human_duration_text, idle_seconds, platform_accepts,
    seconds_between,
};
use crate::error::ReportError;
use crate::names::{display_name, resolved_name, stored_bytes, unknown_name};
use crate::recorder::{is_recorded, planned_writes, MessageModel};
use crate::ranking::{
    lemma_least_idle_last, lemma_most_idle_first, lemma_ranked_is_ranking,
    lemma_ranked_is_rearrangement, oldest_first, rank, ranked, EntryModel, IdleEntry,
};
use serenity::builder::CreateApplicationCommand;

verus! {

/// One activity record as a scan of a guild's partition hands it out,
/// together with what the shared partition holds under the same key.
pub struct ScannedRecord {
    /// The record's key: an encoded author identifier.
    pub key: Vec<u8>,
    /// The record's value: an encoded timestamp.
    pub value: Vec<u8>,
    /// The author's stored display name, if there is one.
    pub name: Option<Vec<u8>>,
}

/// Mathematical value of a [`ScannedRecord`].
pub struct ScannedModel {
    pub key: Seq<u8>,
    pub value: Seq<u8>,
    pub name: Option<Seq<u8>>,
}

impl View for ScannedRecord {
    type V = ScannedModel;

    open spec fn view(&self) -> ScannedModel {
        ScannedModel {
            key: self.key@,
            value: self.value@,
            name: match self.name {
                Some(bytes) => Some(bytes@),
                None => None,
            },
        }
    }
}

impl DeepView for ScannedRecord {
    type V = ScannedModel;

    open spec fn deep_view(&self) -> ScannedModel {
        self@
    }
}

/// The entry that a scanned record holds. The value is checked first, then
/// the key, then the name.
pub open spec fn decoded(record: ScannedModel) -> Result<EntryModel, ReportError> {
    if timestamp_of(record.value) is None {
        Err(ReportError::MalformedTimestamp)
    } else if author_id_of(record.key) is None {
        Err(ReportError::MalformedAuthorId)
    } else {
        match resolved_name(record.name) {
            Err(e) => Err(e),
            Ok(name) => Ok(
                EntryModel {
                    author_id: author_id_of(record.key)->0,
                    timestamp: timestamp_of(record.value)->0,
                    name,
                },
            ),
        }
    }
}

/// A record that is left out of the report, and why.
#[derive(Debug, Clone, Copy, PartialEq, Eq, Structural)]
pub struct Skipped {
    /// Position of the record in the scan, counted from zero.
    pub index: usize,
    /// Why the record yields no line.
    pub reason: ReportError,
}

/// The entry that a scanned record contributes to a report at time `now`,
/// or the reason for which it contributes none. The record has to decode;
/// its timestamp has to be one that the platform's timestamp type accepts,
/// and must not lie after `now`.
pub open spec fn examined(record: ScannedModel, now: i64) -> Result<EntryModel, ReportError> {
    match decoded(record) {
        Err(e) => Err(e),
        Ok(entry) => if !platform_accepts(entry.timestamp) {
            Err(ReportError::TimestampOutOfRange)
        } else if entry.timestamp > now {
            Err(ReportError::TimestampInFuture)
        } else {
            Ok(entry)
        },
    }
}

/// The entries of the records that contribute to the report, in scan order.
pub open spec fn kept(records: Seq<ScannedModel>, now: i64) -> Seq<EntryModel>
    decreases records.len(),
{
    if records.len() == 0 {
        Seq::empty()
    } else {
        match examined(records.last(), now) {
            Ok(entry) => kept(records.drop_last(), now).push(entry),
            Err(_) => kept(records.drop_last(), now),
        }
    }
}

/// The records that contribute nothing to the report, in scan order, each
/// with its position in the scan and the reason.
pub open spec fn skipped(records: Seq<ScannedModel>, now: i64) -> Seq<Skipped>
    decreases records.len(),
{
    if records.len() == 0 {
        Seq::empty()
    } else {
        match examined(records.last(), now) {
            Ok(_) => skipped(records.drop_last(), now),
            Err(reason) => skipped(records.drop_last(), now).push(
                Skipped { index: (records.len() - 1) as usize, reason },
            ),
        }
    }
}

/// The first line of every report.
pub open spec fn report_header() -> Seq<char> {
    "List of idle users:\n"@
}

/// One line of the report: a bullet, the name, and the idle time in
/// parentheses.
pub open spec fn line_text(name: Seq<char>, idle: Seq<char>) -> Seq<char> {
    seq!['*', ' '] + name + seq![' ', '('] + idle + seq![')', '\n']
}

/// The report line of an entry at time `now`: the name and the time that
/// has passed between the entry's timestamp and `now`.
pub open spec fn entry_line(entry: EntryModel, now: i64) -> Seq<char>
    recommends
        entry.timestamp <= now,
{
    line_text(entry.name, human_duration_text((now - entry.timestamp) as u64))
}

/// The lines of the entries in the given order, one after the other.
pub open spec fn report_body(entries: Seq<EntryModel>, now: i64) -> Seq<char>
    decreases entries.len(),
{
    if entries.len() == 0 {
        Seq::empty()
    } else {
        report_body(entries.drop_last(), now) + entry_line(entries.last(), now)
    }
}

/// Whether none of the entries is later than `now`.
pub open spec fn all_timely(entries: Seq<EntryModel>, now: i64) -> bool {
    forall|i: int| 0 <= i < entries.len() ==> (#[trigger] entries[i]).timestamp <= now
}

/// The header followed by the lines of the entries in the given order.
/// There is no such text where an entry is later than `now`.
pub open spec fn rendered(entries: Seq<EntryModel>, now: i64) -> Result<Seq<char>, ReportError> {
    if all_timely(entries, now) {
        Ok(report_header() + report_body(entries, now))
    } else {
        Err(ReportError::TimestampInFuture)
    }
}

/// The idle report for a scan of a guild's partition at time `now`: the
/// header, then one line for every record that contributes an entry, most
/// idle author first.
pub open spec fn report(records: Seq<ScannedModel>, now: i64) -> Seq<char> {
    report_header() + report_body(ranked(kept(records, now)), now)
}

/// Every kept entry comes from a record of the scan, carries a timestamp
/// that the platform accepts, and is not later than `now`.
pub proof fn lemma_kept_entries(records: Seq<ScannedModel>, now: i64)
    ensures
        kept(records, now).len() + skipped(records, now).len() == records.len(),
        all_timely(kept(records, now), now),
        forall|k: int|
            0 <= k < kept(records, now).len() ==> {
                &&& platform_accepts((#[trigger] kept(records, now)[k]).timestamp)
                &&& exists|i: int|
                    0 <= i < records.len() && examined(#[trigger] records[i], now) == Ok::<
                        EntryModel,
                        ReportError,
                    >(kept(records, now)[k])
            },
    decreases records.len(),
{
    if records.len() > 0 {
        let head = records.drop_last();
        let end = records.len() - 1;
        lemma_kept_entries(head, now);
        assert forall|k: int| 0 <= k < kept(records, now).len() implies {
            &&& (#[trigger] kept(records, now)[k]).timestamp <= now
            &&& platform_accepts(kept(records, now)[k].timestamp)
            &&& exists|i: int|
                0 <= i < records.len() && examined(#[trigger] records[i], now) == Ok::<
                    EntryModel,
                    ReportError,
                >(kept(records, now)[k])
        } by {
            if k < kept(head, now).len() {
                assert(kept(records, now)[k] == kept(head, now)[k]);
                let i = choose|i: int|
                    0 <= i < head.len() && examined(#[trigger] head[i], now) == Ok::<
                        EntryModel,
                        ReportError,
                    >(kept(head, now)[k]);
                assert(records[i] == head[i]);
            } else {
                assert(examined(records[end], now) == Ok::<EntryModel, ReportError>(
                    kept(records, now)[k],
                ));
            }
        }
    }
}

/// Every skipped item names a record of the scan that contributes no entry,
/// with the reason for which it contributes none.
pub proof fn lemma_skipped_are_refused(records: Seq<ScannedModel>, now: i64, k: int)
    requires
        records.len() <= usize::MAX,
        0 <= k < skipped(records, now).len(),
    ensures
        skipped(records, now)[k].index < records.len(),
        examined(records[skipped(records, now)[k].index as int], now) == Err::<
            EntryModel,
            ReportError,
        >(skipped(records, now)[k].reason),
    decreases records.len(),
{
    if records.len() > 0 {
        let head = records.drop_last();
        if k < skipped(head, now).len() {
            lemma_skipped_are_refused(head, now, k);
            assert(skipped(records, now)[k] == skipped(head, now)[k]);
            assert(records[skipped(head, now)[k].index as int] == head[skipped(
                head,
                now,
            )[k].index as int]);
        }
    }
}

/// The skipped items stand in scan order, and no record is named twice.
pub proof fn lemma_skipped_in_scan_order(records: Seq<ScannedModel>, now: i64, k: int, l: int)
    requires
        records.len() <= usize::MAX,
        0 <= k < l < skipped(records, now).len(),
    ensures
        skipped(records, now)[k].index < skipped(records, now)[l].index,
    decreases records.len(),
{
    if records.len() > 0 {
        let head = records.drop_last();
        assert(skipped(records, now)[k] == skipped(head, now)[k]);
        if l < skipped(head, now).len() {
            lemma_skipped_in_scan_order(head, now, k, l);
            assert(skipped(records, now)[l] == skipped(head, now)[l]);
        } else {
            lemma_skipped_are_refused(head, now, k);
        }
    }
}

/// Every record that contributes no entry is named in the skipped list.
pub proof fn lemma_refused_are_skipped(records: Seq<ScannedModel>, now: i64, i: int) -> (k: int)
    requires
        records.len() <= usize::MAX,
        0 <= i < records.len(),
        examined(records[i], now) is Err,
    ensures
        0 <= k < skipped(records, now).len(),
        skipped(records, now)[k].index == i,
    decreases records.len(),
{
    let head = records.drop_last();
    if i < head.len() {
        assert(records[i] == head[i]);
        let k = lemma_refused_are_skipped(head, now, i);
        assert(skipped(records, now)[k] == skipped(head, now)[k]);
        k
    } else {
        skipped(records, now).len() - 1
    }
}

/// Where every record contributes an entry, the kept entries are those of
/// the records, one for one and in scan order, and nothing is skipped.
pub proof fn lemma_sound_scan_is_kept(records: Seq<ScannedModel>, now: i64)
    requires
        forall|i: int| 0 <= i < records.len() ==> examined(#[trigger] records[i], now) is Ok,
    ensures
        skipped(records, now).len() == 0,
        kept(records, now).len() == records.len(),
        forall|i: int|
            0 <= i < records.len() ==> examined(#[trigger] records[i], now) == Ok::<
                EntryModel,
                ReportError,
            >(kept(records, now)[i]),
    decreases records.len(),
{
    if records.len() > 0 {
        let head = records.drop_last();
        assert forall|i: int| 0 <= i < head.len() implies examined(#[trigger] head[i], now)
            is Ok by {
            assert(head[i] == records[i]);
        }
        lemma_sound_scan_is_kept(head, now);
        assert(examined(records[records.len() - 1], now) is Ok);
        assert forall|i: int| 0 <= i < records.len() implies examined(
            #[trigger] records[i],
            now,
        ) == Ok::<EntryModel, ReportError>(kept(records, now)[i]) by {
            if i < head.len() {
                assert(head[i] == records[i]);
                assert(kept(records, now)[i] == kept(head, now)[i]);
            }
        }
    }
}

/// The ranking of the kept entries holds no entry that is later than `now`.
pub proof fn lemma_ranked_kept_is_timely(records: Seq<ScannedModel>, now: i64)
    ensures
        all_timely(ranked(kept(records, now)), now),
{
    let entries = kept(records, now);
    let order = ranked(entries);
    lemma_kept_entries(records, now);
    lemma_ranked_is_rearrangement(entries);
    assert forall|i: int| 0 <= i < order.len() implies (#[trigger] order[i]).timestamp
        <= now by {
        vstd::seq_lib::to_multiset_contains(entries, order[i]);
        vstd::seq_lib::to_multiset_contains(order, order[i]);
        assert(order.contains(order[i]));
        let k = choose|k: int| 0 <= k < entries.len() && entries[k] == order[i];
        assert(entries[k].timestamp <= now);
    }
}

/// The lines of a list begin with the line of its first entry.
pub proof fn lemma_report_body_begins_with_first(entries: Seq<EntryModel>, now: i64)
    requires
        entries.len() > 0,
    ensures
        report_body(entries, now) == entry_line(entries.first(), now) + report_body(
            entries.drop_first(),
            now,
        ),
    decreases entries.len(),
{
    let head = entries.drop_last();
    let tail = entries.drop_first();
    let first = entry_line(entries.first(), now);
    let last = entry_line(entries.last(), now);
    if head.len() == 0 {
        assert(report_body(head, now) =~= Seq::<char>::empty());
        assert(report_body(tail, now) =~= Seq::<char>::empty());
        assert(Seq::<char>::empty() + first =~= first + Seq::<char>::empty());
    } else {
        lemma_report_body_begins_with_first(head, now);
        assert(head.first() == entries.first());
        assert(tail.drop_last() =~= head.drop_first());
        assert(tail.last() == entries.last());
        let middle = report_body(head.drop_first(), now);
        assert(report_body(tail, now) == middle + last);
        assert((first + middle) + last =~= first + (middle + last));
    }
}

/// In the report, the author who has been silent strictly longest among the
/// kept entries is listed first, right below the header, and the author who
/// spoke strictly last is listed at the very end, wherever the scan had
/// them.
pub proof fn lemma_report_lists_most_idle_first(
    records: Seq<ScannedModel>,
    now: i64,
    oldest: int,
    newest: int,
)
    requires
        0 <= oldest < kept(records, now).len(),
        0 <= newest < kept(records, now).len(),
        forall|j: int|
            0 <= j < kept(records, now).len() && j != oldest ==> kept(
                records,
                now,
            )[oldest].timestamp < (#[trigger] kept(records, now)[j]).timestamp,
        forall|j: int|
            0 <= j < kept(records, now).len() && j != newest ==> (#[trigger] kept(
                records,
                now,
            )[j]).timestamp < kept(records, now)[newest].timestamp,
    ensures
        exists|rest: Seq<char>|
            report(records, now) == report_header() + entry_line(
                kept(records, now)[oldest],
                now,
            ) + rest,
        exists|front: Seq<char>|
            report(records, now) == front + entry_line(kept(records, now)[newest], now),
{
    let entries = kept(records, now);
    let order = ranked(entries);
    lemma_most_idle_first(entries, oldest);
    lemma_least_idle_last(entries, newest);
    lemma_ranked_is_ranking(entries);
    lemma_report_body_begins_with_first(order, now);
    let body = report_body(order, now);
    let first_line = entry_line(entries[oldest], now);
    let last_line = entry_line(entries[newest], now);
    let rest = report_body(order.drop_first(), now);
    let front = report_header() + report_body(order.drop_last(), now);
    assert(report_header() + body =~= report_header() + first_line + rest);
    assert(report_header() + body =~= front + last_line);
}

/// Two records that both contribute, with different timestamps, give the
/// header and two lines, the older timestamp first, whatever the order of
/// the scan.
pub proof fn lemma_two_records_report(
    records: Seq<ScannedModel>,
    now: i64,
    oldest: int,
    newest: int,
)
    requires
        records.len() == 2,
        0 <= oldest < 2 && 0 <= newest < 2,
        examined(records[oldest], now) is Ok,
        examined(records[newest], now) is Ok,
        examined(records[oldest], now)->Ok_0.timestamp < examined(
            records[newest],
            now,
        )->Ok_0.timestamp,
    ensures
        skipped(records, now).len() == 0,
        report(records, now) == report_header() + entry_line(
            examined(records[oldest], now)->Ok_0,
            now,
        ) + entry_line(examined(records[newest], now)->Ok_0, now),
{
    let a = examined(records[oldest], now)->Ok_0;
    let b = examined(records[newest], now)->Ok_0;
    assert(oldest != newest);
    assert forall|i: int| 0 <= i < records.len() implies examined(#[trigger] records[i], now)
        is Ok by {
        assert(i == oldest || i == newest);
    }
    lemma_sound_scan_is_kept(records, now);
    let entries = kept(records, now);
    let order = ranked(entries);
    assert(entries[oldest] == a && entries[newest] == b);
    lemma_most_idle_first(entries, oldest);
    lemma_least_idle_last(entries, newest);
    lemma_ranked_is_ranking(entries);
    assert(order =~= seq![a, b]);
    reveal_with_fuel(report_body, 3);
    assert(seq![a, b].drop_last() =~= seq![a]);
    assert(seq![a].drop_last() =~= Seq::<EntryModel>::empty());
    assert(report_body(seq![a, b], now) =~= entry_line(a, now) + entry_line(b, now));
    assert(report_header() + (entry_line(a, now) + entry_line(b, now)) =~= report_header()
        + entry_line(a, now) + entry_line(b, now));
}

/// Three records that all contribute, with three different timestamps, give
/// the header and three lines: the oldest timestamp first, the newest last,
/// the third between them, whatever the order of the scan.
pub proof fn lemma_three_records_report(
    records: Seq<ScannedModel>,
    now: i64,
    oldest: int,
    middle: int,
    newest: int,
)
    requires
        records.len() == 3,
        0 <= oldest < 3 && 0 <= middle < 3 && 0 <= newest < 3,
        examined(records[oldest], now) is Ok,
        examined(records[middle], now) is Ok,
        examined(records[newest], now) is Ok,
        examined(records[oldest], now)->Ok_0.timestamp < examined(
            records[middle],
            now,
        )->Ok_0.timestamp,
        examined(records[middle], now)->Ok_0.timestamp < examined(
            records[newest],
            now,
        )->Ok_0.timestamp,
    ensures
        skipped(records, now).len() == 0,
        report(records, now) == report_header() + entry_line(
            examined(records[oldest], now)->Ok_0,
            now,
        ) + entry_line(examined(records[middle], now)->Ok_0, now) + entry_line(
            examined(records[newest], now)->Ok_0,
            now,
        ),
{
    let a = examined(records[oldest], now)->Ok_0;
    let b = examined(records[middle], now)->Ok_0;
    let c = examined(records[newest], now)->Ok_0;
    assert(oldest != middle && middle != newest && oldest != newest);
    assert forall|i: int| 0 <= i < records.len() implies examined(#[trigger] records[i], now)
        is Ok by {
        assert(i == oldest || i == middle || i == newest);
    }
    lemma_sound_scan_is_kept(records, now);
    let entries = kept(records, now);
    let order = ranked(entries);
    assert(entries[oldest] == a && entries[middle] == b && entries[newest] == c);
    assert forall|j: int| 0 <= j < entries.len() && j != oldest implies entries[oldest].timestamp
        < entries[j].timestamp by {
        assert(j == middle || j == newest);
    }
    assert forall|j: int| 0 <= j < entries.len() && j != newest implies entries[j].timestamp
        < entries[newest].timestamp by {
        assert(j == middle || j == oldest);
    }
    lemma_most_idle_first(entries, oldest);
    lemma_least_idle_last(entries, newest);
    lemma_ranked_is_ranking(entries);
    lemma_ranked_is_rearrangement(entries);
    vstd::seq_lib::to_multiset_contains(entries, b);
    vstd::seq_lib::to_multiset_contains(order, b);
    assert(entries.contains(b));
    let k = choose|k: int| 0 <= k < order.len() && order[k] == b;
    assert(k == 1);
    assert(order =~= seq![a, b, c]);
    reveal_with_fuel(report_body, 4);
    assert(seq![a, b, c].drop_last() =~= seq![a, b]);
    assert(seq![a, b].drop_last() =~= seq![a]);
    assert(seq![a].drop_last() =~= Seq::<EntryModel>::empty());
    assert(report_body(seq![a, b, c], now) =~= entry_line(a, now) + entry_line(b, now)
        + entry_line(c, now));
    assert(report_header() + (entry_line(a, now) + entry_line(b, now) + entry_line(c, now))
        =~= report_header() + entry_line(a, now) + entry_line(b, now) + entry_line(c, now));
}

/// The record with the placeholder stored as display name where none is
/// stored.
pub open spec fn with_placeholder(record: ScannedModel) -> ScannedModel {
    if record.name is None {
        ScannedModel {
            key: record.key,
            value: record.value,
            name: Some(encode_utf8(unknown_name())),
        }
    } else {
        record
    }
}

/// An author whose display name was never stored is listed under the
/// placeholder: the record is treated as if the placeholder were the stored
/// name, and the missing name is never the reason for skipping it.
pub proof fn lemma_missing_name_is_unknown(record: ScannedModel, now: i64)
    requires
        record.name is None,
    ensures
        decoded(record) == decoded(with_placeholder(record)),
        examined(record, now) == examined(with_placeholder(record), now),
        examined(record, now) matches Ok(entry) ==> entry.name == unknown_name(),
        examined(record, now) != Err::<EntryModel, ReportError>(ReportError::MalformedName),
        record.key.len() == 8 && record.value.len() == 8 ==> decoded(record) is Ok,
{
    encode_utf8_valid_utf8(unknown_name());
    encode_utf8_decode_utf8(unknown_name());
}

/// Missing display names change nothing but the names shown: the report and
/// the skipped records are those that the same scan gives with the
/// placeholder stored wherever a name is missing.
pub proof fn lemma_report_tolerates_missing_names(records: Seq<ScannedModel>, now: i64)
    ensures
        report(records, now) == report(
            records.map_values(|record: ScannedModel| with_placeholder(record)),
            now,
        ),
        skipped(records, now) == skipped(
            records.map_values(|record: ScannedModel| with_placeholder(record)),
            now,
        ),
{
    lemma_examination_with_placeholder(records, now);
}

/// Examining a scan gives the same result with the placeholder filled in.
proof fn lemma_examination_with_placeholder(records: Seq<ScannedModel>, now: i64)
    ensures
        kept(records, now) == kept(
            records.map_values(|record: ScannedModel| with_placeholder(record)),
            now,
        ),
        skipped(records, now) == skipped(
            records.map_values(|record: ScannedModel| with_placeholder(record)),
            now,
        ),
    decreases records.len(),
{
    let filled = records.map_values(|record: ScannedModel| with_placeholder(record));
    if records.len() > 0 {
        lemma_examination_with_placeholder(records.drop_last(), now);
        assert(filled.drop_last() =~= records.drop_last().map_values(
            |record: ScannedModel| with_placeholder(record),
        ));
        assert(filled.last() == with_placeholder(records.last()));
        if records.last().name is None {
            lemma_missing_name_is_unknown(records.last(), now);
        }
    }
}

/// Whether a record is sound at time `now`: key and value are eight bytes
/// long, the timestamp is one that the platform accepts and not later than
/// `now`, and the display name, if one is stored, is UTF-8.
pub open spec fn is_sound(record: ScannedModel, now: i64) -> bool {
    &&& record.key.len() == 8
    &&& record.value.len() == 8
    &&& platform_accepts(timestamp_of(record.value)->0)
    &&& timestamp_of(record.value)->0 <= now
    &&& (record.name matches Some(bytes) ==> valid_utf8(bytes))
}

/// A scan of sound records, some of them without a stored display name,
/// gives a report with one line for every record and skips nothing. An
/// author without a stored name is listed under the placeholder, every
/// other author under the stored name, and the lines stand oldest first.
pub proof fn lemma_nameless_authors_are_listed(records: Seq<ScannedModel>, now: i64)
    requires
        forall|i: int| 0 <= i < records.len() ==> is_sound(#[trigger] records[i], now),
    ensures
        skipped(records, now).len() == 0,
        kept(records, now).len() == records.len(),
        ranked(kept(records, now)).len() == records.len(),
        oldest_first(ranked(kept(records, now))),
        forall|i: int|
            0 <= i < records.len() ==> (#[trigger] kept(records, now)[i]).name == match records[i].name {
                Some(bytes) => decode_utf8(bytes),
                None => unknown_name(),
            },
        report(records, now) == report(
            records.map_values(|record: ScannedModel| with_placeholder(record)),
            now,
        ),
{
    assert forall|i: int| 0 <= i < records.len() implies examined(#[trigger] records[i], now)
        is Ok by {
        assert(is_sound(records[i], now));
    }
    lemma_sound_scan_is_kept(records, now);
    lemma_ranked_is_ranking(kept(records, now));
    lemma_report_tolerates_missing_names(records, now);
    assert forall|i: int| 0 <= i < records.len() implies (#[trigger] kept(
        records,
        now,
    )[i]).name == match records[i].name {
        Some(bytes) => decode_utf8(bytes),
        None => unknown_name(),
    } by {
        assert(is_sound(records[i], now));
        assert(examined(records[i], now) == Ok::<EntryModel, ReportError>(
            kept(records, now)[i],
        ));
    }
}

/// What the recorder writes for a message, the reporter reads back: the
/// written records decode to the message's author, timestamp and name, and
/// contribute that entry to every report that is made at or after the
/// message's time, provided the platform accepts the timestamp.
pub proof fn lemma_recorded_message_decodes(message: MessageModel, now: i64)
    requires
        is_recorded(message),
    ensures
        decoded(
            ScannedModel {
                key: planned_writes(message)->0.activity.key,
                value: planned_writes(message)->0.activity.value,
                name: Some(planned_writes(message)->0.author_name.value),
            },
        ) == Ok::<EntryModel, ReportError>(
            EntryModel {
                author_id: message.author_id,
                timestamp: message.timestamp,
                name: message.author_name,
            },
        ),
        platform_accepts(message.timestamp) && message.timestamp <= now ==> examined(
            ScannedModel {
                key: planned_writes(message)->0.activity.key,
                value: planned_writes(message)->0.activity.value,
                name: Some(planned_writes(message)->0.author_name.value),
            },
            now,
        ) is Ok,
{
    lemma_author_id_round_trip(message.author_id);
    lemma_timestamp_round_trip(message.timestamp);
    encode_utf8_valid_utf8(message.author_name);
    encode_utf8_decode_utf8(message.author_name);
}

/// Decodes one scanned record.
pub fn decode_record(record: &ScannedRecord) -> (entry: Result<IdleEntry, ReportError>)
    ensures
        match entry {
            Ok(e) => decoded(record@) == Ok::<EntryModel, ReportError>(e@),
            Err(e) => decoded(record@) == Err::<EntryModel, ReportError>(e),
        },
{
    let timestamp = match decode_timestamp(record.value.as_slice()) {
        Some(timestamp) => timestamp,
        None => {
            return Err(ReportError::MalformedTimestamp);
        },
    };
    let author_id = match decode_author_id(record.key.as_slice()) {
        Some(author_id) => author_id,
        None => {
            return Err(ReportError::MalformedAuthorId);
        },
    };
    let stored = match &record.name {
        Some(bytes) => Some(bytes),
        None => None,
    };
    assert(stored_bytes(stored) == record@.name);
    match display_name(stored) {
        Ok(name) => Ok(IdleEntry { author_id, timestamp, name }),
        Err(e) => Err(e),
    }
}

/// Examines one scanned record for a report at time `now`: decodes it and
/// checks its timestamp.
pub fn examine_record(record: &ScannedRecord, now: i64) -> (entry: Result<IdleEntry, ReportError>)
    ensures
        match entry {
            Ok(e) => examined(record@, now) == Ok::<EntryModel, ReportError>(e@),
            Err(e) => examined(record@, now) == Err::<EntryModel, ReportError>(e),
        },
{
    let entry = match decode_record(record) {
        Ok(entry) => entry,
        Err(e) => {
            return Err(e);
        },
    };
    let checked = checked_unix_timestamp(entry.timestamp);
    match idle_seconds(checked, now) {
        Ok(_) => Ok(entry),
        Err(e) => Err(e),
    }
}

/// Examines a scan record by record. A record that yields no entry is
/// skipped and noted with its position and the reason; the scan goes on
/// with the next record.
pub fn examine_records(records: &Vec<ScannedRecord>, now: i64) -> (out: (
    Vec<IdleEntry>,
    Vec<Skipped>,
))
    ensures
        out.0.deep_view() == kept(records.deep_view(), now),
        out.1@ == skipped(records.deep_view(), now),
{
    let mut entries: Vec<IdleEntry> = Vec::new();
    let mut skips: Vec<Skipped> = Vec::new();
    let mut i: usize = 0;
    assert(records.deep_view().take(0) =~= Seq::<ScannedModel>::empty());
    assert(entries.deep_view() =~= Seq::<EntryModel>::empty());
    while i < records.len()
        invariant
            i <= records.len(),
            entries.deep_view() == kept(records.deep_view().take(i as int), now),
            skips@ == skipped(records.deep_view().take(i as int), now),
        decreases records.len() - i,
    {
        let ghost all = records.deep_view();
        let ghost before = entries.deep_view();
        proof {
            assert(all.take(i + 1).drop_last() =~= all.take(i as int));
            assert(all.take(i + 1).last() == records[i as int]@);
        }
        match examine_record(&records[i], now) {
            Ok(entry) => {
                let ghost model = entry@;
                entries.push(entry);
                assert(entries.deep_view() =~= before.push(model));
            },
            Err(reason) => {
                skips.push(Skipped { index: i, reason });
            },
        }
        i = i + 1;
    }
    assert(records.deep_view().take(i as int) =~= records.deep_view());
    (entries, skips)
}

/// Renders one line of the report from a display name and the text of an
/// idle time.
pub fn render_line(name: &str, idle: &str) -> (line: String)
    ensures
        line@ == line_text(name@, idle@),
{
    proof {
        reveal_strlit("* ");
        reveal_strlit(" (");
        reveal_strlit(")\n");
    }
    let mut line = String::from_str("* ");
    line.append(name);
    line.append(" (");
    line.append(idle);
    line.append(")\n");
    assert(line@ =~= line_text(name@, idle@));
    line
}

/// Writes the header and the lines of entries none of which is later than
/// `now`.
fn write_lines(entries: &Vec<IdleEntry>, now: i64) -> (text: String)
    requires
        all_timely(entries.deep_view(), now),
    ensures
        text@ == report_header() + report_body(entries.deep_view(), now),
{
    let mut text = String::from_str("List of idle users:\n");
    let ghost mut body: Seq<char> = Seq::empty();
    let mut i: usize = 0;
    assert(entries.deep_view().take(0) =~= Seq::<EntryModel>::empty());
    assert(report_header() + body =~= report_header());
    while i < entries.len()
        invariant
            i <= entries.len(),
            all_timely(entries.deep_view(), now),
            report_body(entries.deep_view().take(i as int), now) == body,
            text@ == report_header() + body,
        decreases entries.len() - i,
    {
        let ghost all = entries.deep_view();
        proof {
            assert(all.take(i + 1).drop_last() =~= all.take(i as int));
            assert(all.take(i + 1).last() == entries[i as int]@);
            assert(all[i as int].timestamp <= now);
        }
        let entry = &entries[i];
        let idle = human_duration(seconds_between(entry.timestamp, now));
        let line = render_line(entry.name.as_str(), idle.as_str());
        text.append(line.as_str());
        proof {
            assert(report_header() + body + line@ =~= report_header() + (body + line@));
            body = body + line@;
        }
        i = i + 1;
    }
    assert(entries.deep_view().take(i as int) =~= entries.deep_view());
    text
}

/// Renders the report for entries that are already ranked. There is no
/// report where an entry is later than `now`.
pub fn render_report(entries: &Vec<IdleEntry>, now: i64) -> (text: Result<String, ReportError>)
    ensures
        match text {
            Ok(t) => rendered(entries.deep_view(), now) == Ok::<Seq<char>, ReportError>(t@),
            Err(e) => rendered(entries.deep_view(), now) == Err::<Seq<char>, ReportError>(e),
        },
{
    let mut i: usize = 0;
    while i < entries.len()
        invariant
            i <= entries.len(),
            forall|k: int| 0 <= k < i ==> (#[trigger] entries.deep_view()[k]).timestamp <= now,
        decreases entries.len() - i,
    {
        if entries[i].timestamp > now {
            assert(entries.deep_view()[i as int].timestamp > now);
            return Err(ReportError::TimestampInFuture);
        }
        i = i + 1;
    }
    Ok(write_lines(entries, now))
}

/// Answers the `idle` command for a guild from a scan of the guild's
/// partition. The content lists every author whose record decodes to a
/// timestamp that the platform accepts and that is not later than `now`,
/// the one who has been silent longest first, each with the time that has
/// passed between their last message and `now`. Every other record is left
/// out of the content and handed back with its position in the scan and
/// the reason, for the caller to log.
pub fn run(records: &Vec<ScannedRecord>, now: i64) -> (out: (String, Vec<Skipped>))
    ensures
        out.0@ == report(records.deep_view(), now),
        out.1@ == skipped(records.deep_view(), now),
        rendered(ranked(kept(records.deep_view(), now)), now) == Ok::<Seq<char>, ReportError>(
            out.0@,
        ),
{
    let (entries, skips) = examine_records(records, now);
    let order = rank(entries);
    proof {
        lemma_ranked_kept_is_timely(records.deep_view(), now);
    }
    let content = write_lines(&order, now);
    (content, skips)
}

/// The command builder of `serenity`, carried through as it is.
#[verifier::external_type_specification]
#[verifier::external_body]
pub struct ExCreateApplicationCommand(serenity::builder::CreateApplicationCommand);

/// The text fields that a command builder holds, by field name.
pub uninterp spec fn command_texts(command: CreateApplicationCommand) -> Map<Seq<char>, Seq<char>>;

/// The names of all the fields that a command builder holds, whatever their
/// values are.
pub uninterp spec fn command_fields(command: CreateApplicationCommand) -> Set<Seq<char>>;

/// `CreateApplicationCommand::name` of `serenity`: one insertion into the
/// builder's map, which stores the text under the field `name` and adds no
/// other field.
#[verifier::external_body]
fn set_command_name(command: &mut CreateApplicationCommand, name: &str)
    ensures
        command_texts(*final(command)) == command_texts(*old(command)).insert("name"@, name@),
        command_fields(*final(command)) == command_fields(*old(command)).insert("name"@),
{
    command.name(name);
}

/// `CreateApplicationCommand::description` of `serenity`: one insertion
/// into the builder's map, which stores the text under the field
/// `description` and adds no other field.
#[verifier::external_body]
fn set_command_description(command: &mut CreateApplicationCommand, description: &str)
    ensures
        command_texts(*final(command)) == command_texts(*old(command)).insert(
            "description"@,
            description@,
        ),
        command_fields(*final(command)) == command_fields(*old(command)).insert(
            "description"@,
        ),
{
    command.description(description);
}

/// Name under which the command is registered.
pub const COMMAND_NAME: &'static str = "idle";

/// Description shown for the command.
pub const COMMAND_DESCRIPTION: &'static str = "List idle users";

/// Fills in the registration of the `idle` command: its name and its
/// description. The command takes no arguments: no other field is added to
/// the builder, so a fresh builder ends with these two fields and without
/// options.
pub fn register(command: &mut CreateApplicationCommand) -> (registered:
    &mut CreateApplicationCommand)
    ensures
        command_texts(*registered) == command_texts(*old(command)).insert(
            "name"@,
            COMMAND_NAME@,
        ).insert("description"@, COMMAND_DESCRIPTION@),
        command_fields(*registered) == command_fields(*old(command)).insert("name"@).insert(
            "description"@,
        ),
        *final(command) == *final(registered),
{
    set_command_name(command, COMMAND_NAME);
    set_command_description(command, COMMAND_DESCRIPTION);
    command
}

} // verus!
