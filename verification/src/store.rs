//! A mathematical model of the key-value store, and what the recorder's
//! writes do to it.
//!
//! The store itself lives outside this crate. The model says what the crate
//! relies on: a store is a map from partition name and key to value, and a
//! write replaces the value under its key.

use vstd::prelude::*;
use vstd::utf8::{decode_utf8, encode_utf8_decode_utf8, encode_utf8_valid_utf8, valid_utf8};
use crate::codec::{
    author_key, key_before, lemma_author_key_injective, lemma_author_key_of_decoded,
    lemma_author_key_order, lemma_be_bytes_len, lemma_timestamp_round_trip, timestamp_of,
    timestamp_value, timestamp_word,
};
use crate::commands::idle::{
    decoded, entry_line, examined, lemma_recorded_message_decodes, lemma_two_records_report,
    report, report_header, skipped, ScannedModel,
};
use crate::elapsed::platform_accepts;
use crate::ranking::EntryModel;
use crate::error::ReportError;
use crate::names::unknown_name;
use crate::partition::{
    authors_partition, guild_partition_name, lemma_guild_partition_injective,
    lemma_guild_partition_is_not_authors,
};
use crate::recorder::{is_recorded, planned_writes, MessageModel, WriteModel};

verus! {

/// The contents of a key-value store: the value under each partition name
/// and key that holds one.
pub struct StoreModel {
    pub records: Map<(Seq<char>, Seq<u8>), Seq<u8>>,
}

impl StoreModel {
    /// The store that holds nothing.
    pub open spec fn empty() -> StoreModel {
        StoreModel { records: Map::empty() }
    }

    /// The value under `key` in `partition`, if there is one.
    pub open spec fn get(self, partition: Seq<char>, key: Seq<u8>) -> Option<Seq<u8>> {
        if self.records.dom().contains((partition, key)) {
            Some(self.records[(partition, key)])
        } else {
            None
        }
    }

    /// The keys that hold a value in `partition`.
    pub open spec fn keys(self, partition: Seq<char>) -> Set<Seq<u8>> {
        Set::new(|key: Seq<u8>| self.records.dom().contains((partition, key)))
    }

    /// The store after one write: the written key holds the written value,
    /// everything else is as before.
    pub open spec fn put(self, write: WriteModel) -> StoreModel {
        StoreModel { records: self.records.insert((write.partition, write.key), write.value) }
    }

    /// The store after the recorder has handled `message` and its writes
    /// have been applied.
    pub open spec fn after_message(self, message: MessageModel) -> StoreModel {
        match planned_writes(message) {
            Some(plan) => self.put(plan.activity).put(plan.author_name),
            None => self,
        }
    }

    /// The last-seen timestamp stored for an author in a guild.
    pub open spec fn last_seen(self, guild_id: u64, author_id: u64) -> Option<i64> {
        match self.get(guild_partition_name(guild_id), author_key(author_id)) {
            Some(value) => timestamp_of(value),
            None => None,
        }
    }

    /// The display name stored for an author.
    pub open spec fn display_name(self, author_id: u64) -> Option<Seq<char>> {
        match self.get(authors_partition(), author_key(author_id)) {
            Some(value) => if valid_utf8(value) {
                Some(decode_utf8(value))
            } else {
                None
            },
            None => None,
        }
    }

    /// Whether the store holds nothing but what the recorder writes: every
    /// key is eight bytes long, every value in the shared partition is
    /// UTF-8, and every value in any other partition is eight bytes long.
    pub open spec fn well_formed(self) -> bool {
        forall|partition: Seq<char>, key: Seq<u8>| #[trigger]
            self.records.dom().contains((partition, key)) ==> {
                &&& key.len() == 8
                &&& if partition == authors_partition() {
                    valid_utf8(self.records[(partition, key)])
                } else {
                    self.records[(partition, key)].len() == 8
                }
            }
    }
}

/// Whether `records` is what a scan of `partition` hands out: one record for
/// every key of the partition, in key order, each with its value and with
/// the display name that the shared partition holds under the same key.
pub open spec fn is_scan_of(
    records: Seq<ScannedModel>,
    store: StoreModel,
    partition: Seq<char>,
) -> bool {
    &&& forall|i: int, j: int|
        0 <= i < j < records.len() ==> key_before(
            (#[trigger] records[i]).key,
            (#[trigger] records[j]).key,
        )
    &&& forall|i: int|
        0 <= i < records.len() ==> {
            &&& store.get(partition, (#[trigger] records[i]).key) == Some(records[i].value)
            &&& records[i].name == store.get(authors_partition(), records[i].key)
        }
    &&& forall|key: Seq<u8>| #[trigger]
        store.keys(partition).contains(key) ==> exists|i: int|
            0 <= i < records.len() && (#[trigger] records[i]).key == key
}

/// Reading an author's record right after their message was recorded gives
/// exactly the message's timestamp and the author's display name.
pub proof fn lemma_read_after_write(store: StoreModel, message: MessageModel)
    requires
        is_recorded(message),
    ensures
        store.after_message(message).get(
            guild_partition_name(message.guild_id->0),
            author_key(message.author_id),
        ) == Some(timestamp_value(message.timestamp)),
        store.after_message(message).last_seen(message.guild_id->0, message.author_id) == Some(
            message.timestamp,
        ),
        store.after_message(message).display_name(message.author_id) == Some(
            message.author_name,
        ),
{
    lemma_timestamp_round_trip(message.timestamp);
    lemma_guild_partition_is_not_authors(message.guild_id->0);
    encode_utf8_valid_utf8(message.author_name);
    encode_utf8_decode_utf8(message.author_name);
}

/// A message from a bot account, or one without a guild, leaves the store as
/// it was: no record is created and none is updated.
pub proof fn lemma_ignored_message_changes_nothing(store: StoreModel, message: MessageModel)
    requires
        message.author_is_bot || message.guild_id is None,
    ensures
        planned_writes(message) is None,
        store.after_message(message) == store,
{
}

/// A second message from the same author in the same guild replaces what the
/// first one stored: the store is as if only the second had been recorded,
/// and the guild's partition holds no more keys than after the first.
pub proof fn lemma_repeated_message_overwrites(
    store: StoreModel,
    first: MessageModel,
    second: MessageModel,
)
    requires
        is_recorded(first),
        is_recorded(second),
        first.guild_id == second.guild_id,
        first.author_id == second.author_id,
    ensures
        store.after_message(first).after_message(second) == store.after_message(second),
        store.after_message(first).after_message(second).last_seen(
            second.guild_id->0,
            second.author_id,
        ) == Some(second.timestamp),
        store.after_message(first).after_message(second).keys(
            guild_partition_name(second.guild_id->0),
        ) == store.after_message(first).keys(guild_partition_name(first.guild_id->0)),
{
    let once = store.after_message(second);
    let twice = store.after_message(first).after_message(second);
    assert(twice.records =~= once.records);
    lemma_read_after_write(store.after_message(first), second);
    assert(twice.keys(guild_partition_name(second.guild_id->0)) =~= store.after_message(
        first,
    ).keys(guild_partition_name(first.guild_id->0)));
}

/// Recording a message touches the records of its own author only: the
/// last-seen timestamp of any other author, or of the same author in another
/// guild, is what it was.
pub proof fn lemma_message_leaves_other_records(
    store: StoreModel,
    message: MessageModel,
    guild_id: u64,
    author_id: u64,
)
    requires
        is_recorded(message),
        guild_id != message.guild_id->0 || author_id != message.author_id,
    ensures
        store.after_message(message).last_seen(guild_id, author_id) == store.last_seen(
            guild_id,
            author_id,
        ),
{
    lemma_guild_partition_is_not_authors(guild_id);
    if guild_partition_name(guild_id) == guild_partition_name(message.guild_id->0) {
        lemma_guild_partition_injective(guild_id, message.guild_id->0);
    }
    if author_key(author_id) == author_key(message.author_id) {
        lemma_author_key_injective(author_id, message.author_id);
    }
}

/// The empty store is well-formed.
pub proof fn lemma_empty_store_is_well_formed()
    ensures
        StoreModel::empty().well_formed(),
{
}

/// Recording a message keeps the store well-formed, whatever the message.
pub proof fn lemma_recording_keeps_store_well_formed(store: StoreModel, message: MessageModel)
    requires
        store.well_formed(),
    ensures
        store.after_message(message).well_formed(),
{
    if is_recorded(message) {
        lemma_guild_partition_is_not_authors(message.guild_id->0);
        lemma_be_bytes_len(message.author_id as nat, 8);
        lemma_be_bytes_len(timestamp_word(message.timestamp), 8);
        encode_utf8_valid_utf8(message.author_name);
    }
}

/// In a scan of a guild's partition in a well-formed store every record
/// decodes. The entries are the guild's authors by ascending identifier,
/// each with the timestamp and the display name that the store holds for
/// them, or with the placeholder where it holds no name.
pub proof fn lemma_scan_of_well_formed_store_decodes(
    records: Seq<ScannedModel>,
    store: StoreModel,
    guild_id: u64,
)
    requires
        store.well_formed(),
        is_scan_of(records, store, guild_partition_name(guild_id)),
    ensures
        forall|i: int|
            0 <= i < records.len() ==> (decoded(#[trigger] records[i]) matches Ok(entry) && {
                &&& author_key(entry.author_id) == records[i].key
                &&& store.last_seen(guild_id, entry.author_id) == Some(entry.timestamp)
                &&& entry.name == match store.display_name(entry.author_id) {
                    Some(name) => name,
                    None => unknown_name(),
                }
            }),
        forall|i: int, j: int|
            0 <= i < j < records.len() ==> decoded(#[trigger] records[i])->Ok_0.author_id
                < decoded(#[trigger] records[j])->Ok_0.author_id,
{
    let partition = guild_partition_name(guild_id);
    lemma_guild_partition_is_not_authors(guild_id);
    assert forall|i: int| 0 <= i < records.len() implies (decoded(
        #[trigger] records[i],
    ) matches Ok(entry) && {
        &&& author_key(entry.author_id) == records[i].key
        &&& store.last_seen(guild_id, entry.author_id) == Some(entry.timestamp)
        &&& entry.name == match store.display_name(entry.author_id) {
            Some(name) => name,
            None => unknown_name(),
        }
    }) by {
        let record = records[i];
        assert(store.get(partition, record.key) == Some(record.value));
        assert(store.records.dom().contains((partition, record.key)));
        lemma_author_key_of_decoded(record.key);
        if record.name is Some {
            assert(store.records.dom().contains((authors_partition(), record.key)));
        }
    }
    assert forall|i: int, j: int| 0 <= i < j < records.len() implies decoded(
        #[trigger] records[i],
    )->Ok_0.author_id < decoded(#[trigger] records[j])->Ok_0.author_id by {
        assert(decoded(records[i]) is Ok);
        assert(decoded(records[j]) is Ok);
        lemma_author_key_order(
            decoded(records[i])->Ok_0.author_id,
            decoded(records[j])->Ok_0.author_id,
        );
    }
}

/// The entry under which a recorded message is listed.
pub open spec fn entry_of(message: MessageModel) -> EntryModel {
    EntryModel {
        author_id: message.author_id,
        timestamp: message.timestamp,
        name: message.author_name,
    }
}

/// Two authors post in one guild of an empty store, one earlier than the
/// other. A report made from a scan of that guild, at or after the later
/// post, has exactly two lines: the earlier author's first, then the later
/// author's, each with the time from that author's own post to `now`. This
/// holds whichever post the recorder handled first and whichever author has
/// the smaller identifier, for all timestamps that the platform accepts.
pub proof fn lemma_two_posts_report(
    older: MessageModel,
    newer: MessageModel,
    older_handled_first: bool,
    records: Seq<ScannedModel>,
    now: i64,
)
    requires
        is_recorded(older),
        is_recorded(newer),
        older.guild_id == newer.guild_id,
        older.author_id != newer.author_id,
        older.timestamp < newer.timestamp <= now,
        platform_accepts(older.timestamp),
        platform_accepts(newer.timestamp),
        is_scan_of(
            records,
            if older_handled_first {
                StoreModel::empty().after_message(older).after_message(newer)
            } else {
                StoreModel::empty().after_message(newer).after_message(older)
            },
            guild_partition_name(older.guild_id->0),
        ),
    ensures
        records.len() == 2,
        skipped(records, now).len() == 0,
        report(records, now) == report_header() + entry_line(entry_of(older), now) + entry_line(
            entry_of(newer),
            now,
        ),
{
    let guild_id = older.guild_id->0;
    let partition = guild_partition_name(guild_id);
    let store = if older_handled_first {
        StoreModel::empty().after_message(older).after_message(newer)
    } else {
        StoreModel::empty().after_message(newer).after_message(older)
    };
    let old_key = author_key(older.author_id);
    let new_key = author_key(newer.author_id);
    lemma_guild_partition_is_not_authors(guild_id);
    if old_key == new_key {
        lemma_author_key_injective(older.author_id, newer.author_id);
    }
    lemma_recorded_message_decodes(older, now);
    lemma_recorded_message_decodes(newer, now);
    let old_record = ScannedModel {
        key: old_key,
        value: planned_writes(older)->0.activity.value,
        name: Some(planned_writes(older)->0.author_name.value),
    };
    let new_record = ScannedModel {
        key: new_key,
        value: planned_writes(newer)->0.activity.value,
        name: Some(planned_writes(newer)->0.author_name.value),
    };
    assert(store.keys(partition).contains(old_key));
    assert(store.keys(partition).contains(new_key));
    assert forall|i: int| 0 <= i < records.len() implies (#[trigger] records[i]) == old_record
        || records[i] == new_record by {
        assert(store.get(partition, records[i].key) == Some(records[i].value));
        assert(store.records.dom().contains((partition, records[i].key)));
    }
    let at_old = choose|i: int| 0 <= i < records.len() && (#[trigger] records[i]).key == old_key;
    let at_new = choose|i: int| 0 <= i < records.len() && (#[trigger] records[i]).key == new_key;
    assert(at_old != at_new);
    assert forall|i: int, j: int| 0 <= i < j < records.len() implies (#[trigger] records[i]).key
        != (#[trigger] records[j]).key by {
        assert(key_before(records[i].key, records[j].key));
    }
    if records.len() > 2 {
        assert(records[0] == old_record || records[0] == new_record);
        assert(records[1] == old_record || records[1] == new_record);
        assert(records[2] == old_record || records[2] == new_record);
        assert(records[0].key != records[1].key);
        assert(records[0].key != records[2].key);
        assert(records[1].key != records[2].key);
    }
    assert(records[at_old] == old_record);
    assert(records[at_new] == new_record);
    assert(examined(old_record, now) == Ok::<EntryModel, ReportError>(entry_of(older)));
    assert(examined(new_record, now) == Ok::<EntryModel, ReportError>(entry_of(newer)));
    lemma_two_records_report(records, now, at_old, at_new);
}

} // verus!
