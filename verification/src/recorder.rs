//! The activity recorder: which records a received message writes.

use vstd::prelude::*;
use vstd::utf8::encode_utf8;
use crate::codec::{author_key, encode_author_id, encode_timestamp, timestamp_value};
use crate::partition::{
    authors_partition, authors_partition_name, guild_partition, guild_partition_name,
};

verus! {

/// What the recorder needs to know of a received message.
pub struct InboundMessage {
    /// Whether the author is a bot account.
    pub author_is_bot: bool,
    /// The guild the message was sent in; `None` for a direct message.
    pub guild_id: Option<u64>,
    /// Identifier of the author.
    pub author_id: u64,
    /// When the message was sent, in seconds since the Unix epoch.
    pub timestamp: i64,
    /// The author's display name at the time of the message.
    pub author_name: String,
}

/// Mathematical value of an [`InboundMessage`].
pub struct MessageModel {
    pub author_is_bot: bool,
    pub guild_id: Option<u64>,
    pub author_id: u64,
    pub timestamp: i64,
    pub author_name: Seq<char>,
}

impl View for InboundMessage {
    type V = MessageModel;

    open spec fn view(&self) -> MessageModel {
        MessageModel {
            author_is_bot: self.author_is_bot,
            guild_id: self.guild_id,
            author_id: self.author_id,
            timestamp: self.timestamp,
            author_name: self.author_name@,
        }
    }
}

/// One upsert into the key-value store.
pub struct StoreWrite {
    /// Name of the partition to write to.
    pub partition: String,
    /// Key of the record.
    pub key: Vec<u8>,
    /// New value of the record; replaces any earlier value.
    pub value: Vec<u8>,
}

/// Mathematical value of a [`StoreWrite`].
pub struct WriteModel {
    pub partition: Seq<char>,
    pub key: Seq<u8>,
    pub value: Seq<u8>,
}

impl View for StoreWrite {
    type V = WriteModel;

    open spec fn view(&self) -> WriteModel {
        WriteModel { partition: self.partition@, key: self.key@, value: self.value@ }
    }
}

/// The two writes that record one message.
pub struct RecordPlan {
    /// Sets the author's last-seen timestamp in the guild's partition.
    pub activity: StoreWrite,
    /// Sets the author's display name in the shared partition.
    pub author_name: StoreWrite,
}

/// Mathematical value of a [`RecordPlan`].
pub struct PlanModel {
    pub activity: WriteModel,
    pub author_name: WriteModel,
}

impl View for RecordPlan {
    type V = PlanModel;

    open spec fn view(&self) -> PlanModel {
        PlanModel { activity: self.activity@, author_name: self.author_name@ }
    }
}

/// The write that sets an author's last-seen timestamp in a guild.
pub open spec fn activity_write(guild_id: u64, author_id: u64, timestamp: i64) -> WriteModel {
    WriteModel {
        partition: guild_partition_name(guild_id),
        key: author_key(author_id),
        value: timestamp_value(timestamp),
    }
}

/// The write that sets an author's display name.
pub open spec fn author_name_write(author_id: u64, name: Seq<char>) -> WriteModel {
    WriteModel {
        partition: authors_partition(),
        key: author_key(author_id),
        value: encode_utf8(name),
    }
}

/// Whether a message is recorded at all: its author is not a bot and it was
/// sent in a guild.
pub open spec fn is_recorded(message: MessageModel) -> bool {
    !message.author_is_bot && message.guild_id is Some
}

/// The writes that a message causes: none for a bot's message or a direct
/// message, otherwise the activity record and the display name.
pub open spec fn planned_writes(message: MessageModel) -> Option<PlanModel> {
    if is_recorded(message) {
        Some(
            PlanModel {
                activity: activity_write(
                    message.guild_id->0,
                    message.author_id,
                    message.timestamp,
                ),
                author_name: author_name_write(message.author_id, message.author_name),
            },
        )
    } else {
        None
    }
}

/// Decides what to store for a received message.
pub fn record_message(message: &InboundMessage) -> (plan: Option<RecordPlan>)
    ensures
        plan is Some == is_recorded(message@),
        match plan {
            Some(p) => Some(p@) == planned_writes(message@),
            None => planned_writes(message@) is None,
        },
{
    if message.author_is_bot {
        return None;
    }
    match message.guild_id {
        None => None,
        Some(guild_id) => {
            let key = encode_author_id(message.author_id);
            let stamp = encode_timestamp(message.timestamp);
            let activity = StoreWrite {
                partition: guild_partition(guild_id),
                key: vstd::slice::slice_to_vec(key.as_slice()),
                value: vstd::slice::slice_to_vec(stamp.as_slice()),
            };
            let author_name = StoreWrite {
                partition: authors_partition_name(),
                key: vstd::slice::slice_to_vec(key.as_slice()),
                value: message.author_name.as_str().as_bytes_vec(),
            };
            Some(RecordPlan { activity, author_name })
        },
    }
}

} // verus!
