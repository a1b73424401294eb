//! The slash commands of the bot, and what to do when one is invoked.

use vstd::prelude::*;
use vstd::utf8::{encode_utf8, encode_utf8_decode_utf8};
use crate::partition::{guild_partition, guild_partition_name};

pub mod idle;

verus! {

/// The reply to a command that the bot does not implement.
pub const NOT_IMPLEMENTED: &'static str = "not implemented :(";

/// What the handler of a command invocation has to do next.
pub enum InteractionPlan {
    /// The invocation carries no guild; there is nothing to answer from.
    MissingGuild,
    /// Scan the named partition and answer with the idle report.
    IdleReport { partition: String },
    /// Answer with the given text.
    Reply { content: String },
}

/// Mathematical value of an [`InteractionPlan`].
pub enum InteractionModel {
    MissingGuild,
    IdleReport { partition: Seq<char> },
    Reply { content: Seq<char> },
}

impl View for InteractionPlan {
    type V = InteractionModel;

    open spec fn view(&self) -> InteractionModel {
        match self {
            InteractionPlan::MissingGuild => InteractionModel::MissingGuild,
            InteractionPlan::IdleReport { partition } => InteractionModel::IdleReport {
                partition: partition@,
            },
            InteractionPlan::Reply { content } => InteractionModel::Reply { content: content@ },
        }
    }
}

/// What an invocation of the command `name` in `guild_id` calls for. The
/// guild is looked at first: without one no command is answered. The `idle`
/// command is answered from the guild's partition, any other command with
/// a fixed text.
pub open spec fn planned_interaction(name: Seq<char>, guild_id: Option<u64>) -> InteractionModel {
    match guild_id {
        None => InteractionModel::MissingGuild,
        Some(guild) => if name == idle::COMMAND_NAME@ {
            InteractionModel::IdleReport { partition: guild_partition_name(guild) }
        } else {
            InteractionModel::Reply { content: NOT_IMPLEMENTED@ }
        },
    }
}

/// Whether two strings hold the same text.
fn same_text(a: &str, b: &str) -> (same: bool)
    ensures
        same == (a@ == b@),
{
    let left = a.as_bytes();
    let right = b.as_bytes();
    proof {
        encode_utf8_decode_utf8(a@);
        encode_utf8_decode_utf8(b@);
    }
    if left.len() != right.len() {
        return false;
    }
    let mut i: usize = 0;
    while i < left.len()
        invariant
            left@ == encode_utf8(a@),
            right@ == encode_utf8(b@),
            left@.len() == right@.len(),
            i <= left@.len(),
            forall|k: int| 0 <= k < i ==> left@[k] == right@[k],
        decreases left@.len() - i,
    {
        if left[i] != right[i] {
            return false;
        }
        i = i + 1;
    }
    assert(left@ =~= right@);
    true
}

/// Decides what to do for an invocation of the command `name`.
pub fn plan_interaction(name: &str, guild_id: Option<u64>) -> (plan: InteractionPlan)
    ensures
        plan@ == planned_interaction(name@, guild_id),
{
    match guild_id {
        None => InteractionPlan::MissingGuild,
        Some(guild) => {
            if same_text(name, idle::COMMAND_NAME) {
                InteractionPlan::IdleReport { partition: guild_partition(guild) }
            } else {
                InteractionPlan::Reply { content: String::from_str(NOT_IMPLEMENTED) }
            }
        },
    }
}

} // verus!
