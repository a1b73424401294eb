//! Ranking of activity records by idle time.
//!
//! The most idle author comes first: the one whose last message is oldest.
//! Authors whose last messages carry the same timestamp stay in the order in
//! which the store handed their records out.

use vstd::prelude::*;

verus! {

/// One author's activity in a guild, decoded from the store.
pub struct IdleEntry {
    /// Identifier of the author.
    pub author_id: u64,
    /// When the author last spoke, in seconds since the Unix epoch.
    pub timestamp: i64,
    /// The author's display name.
    pub name: String,
}

/// Mathematical value of an [`IdleEntry`].
pub struct EntryModel {
    pub author_id: u64,
    pub timestamp: i64,
    pub name: Seq<char>,
}

impl View for IdleEntry {
    type V = EntryModel;

    open spec fn view(&self) -> EntryModel {
        EntryModel { author_id: self.author_id, timestamp: self.timestamp, name: self.name@ }
    }
}

impl DeepView for IdleEntry {
    type V = EntryModel;

    open spec fn deep_view(&self) -> EntryModel {
        self@
    }
}

/// Whether the entries stand in order of timestamp, oldest first.
pub open spec fn oldest_first(entries: Seq<EntryModel>) -> bool {
    forall|i: int, j: int|
        0 <= i <= j < entries.len() ==> entries[i].timestamp <= entries[j].timestamp
}

/// The entries that carry `timestamp`, in the order in which they occur.
pub open spec fn seen_at(entries: Seq<EntryModel>, timestamp: i64) -> Seq<EntryModel>
    decreases entries.len(),
{
    if entries.len() == 0 {
        entries
    } else if entries.last().timestamp == timestamp {
        seen_at(entries.drop_last(), timestamp).push(entries.last())
    } else {
        seen_at(entries.drop_last(), timestamp)
    }
}

/// How many of the entries are not newer than `timestamp`.
pub open spec fn count_not_newer(entries: Seq<EntryModel>, timestamp: i64) -> nat
    decreases entries.len(),
{
    if entries.len() == 0 {
        0
    } else if entries.last().timestamp <= timestamp {
        count_not_newer(entries.drop_last(), timestamp) + 1
    } else {
        count_not_newer(entries.drop_last(), timestamp)
    }
}

/// The entries ranked by idle time. Each entry, taken in the given order, is
/// placed behind all the entries ranked so far that are not newer than it.
pub open spec fn ranked(entries: Seq<EntryModel>) -> Seq<EntryModel>
    decreases entries.len(),
{
    if entries.len() == 0 {
        entries
    } else {
        let head = ranked(entries.drop_last());
        head.insert(count_not_newer(head, entries.last().timestamp) as int, entries.last())
    }
}

/// Whether `order` is a ranking of `entries`: it is sorted oldest first, and
/// for every timestamp it holds the same entries as `entries`, in the same
/// order.
pub open spec fn is_ranking_of(order: Seq<EntryModel>, entries: Seq<EntryModel>) -> bool {
    &&& oldest_first(order)
    &&& forall|timestamp: i64| #[trigger]
        seen_at(order, timestamp) == seen_at(entries, timestamp)
}

/// Selecting by timestamp commutes with concatenation.
pub proof fn lemma_seen_at_concat(a: Seq<EntryModel>, b: Seq<EntryModel>, timestamp: i64)
    ensures
        seen_at(a + b, timestamp) == seen_at(a, timestamp) + seen_at(b, timestamp),
    decreases b.len(),
{
    if b.len() == 0 {
        assert(a + b =~= a);
        assert(seen_at(a, timestamp) + seen_at(b, timestamp) =~= seen_at(a, timestamp));
    } else {
        lemma_seen_at_concat(a, b.drop_last(), timestamp);
        assert((a + b).drop_last() =~= a + b.drop_last());
        assert((a + b).last() == b.last());
        if b.last().timestamp == timestamp {
            assert((seen_at(a, timestamp) + seen_at(b.drop_last(), timestamp)).push(b.last())
                =~= seen_at(a, timestamp) + seen_at(b.drop_last(), timestamp).push(b.last()));
        }
    }
}

/// Of a single entry, selecting gives the entry or nothing.
pub proof fn lemma_seen_at_single(entry: EntryModel, timestamp: i64)
    ensures
        seen_at(seq![entry], timestamp) == if entry.timestamp == timestamp {
            seq![entry]
        } else {
            Seq::empty()
        },
{
    reveal_with_fuel(seen_at, 2);
    assert(seq![entry].drop_last() =~= Seq::<EntryModel>::empty());
    assert(Seq::<EntryModel>::empty().push(entry) =~= seq![entry]);
}

/// Where no entry carries the timestamp, nothing is selected.
pub proof fn lemma_seen_at_absent(entries: Seq<EntryModel>, timestamp: i64)
    requires
        forall|i: int| 0 <= i < entries.len() ==> entries[i].timestamp != timestamp,
    ensures
        seen_at(entries, timestamp).len() == 0,
    decreases entries.len(),
{
    if entries.len() > 0 {
        lemma_seen_at_absent(entries.drop_last(), timestamp);
    }
}

/// Where something is selected, some entry carries the timestamp.
pub proof fn lemma_seen_at_present(entries: Seq<EntryModel>, timestamp: i64)
    requires
        seen_at(entries, timestamp).len() > 0,
    ensures
        exists|i: int| 0 <= i < entries.len() && entries[i].timestamp == timestamp,
{
    if forall|i: int| 0 <= i < entries.len() ==> entries[i].timestamp != timestamp {
        lemma_seen_at_absent(entries, timestamp);
    }
}

/// In a sorted sequence the entries not newer than a timestamp are a prefix,
/// and its length is their count.
pub proof fn lemma_count_not_newer_splits(entries: Seq<EntryModel>, timestamp: i64)
    requires
        oldest_first(entries),
    ensures
        count_not_newer(entries, timestamp) <= entries.len(),
        forall|i: int|
            0 <= i < count_not_newer(entries, timestamp) ==> entries[i].timestamp <= timestamp,
        forall|i: int|
            count_not_newer(entries, timestamp) <= i < entries.len() ==> entries[i].timestamp
                > timestamp,
    decreases entries.len(),
{
    if entries.len() > 0 {
        let head = entries.drop_last();
        assert forall|i: int, j: int| 0 <= i <= j < head.len() implies head[i].timestamp
            <= head[j].timestamp by {
            assert(head[i] == entries[i] && head[j] == entries[j]);
        }
        lemma_count_not_newer_splits(head, timestamp);
        let k = count_not_newer(head, timestamp);
        if entries.last().timestamp <= timestamp {
            if k < head.len() {
                assert(head[k as int].timestamp > timestamp);
                assert(entries[k as int].timestamp <= entries[entries.len() - 1].timestamp);
            }
        }
        assert forall|i: int| 0 <= i < count_not_newer(entries, timestamp) implies entries[i].timestamp
            <= timestamp by {
            if i < head.len() {
                assert(entries[i] == head[i]);
            }
        }
        assert forall|i: int|
            count_not_newer(entries, timestamp) <= i < entries.len() implies entries[i].timestamp
            > timestamp by {
            if i < head.len() {
                assert(entries[i] == head[i]);
            }
        }
    }
}

/// Placing an entry into a ranking keeps it a ranking, now of one entry more.
pub proof fn lemma_place_keeps_ranking(head: Seq<EntryModel>, entry: EntryModel)
    requires
        oldest_first(head),
    ensures
        oldest_first(head.insert(count_not_newer(head, entry.timestamp) as int, entry)),
        forall|timestamp: i64| #[trigger]
            seen_at(
                head.insert(count_not_newer(head, entry.timestamp) as int, entry),
                timestamp,
            ) == seen_at(head.push(entry), timestamp),
{
    let k = count_not_newer(head, entry.timestamp) as int;
    lemma_count_not_newer_splits(head, entry.timestamp);
    let placed = head.insert(k, entry);
    let before = head.take(k);
    let after = head.skip(k);
    assert(placed =~= before.push(entry) + after);
    assert(head =~= before + after);
    assert forall|i: int, j: int| 0 <= i <= j < placed.len() implies placed[i].timestamp
        <= placed[j].timestamp by {
        if i < k {
            assert(placed[i] == head[i]);
        } else if i > k {
            assert(placed[i] == head[i - 1]);
        }
        if j < k {
            assert(placed[j] == head[j]);
        } else if j > k {
            assert(placed[j] == head[j - 1]);
        }
    }
    assert forall|timestamp: i64| #[trigger]
        seen_at(placed, timestamp) == seen_at(head.push(entry), timestamp) by {
        lemma_seen_at_concat(before.push(entry), after, timestamp);
        lemma_seen_at_concat(before, after, timestamp);
        assert(before.push(entry).drop_last() =~= before);
        assert(head.push(entry).drop_last() =~= head);
        if entry.timestamp == timestamp {
            assert forall|i: int| 0 <= i < after.len() implies after[i].timestamp
                != timestamp by {
                assert(after[i] == head[k + i]);
            }
            lemma_seen_at_absent(after, timestamp);
            assert(seen_at(before, timestamp).push(entry) + seen_at(after, timestamp) =~= (
                seen_at(before, timestamp) + seen_at(after, timestamp)).push(entry));
        }
    }
}

/// The ranking is sorted oldest first, has every entry exactly as often as
/// the input has it, and keeps entries of equal timestamp in input order.
pub proof fn lemma_ranked_is_ranking(entries: Seq<EntryModel>)
    ensures
        is_ranking_of(ranked(entries), entries),
        ranked(entries).len() == entries.len(),
    decreases entries.len(),
{
    if entries.len() > 0 {
        let head = ranked(entries.drop_last());
        lemma_ranked_is_ranking(entries.drop_last());
        lemma_place_keeps_ranking(head, entries.last());
        lemma_count_not_newer_splits(head, entries.last().timestamp);
        assert forall|timestamp: i64| #[trigger]
            seen_at(ranked(entries), timestamp) == seen_at(entries, timestamp) by {
            assert(head.push(entries.last()).drop_last() =~= head);
            assert(seen_at(head, timestamp) == seen_at(entries.drop_last(), timestamp));
        }
    }
}

/// Two sorted sequences that agree on every timestamp's entries are equal.
pub proof fn lemma_sorted_agreeing_are_equal(a: Seq<EntryModel>, b: Seq<EntryModel>)
    requires
        oldest_first(a),
        oldest_first(b),
        forall|timestamp: i64| #[trigger] seen_at(a, timestamp) == seen_at(b, timestamp),
    ensures
        a == b,
    decreases a.len(),
{
    if a.len() == 0 {
        if b.len() > 0 {
            assert(seen_at(a, b.last().timestamp) == seen_at(b, b.last().timestamp));
        }
        assert(a =~= b);
    } else if b.len() == 0 {
        assert(seen_at(a, a.last().timestamp) == seen_at(b, a.last().timestamp));
    } else {
        let ta = a.last().timestamp;
        let tb = b.last().timestamp;
        assert(seen_at(a, ta) == seen_at(b, ta));
        assert(seen_at(a, tb) == seen_at(b, tb));
        lemma_seen_at_present(b, ta);
        lemma_seen_at_present(a, tb);
        let i = choose|i: int| 0 <= i < b.len() && b[i].timestamp == ta;
        assert(b[i].timestamp <= b[b.len() - 1].timestamp);
        let j = choose|j: int| 0 <= j < a.len() && a[j].timestamp == tb;
        assert(a[j].timestamp <= a[a.len() - 1].timestamp);
        assert(ta == tb);
        assert(seen_at(a, ta).last() == a.last());
        assert(seen_at(b, ta).last() == b.last());
        let a_head = a.drop_last();
        let b_head = b.drop_last();
        assert forall|i: int, j: int| 0 <= i <= j < a_head.len() implies a_head[i].timestamp
            <= a_head[j].timestamp by {
            assert(a_head[i] == a[i] && a_head[j] == a[j]);
        }
        assert forall|i: int, j: int| 0 <= i <= j < b_head.len() implies b_head[i].timestamp
            <= b_head[j].timestamp by {
            assert(b_head[i] == b[i] && b_head[j] == b[j]);
        }
        assert forall|timestamp: i64| #[trigger]
            seen_at(a_head, timestamp) == seen_at(b_head, timestamp) by {
            assert(seen_at(a, timestamp) == seen_at(b, timestamp));
            if timestamp == ta {
                assert(seen_at(a, ta).drop_last() =~= seen_at(a_head, ta));
                assert(seen_at(b, ta).drop_last() =~= seen_at(b_head, ta));
            }
        }
        lemma_sorted_agreeing_are_equal(a_head, b_head);
        assert(a =~= a_head.push(a.last()));
        assert(b =~= b_head.push(b.last()));
    }
}

/// A list of entries has one ranking only.
pub proof fn lemma_ranking_is_unique(order: Seq<EntryModel>, entries: Seq<EntryModel>)
    requires
        is_ranking_of(order, entries),
    ensures
        order == ranked(entries),
{
    lemma_ranked_is_ranking(entries);
    assert forall|timestamp: i64| #[trigger]
        seen_at(order, timestamp) == seen_at(ranked(entries), timestamp) by {
        assert(seen_at(order, timestamp) == seen_at(entries, timestamp));
        assert(seen_at(ranked(entries), timestamp) == seen_at(entries, timestamp));
    }
    lemma_sorted_agreeing_are_equal(order, ranked(entries));
}

/// Ranking rearranges: every entry occurs in the ranking exactly as often as
/// in the input.
pub proof fn lemma_ranked_is_rearrangement(entries: Seq<EntryModel>)
    ensures
        ranked(entries).to_multiset() == entries.to_multiset(),
    decreases entries.len(),
{
    if entries.len() > 0 {
        let head = ranked(entries.drop_last());
        let last = entries.last();
        lemma_ranked_is_rearrangement(entries.drop_last());
        lemma_ranked_is_ranking(entries.drop_last());
        lemma_count_not_newer_splits(head, last.timestamp);
        vstd::seq_lib::to_multiset_insert(head, count_not_newer(head, last.timestamp) as int, last);
        vstd::seq_lib::to_multiset_build(entries.drop_last(), last);
        assert(entries.drop_last().push(last) =~= entries);
    }
}

/// The author who has been silent strictly longest leads the ranking,
/// wherever the store listed them.
pub proof fn lemma_most_idle_first(entries: Seq<EntryModel>, i: int)
    requires
        0 <= i < entries.len(),
        forall|j: int|
            0 <= j < entries.len() && j != i ==> entries[i].timestamp < entries[j].timestamp,
    ensures
        ranked(entries).first() == entries[i],
{
    let order = ranked(entries);
    lemma_ranked_is_ranking(entries);
    lemma_ranked_is_rearrangement(entries);
    vstd::seq_lib::to_multiset_contains(entries, entries[i]);
    vstd::seq_lib::to_multiset_contains(order, entries[i]);
    vstd::seq_lib::to_multiset_contains(entries, order[0]);
    vstd::seq_lib::to_multiset_contains(order, order[0]);
    assert(entries.contains(entries[i]));
    assert(order.contains(order[0]));
    let k = choose|k: int| 0 <= k < order.len() && order[k] == entries[i];
    let j = choose|j: int| 0 <= j < entries.len() && entries[j] == order[0];
    assert(order[0].timestamp <= order[k].timestamp);
}

/// The author who spoke strictly last closes the ranking.
pub proof fn lemma_least_idle_last(entries: Seq<EntryModel>, i: int)
    requires
        0 <= i < entries.len(),
        forall|j: int|
            0 <= j < entries.len() && j != i ==> entries[j].timestamp < entries[i].timestamp,
    ensures
        ranked(entries).last() == entries[i],
{
    let order = ranked(entries);
    let end = order.len() - 1;
    lemma_ranked_is_ranking(entries);
    lemma_ranked_is_rearrangement(entries);
    vstd::seq_lib::to_multiset_contains(entries, entries[i]);
    vstd::seq_lib::to_multiset_contains(order, entries[i]);
    vstd::seq_lib::to_multiset_contains(entries, order[end]);
    vstd::seq_lib::to_multiset_contains(order, order[end]);
    assert(entries.contains(entries[i]));
    assert(order.contains(order[end]));
    let k = choose|k: int| 0 <= k < order.len() && order[k] == entries[i];
    let j = choose|j: int| 0 <= j < entries.len() && entries[j] == order[end];
    assert(order[k].timestamp <= order[end].timestamp);
}

/// Merges two rankings into the ranking of the first list followed by the
/// second.
fn merge(left: Vec<IdleEntry>, right: Vec<IdleEntry>) -> (order: Vec<IdleEntry>)
    requires
        oldest_first(left.deep_view()),
        oldest_first(right.deep_view()),
    ensures
        is_ranking_of(order.deep_view(), left.deep_view() + right.deep_view()),
{
    let mut left = left;
    let mut right = right;
    let ghost left_all = left.deep_view();
    let ghost right_all = right.deep_view();
    // The newest entries are taken first, so `back` holds the tail of the
    // result in reverse; `tail` is that tail in its final order.
    let mut back: Vec<IdleEntry> = Vec::new();
    let ghost mut tail: Seq<EntryModel> = Seq::empty();
    proof {
        assert forall|timestamp: i64|
            seen_at(left.deep_view(), timestamp) + seen_at(right.deep_view(), timestamp)
                + #[trigger] seen_at(tail, timestamp) == seen_at(left_all, timestamp) + seen_at(
                right_all,
                timestamp,
            ) by {
            assert(seen_at(left_all, timestamp) + seen_at(right_all, timestamp) + seen_at(
                tail,
                timestamp,
            ) =~= seen_at(left_all, timestamp) + seen_at(right_all, timestamp));
        }
    }
    while left.len() > 0 || right.len() > 0
        invariant
            oldest_first(left.deep_view()),
            oldest_first(right.deep_view()),
            oldest_first(tail),
            back.len() == tail.len(),
            forall|i: int|
                0 <= i < tail.len() ==> back.deep_view()[i] == tail[tail.len() - 1 - i],
            forall|i: int|
                0 <= i < left.len() && tail.len() > 0 ==> left.deep_view()[i].timestamp
                    <= tail[0].timestamp,
            forall|i: int|
                0 <= i < right.len() && tail.len() > 0 ==> right.deep_view()[i].timestamp
                    <= tail[0].timestamp,
            forall|timestamp: i64|
                seen_at(left.deep_view(), timestamp) + seen_at(right.deep_view(), timestamp)
                    + #[trigger] seen_at(tail, timestamp) == seen_at(left_all, timestamp)
                    + seen_at(right_all, timestamp),
        decreases left.len() + right.len(),
    {
        let ghost left_before = left.deep_view();
        let ghost right_before = right.deep_view();
        let ghost tail_before = tail;
        let from_left = if right.len() == 0 {
            true
        } else if left.len() == 0 {
            false
        } else {
            left[left.len() - 1].timestamp > right[right.len() - 1].timestamp
        };
        let taken = if from_left {
            left.pop().unwrap()
        } else {
            right.pop().unwrap()
        };
        proof {
            tail = seq![taken@] + tail_before;
            if from_left {
                assert(left.deep_view() =~= left_before.drop_last());
                assert(right.deep_view() == right_before);
                assert(taken@ == left_before.last());
            } else {
                assert(right.deep_view() =~= right_before.drop_last());
                assert(left.deep_view() == left_before);
                assert(taken@ == right_before.last());
            }
            assert forall|i: int, j: int| 0 <= i <= j < tail.len() implies tail[i].timestamp
                <= tail[j].timestamp by {
                if i > 0 {
                    assert(tail[i] == tail_before[i - 1] && tail[j] == tail_before[j - 1]);
                } else if j > 0 {
                    assert(tail[j] == tail_before[j - 1]);
                    assert(tail_before[0].timestamp <= tail_before[j - 1].timestamp);
                }
            }
            assert forall|i: int| 0 <= i < left.len() implies left.deep_view()[i].timestamp
                <= tail[0].timestamp by {
                assert(left.deep_view()[i] == left_before[i]);
                assert(left_before[i].timestamp <= left_before[left_before.len()
                    - 1].timestamp);
            }
            assert forall|i: int| 0 <= i < right.len() implies right.deep_view()[i].timestamp
                <= tail[0].timestamp by {
                assert(right.deep_view()[i] == right_before[i]);
                assert(right_before[i].timestamp <= right_before[right_before.len()
                    - 1].timestamp);
            }
            assert forall|i: int, j: int| 0 <= i <= j < left.len() implies left.deep_view()[i].timestamp
                <= left.deep_view()[j].timestamp by {
                assert(left.deep_view()[i] == left_before[i]);
                assert(left.deep_view()[j] == left_before[j]);
            }
            assert forall|i: int, j: int| 0 <= i <= j < right.len() implies right.deep_view()[i].timestamp
                <= right.deep_view()[j].timestamp by {
                assert(right.deep_view()[i] == right_before[i]);
                assert(right.deep_view()[j] == right_before[j]);
            }
            assert forall|timestamp: i64|
                seen_at(left.deep_view(), timestamp) + seen_at(right.deep_view(), timestamp)
                    + #[trigger] seen_at(tail, timestamp) == seen_at(left_all, timestamp)
                    + seen_at(right_all, timestamp) by {
                let l = seen_at(left.deep_view(), timestamp);
                let r = seen_at(right.deep_view(), timestamp);
                let t = seen_at(tail_before, timestamp);
                assert(seen_at(left_before, timestamp) + seen_at(right_before, timestamp) + t
                    == seen_at(left_all, timestamp) + seen_at(right_all, timestamp));
                lemma_seen_at_concat(seq![taken@], tail_before, timestamp);
                lemma_seen_at_single(taken@, timestamp);
                if taken@.timestamp == timestamp {
                    if from_left {
                        assert forall|i: int| 0 <= i < right_before.len() implies right_before[i].timestamp
                            != timestamp by {
                            assert(right_before[i].timestamp <= right_before[right_before.len()
                                - 1].timestamp);
                        }
                        lemma_seen_at_absent(right_before, timestamp);
                        assert(l + r + (seq![taken@] + t) =~= l.push(taken@) + r + t);
                    } else {
                        assert(l + r + (seq![taken@] + t) =~= l + r.push(taken@) + t);
                    }
                } else {
                    assert(seen_at(seq![taken@], timestamp) + t =~= t);
                }
            }
        }
        let ghost back_before = back.deep_view();
        let ghost newest = taken@;
        back.push(taken);
        proof {
            assert(back.deep_view() =~= back_before.push(newest));
            assert forall|i: int| 0 <= i < tail.len() implies back.deep_view()[i] == tail[tail.len()
                - 1 - i] by {
                if i < tail_before.len() {
                    assert(back.deep_view()[i] == back_before[i]);
                    assert(tail[tail.len() - 1 - i] == tail_before[tail_before.len() - 1 - i]);
                } else {
                    assert(tail[0] == newest);
                }
            }
        }
    }
    let mut order: Vec<IdleEntry> = Vec::new();
    while back.len() > 0
        invariant
            back.len() + order.len() == tail.len(),
            forall|i: int|
                0 <= i < back.len() ==> back.deep_view()[i] == tail[tail.len() - 1 - i],
            order.deep_view() =~= tail.take(order.len() as int),
        decreases back.len(),
    {
        let ghost back_before = back.deep_view();
        let next = back.pop().unwrap();
        assert(next@ == back_before[back_before.len() - 1]);
        assert(back.deep_view() =~= back_before.drop_last());
        order.push(next);
    }
    proof {
        assert(order.deep_view() =~= tail);
        assert(left.deep_view() =~= Seq::<EntryModel>::empty());
        assert(right.deep_view() =~= Seq::<EntryModel>::empty());
        assert forall|timestamp: i64| #[trigger]
            seen_at(tail, timestamp) == seen_at(left_all + right_all, timestamp) by {
            lemma_seen_at_concat(left_all, right_all, timestamp);
            assert(seen_at(left.deep_view(), timestamp) + seen_at(right.deep_view(), timestamp)
                + seen_at(tail, timestamp) =~= seen_at(tail, timestamp));
        }
    }
    order
}

/// Ranks the entries by idle time: the author who has been silent longest
/// comes first, and authors with equal timestamps keep their order.
pub fn rank(entries: Vec<IdleEntry>) -> (order: Vec<IdleEntry>)
    ensures
        order.deep_view() == ranked(entries.deep_view()),
    decreases entries.len(),
{
    let ghost all = entries.deep_view();
    let mut left = entries;
    let count = left.len();
    if count <= 1 {
        proof {
            lemma_ranked_is_ranking(all);
            if count == 1 {
                assert(all.drop_last() =~= Seq::<EntryModel>::empty());
                assert(ranked(all) =~= all);
            }
        }
        return left;
    }
    let middle = count / 2;
    let right = left.split_off(middle);
    let ghost left_part = left.deep_view();
    let ghost right_part = right.deep_view();
    assert(left_part + right_part =~= all);
    let left = rank(left);
    let right = rank(right);
    proof {
        lemma_ranked_is_ranking(left_part);
        lemma_ranked_is_ranking(right_part);
    }
    let order = merge(left, right);
    proof {
        assert forall|timestamp: i64| #[trigger]
            seen_at(order.deep_view(), timestamp) == seen_at(all, timestamp) by {
            assert(seen_at(order.deep_view(), timestamp) == seen_at(
                ranked(left_part) + ranked(right_part),
                timestamp,
            ));
            lemma_seen_at_concat(ranked(left_part), ranked(right_part), timestamp);
            lemma_seen_at_concat(left_part, right_part, timestamp);
            assert(seen_at(ranked(left_part), timestamp) == seen_at(left_part, timestamp));
            assert(seen_at(ranked(right_part), timestamp) == seen_at(right_part, timestamp));
        }
        lemma_ranking_is_unique(order.deep_view(), all);
    }
    order
}

} // verus!
