//! Opt-in conversation corpus recorder.
//!
//! Each completed turn of a conversation produces an *incremental turn event*:
//! only the messages new to that turn are kept, so a full conversation is
//! reconstructed downstream by concatenating the `messages` of every event
//! sharing a `conversation_id`.
//!
//! The recorder remembers, for a bounded number of recent responses, which
//! conversation they belong to and how many messages that conversation held.
//! When the bound is exceeded the least recently recorded response is
//! forgotten; a later child of a forgotten response simply starts a new
//! conversation (fragmentation, never data loss).
//!
//! Records may contain prompts, tool call arguments, and tool outputs. Treat
//! their destination as sensitive.

use std::collections::VecDeque;
use vstd::hash_map::StringHashMap;
use vstd::prelude::*;

use crate::calendar::{
    date_of_unix_day,
    iso_date_text,
    lemma_text_lt_framed,
    lemma_utc_dates_sort_by_instant,
    text_lt,
    utc_date_from_unix_secs,
};

verus! {

/// Upper bound on response_id chains tracked in memory for delta computation.
/// If a chain is evicted and a later child request references it, that child
/// simply starts a new conversation: acceptable fragmentation, never data loss.
pub const DEFAULT_MAX_TRACKED_CHAINS: usize = 4096;

// ---------------------------------------------------------------------------
// The model
// ---------------------------------------------------------------------------

/// What is remembered of a recorded response: the conversation it belongs to
/// and the number of messages that conversation held after it.
pub struct ChainEntry {
    pub conversation_id: Seq<char>,
    pub message_count: nat,
}

/// The recorder's state: the remembered responses, their ids from least to
/// most recently recorded, and the bound on how many are remembered.
pub struct ChainIndex {
    pub chains: Map<Seq<char>, ChainEntry>,
    pub order: Seq<Seq<char>>,
    pub max_tracked: nat,
}

/// The predicate that keeps every id but `id`.
pub open spec fn other_than(id: Seq<char>) -> spec_fn(Seq<char>) -> bool {
    |k: Seq<char>| k != id
}

/// An optional borrowed string, as text.
pub open spec fn text_of_str_option(o: Option<&str>) -> Option<Seq<char>> {
    match o {
        Some(s) => Some(s@),
        None => None,
    }
}

/// An optional owned string, as text.
pub open spec fn text_of_string_option(o: Option<String>) -> Option<Seq<char>> {
    match o {
        Some(s) => Some(s@),
        None => None,
    }
}

impl ChainIndex {
    /// Every remembered response appears once in the recency order, the order
    /// names only remembered responses, and no more than `max_tracked` are
    /// remembered.
    pub open spec fn wf(self) -> bool {
        &&& self.order.no_duplicates()
        &&& self.chains.dom() == self.order.to_set()
        &&& self.order.len() <= self.max_tracked
    }

    /// The remembered position of the parent response, if it has one that is
    /// still remembered.
    pub open spec fn parent_entry(self, parent: Option<Seq<char>>) -> Option<ChainEntry> {
        match parent {
            Some(p) => if self.chains.contains_key(p) {
                Some(self.chains[p])
            } else {
                None
            },
            None => None,
        }
    }

    /// The conversation a new response belongs to: its remembered parent's,
    /// or else a new one named after the response itself.
    pub open spec fn conversation_for(self, parent: Option<Seq<char>>, response_id: Seq<char>) -> Seq<
        char,
    > {
        match self.parent_entry(parent) {
            Some(entry) => entry.conversation_id,
            None => response_id,
        }
    }

    /// Where the messages new to this turn begin in a conversation of
    /// `message_count` messages: after the parent's messages, if the parent is
    /// remembered, and never past the end.
    pub open spec fn delta_start(self, parent: Option<Seq<char>>, message_count: nat) -> nat {
        let prev: nat = match self.parent_entry(parent) {
            Some(entry) => entry.message_count,
            None => 0,
        };
        if prev <= message_count {
            prev
        } else {
            message_count
        }
    }

    /// The number of least recently recorded responses that are forgotten
    /// once `order` is the recency order.
    pub open spec fn overflow(self, order: Seq<Seq<char>>) -> nat {
        if order.len() > self.max_tracked {
            (order.len() - self.max_tracked) as nat
        } else {
            0
        }
    }

    /// Remember `entry` for `response_id` as the most recent response, then
    /// forget the least recently recorded responses beyond `max_tracked`.
    pub open spec fn remember(self, response_id: Seq<char>, entry: ChainEntry) -> ChainIndex {
        let order = self.order.filter(other_than(response_id)).push(response_id);
        let chains = self.chains.insert(response_id, entry);
        let evicted = self.overflow(order);
        ChainIndex {
            chains: chains.remove_keys(order.take(evicted as int).to_set()),
            order: order.skip(evicted as int),
            max_tracked: self.max_tracked,
        }
    }

    /// The state after recording a turn of `message_count` messages that
    /// produced `response_id`.
    pub open spec fn after_turn(
        self,
        parent: Option<Seq<char>>,
        response_id: Seq<char>,
        message_count: nat,
    ) -> ChainIndex {
        self.remember(
            response_id,
            ChainEntry {
                conversation_id: self.conversation_for(parent, response_id),
                message_count,
            },
        )
    }
}

// ---------------------------------------------------------------------------
// Lemmas on the recency order
// ---------------------------------------------------------------------------

proof fn lemma_filter_other_than_absent(s: Seq<Seq<char>>, id: Seq<char>)
    requires
        !s.contains(id),
    ensures
        s.filter(other_than(id)) == s,
    decreases s.len(),
{
    reveal(Seq::filter);
    if s.len() > 0 {
        lemma_filter_other_than_absent(s.drop_last(), id);
        assert(s.drop_last().push(s.last()) =~= s);
    }
}

proof fn lemma_filter_other_than_present(s: Seq<Seq<char>>, id: Seq<char>, i: int)
    requires
        s.no_duplicates(),
        0 <= i < s.len(),
        s[i] == id,
    ensures
        s.filter(other_than(id)) == s.remove(i),
    decreases s.len(),
{
    reveal(Seq::filter);
    if i == s.len() - 1 {
        assert(!s.drop_last().contains(id));
        lemma_filter_other_than_absent(s.drop_last(), id);
        assert(s.remove(i) =~= s.drop_last());
    } else {
        lemma_filter_other_than_present(s.drop_last(), id, i);
        assert(s.remove(i) =~= s.drop_last().remove(i).push(s.last()));
    }
}

/// Taking `id` out of a duplicate-free order and appending it again keeps the
/// order duplicate-free and makes its set of ids that of the old one plus `id`.
proof fn lemma_move_to_back(s: Seq<Seq<char>>, id: Seq<char>)
    requires
        s.no_duplicates(),
    ensures
        s.filter(other_than(id)).push(id).no_duplicates(),
        s.filter(other_than(id)).push(id).to_set() == s.to_set().insert(id),
        s.filter(other_than(id)).push(id).last() == id,
{
    let o = s.filter(other_than(id)).push(id);
    if s.contains(id) {
        let i = choose|i: int| 0 <= i < s.len() && s[i] == id;
        lemma_filter_other_than_present(s, id, i);
        let r = s.remove(i);
        assert forall|a: int, b: int| 0 <= a < b < o.len() implies o[a] != o[b] by {
            if b < r.len() {
                let a0 = if a < i { a } else { a + 1 };
                let b0 = if b < i { b } else { b + 1 };
                assert(r[a] == s[a0] && r[b] == s[b0]);
            } else {
                let a0 = if a < i { a } else { a + 1 };
                assert(r[a] == s[a0]);
            }
        }
        assert forall|k: Seq<char>| o.contains(k) <==> s.to_set().insert(id).contains(k) by {
            if k == id {
                assert(o[o.len() - 1] == id);
            }
            if s.contains(k) && k != id {
                let j = choose|j: int| 0 <= j < s.len() && s[j] == k;
                let j0 = if j < i { j } else { j - 1 };
                assert(o[j0] == k);
            }
            if o.contains(k) && k != id {
                let j = choose|j: int| 0 <= j < o.len() && o[j] == k;
                let j0 = if j < i { j } else { j + 1 };
                assert(s[j0] == k);
            }
        }
    } else {
        lemma_filter_other_than_absent(s, id);
        assert forall|k: Seq<char>| o.contains(k) <==> s.to_set().insert(id).contains(k) by {
            if k == id {
                assert(o[o.len() - 1] == id);
            }
            if s.contains(k) {
                let j = choose|j: int| 0 <= j < s.len() && s[j] == k;
                assert(o[j] == k);
            }
            if o.contains(k) && k != id {
                let j = choose|j: int| 0 <= j < o.len() && o[j] == k;
                assert(s[j] == k);
            }
        }
    }
    assert(o.to_set() =~= s.to_set().insert(id));
}

/// Forgetting the first `n` ids of a duplicate-free order leaves exactly the
/// rest of them remembered.
proof fn lemma_forget_prefix(
    order: Seq<Seq<char>>,
    chains: Map<Seq<char>, ChainEntry>,
    n: int,
)
    requires
        order.no_duplicates(),
        chains.dom() == order.to_set(),
        0 <= n <= order.len(),
    ensures
        chains.remove_keys(order.take(n).to_set()).dom() == order.skip(n).to_set(),
        order.skip(n).no_duplicates(),
        order.skip(n).to_set().len() == order.len() - n,
{
    let rest = order.skip(n);
    assert forall|k: Seq<char>|
        chains.remove_keys(order.take(n).to_set()).dom().contains(k) <==> rest.to_set().contains(
            k,
        ) by {
        if rest.contains(k) {
            let j = choose|j: int| 0 <= j < rest.len() && rest[j] == k;
            assert(order[n + j] == k);
            assert(order.contains(k));
            if order.take(n).contains(k) {
                let a = choose|a: int| 0 <= a < n && order.take(n)[a] == k;
                assert(order[a] == order[n + j]);
            }
        }
        if chains.remove_keys(order.take(n).to_set()).dom().contains(k) {
            assert(order.contains(k));
            let j = choose|j: int| 0 <= j < order.len() && order[j] == k;
            if j < n {
                assert(order.take(n)[j] == k);
            } else {
                assert(rest[j - n] == k);
            }
        }
    }
    assert(chains.remove_keys(order.take(n).to_set()).dom() =~= rest.to_set());
    assert forall|a: int, b: int| 0 <= a < b < rest.len() implies rest[a] != rest[b] by {
        assert(rest[a] == order[n + a] && rest[b] == order[n + b]);
    }
    rest.unique_seq_to_set();
}

// ---------------------------------------------------------------------------
// Laws of the recorder
// ---------------------------------------------------------------------------

/// Recording a turn keeps the state consistent: every remembered response is
/// named once in the recency order and at most `max_tracked` are remembered.
pub proof fn lemma_after_turn_wf(
    index: ChainIndex,
    parent: Option<Seq<char>>,
    response_id: Seq<char>,
    message_count: nat,
)
    requires
        index.wf(),
    ensures
        index.after_turn(parent, response_id, message_count).wf(),
{
    let entry = ChainEntry {
        conversation_id: index.conversation_for(parent, response_id),
        message_count,
    };
    let order = index.order.filter(other_than(response_id)).push(response_id);
    let chains = index.chains.insert(response_id, entry);
    lemma_move_to_back(index.order, response_id);
    assert(chains.dom() =~= index.chains.dom().insert(response_id));
    lemma_forget_prefix(order, chains, index.overflow(order) as int);
    order.skip(index.overflow(order) as int).unique_seq_to_set();
}

/// Unless nothing may be remembered at all, the response just recorded is
/// remembered afterwards, in the conversation it was recorded in and with the
/// message count it was recorded with, as the most recent response.
pub proof fn lemma_latest_response_remembered(
    index: ChainIndex,
    parent: Option<Seq<char>>,
    response_id: Seq<char>,
    message_count: nat,
)
    requires
        index.wf(),
        index.max_tracked >= 1,
    ensures
        ({
            let after = index.after_turn(parent, response_id, message_count);
            &&& after.parent_entry(Some(response_id)) == Some(
                ChainEntry {
                    conversation_id: index.conversation_for(parent, response_id),
                    message_count,
                },
            )
            &&& after.order.last() == response_id
        }),
{
    let order = index.order.filter(other_than(response_id)).push(response_id);
    let n = index.overflow(order) as int;
    lemma_move_to_back(index.order, response_id);
    lemma_after_turn_wf(index, parent, response_id, message_count);
    let after = index.after_turn(parent, response_id, message_count);
    assert(n < order.len());
    assert(order.skip(n)[order.len() - n - 1] == response_id);
    if order.take(n).contains(response_id) {
        let a = choose|a: int| 0 <= a < n && order.take(n)[a] == response_id;
        assert(order[a] == order[order.len() - 1]);
    }
}

/// A turn that continues a remembered response joins that response's
/// conversation, and its new messages begin after the messages the parent's
/// conversation already held.
pub proof fn lemma_continuation_joins_conversation(
    index: ChainIndex,
    parent: Option<Seq<char>>,
    first_id: Seq<char>,
    first_count: nat,
    second_id: Seq<char>,
    second_count: nat,
)
    requires
        index.wf(),
        index.max_tracked >= 1,
    ensures
        ({
            let after = index.after_turn(parent, first_id, first_count);
            &&& after.conversation_for(Some(first_id), second_id) == index.conversation_for(
                parent,
                first_id,
            )
            &&& after.delta_start(Some(first_id), second_count) == if first_count
                <= second_count {
                first_count
            } else {
                second_count
            }
        }),
{
    lemma_latest_response_remembered(index, parent, first_id, first_count);
}

/// A turn whose parent is absent or no longer remembered starts a new
/// conversation named after itself, and all of its messages are new.
pub proof fn lemma_unknown_parent_starts_conversation(
    index: ChainIndex,
    parent: Option<Seq<char>>,
    response_id: Seq<char>,
    message_count: nat,
)
    requires
        parent matches Some(p) ==> !index.chains.contains_key(p),
    ensures
        index.conversation_for(parent, response_id) == response_id,
        index.delta_start(parent, message_count) == 0,
{
}

/// Concatenating the events of a chain gives back the conversation: when the
/// parent turn's conversation is a prefix of this turn's, the parent's
/// messages followed by this turn's new messages are this turn's messages.
pub proof fn lemma_delta_reconstructs<M>(
    index: ChainIndex,
    parent: Option<Seq<char>>,
    parent_messages: Seq<M>,
    messages: Seq<M>,
)
    requires
        index.parent_entry(parent) matches Some(entry) && entry.message_count
            == parent_messages.len(),
        parent_messages.len() <= messages.len(),
        messages.take(parent_messages.len() as int) == parent_messages,
    ensures
        parent_messages + messages.skip(index.delta_start(parent, messages.len()) as int)
            == messages,
{
    assert(parent_messages + messages.skip(parent_messages.len() as int) =~= messages);
}

/// Recording a turn never alters what is remembered of other responses: each
/// of them is either kept as it was or forgotten.
pub proof fn lemma_other_responses_unchanged(
    index: ChainIndex,
    parent: Option<Seq<char>>,
    response_id: Seq<char>,
    message_count: nat,
    other: Seq<char>,
)
    requires
        other != response_id,
        index.after_turn(parent, response_id, message_count).chains.contains_key(other),
    ensures
        index.chains.contains_key(other),
        index.after_turn(parent, response_id, message_count).chains[other]
            == index.chains[other],
{
}

/// While there is room, nothing is forgotten: if the recorded response was
/// already remembered, or fewer than `max_tracked` responses are remembered,
/// every remembered response is still remembered afterwards.
pub proof fn lemma_nothing_forgotten_below_capacity(
    index: ChainIndex,
    parent: Option<Seq<char>>,
    response_id: Seq<char>,
    message_count: nat,
    kept: Seq<char>,
)
    requires
        index.wf(),
        index.chains.contains_key(response_id) || index.order.len() < index.max_tracked,
        index.chains.contains_key(kept),
    ensures
        index.after_turn(parent, response_id, message_count).chains.contains_key(kept),
{
    let order = index.order.filter(other_than(response_id)).push(response_id);
    lemma_move_to_back(index.order, response_id);
    order.unique_seq_to_set();
    index.order.unique_seq_to_set();
    assert(index.order.to_set().insert(response_id).len() <= index.max_tracked) by {
        if index.chains.contains_key(response_id) {
            assert(index.order.to_set().insert(response_id) =~= index.order.to_set());
        }
    }
    assert(index.overflow(order) == 0);
    assert(order.take(0).to_set() =~= Set::<Seq<char>>::empty());
}

/// A remembered response is found as a parent wherever it stands in the
/// recency order: a turn continuing it joins its conversation, and its new
/// messages begin after the parent's message count (or at the end, if the
/// turn has fewer messages). A response that is not remembered is not found.
pub proof fn lemma_remembered_parent_found(
    index: ChainIndex,
    parent: Seq<char>,
    response_id: Seq<char>,
    message_count: nat,
)
    requires
        index.wf(),
    ensures
        index.chains.contains_key(parent) ==> {
            &&& index.conversation_for(Some(parent), response_id)
                == index.chains[parent].conversation_id
            &&& index.delta_start(Some(parent), message_count) == if index.chains[parent].message_count
                <= message_count {
                index.chains[parent].message_count
            } else {
                message_count
            }
        },
        !index.chains.contains_key(parent) ==> {
            &&& index.conversation_for(Some(parent), response_id) == response_id
            &&& index.delta_start(Some(parent), message_count) == 0
        },
{
}

/// What recording a turn does to the remembered responses, case by case.
/// The recorded response is remembered, in its parent's conversation when the
/// parent is remembered and in a new one named after itself otherwise, with
/// the turn's message count, as the most recent response. Nothing else is
/// forgotten unless the bound is reached, and then exactly the least recently
/// recorded response is forgotten:
/// - a response recorded again moves to the back of the order;
/// - a new response below the bound is appended;
/// - a new response at the bound is appended and the oldest is dropped;
/// - with a bound of zero nothing is remembered.
pub proof fn lemma_after_turn_exact(
    index: ChainIndex,
    parent: Option<Seq<char>>,
    response_id: Seq<char>,
    message_count: nat,
)
    requires
        index.wf(),
    ensures
        ({
            let after = index.after_turn(parent, response_id, message_count);
            let conversation = match parent {
                Some(p) => if index.chains.contains_key(p) {
                    index.chains[p].conversation_id
                } else {
                    response_id
                },
                None => response_id,
            };
            let entry = ChainEntry { conversation_id: conversation, message_count };
            &&& after.max_tracked == index.max_tracked
            &&& index.max_tracked == 0 ==> after.order == Seq::<Seq<char>>::empty()
                && after.chains == Map::<Seq<char>, ChainEntry>::empty()
            &&& index.max_tracked >= 1 ==> {
                &&& after.chains.contains_key(response_id)
                &&& after.chains[response_id] == entry
                &&& forall|i: int|
                    0 <= i < index.order.len() && index.order[i] == response_id ==> {
                        &&& after.order == index.order.remove(i).push(response_id)
                        &&& after.chains == index.chains.insert(response_id, entry)
                    }
                &&& !index.chains.contains_key(response_id) && index.order.len()
                    < index.max_tracked ==> {
                    &&& after.order == index.order.push(response_id)
                    &&& after.chains == index.chains.insert(response_id, entry)
                }
                &&& !index.chains.contains_key(response_id) && index.order.len()
                    == index.max_tracked ==> {
                    &&& after.order == index.order.skip(1).push(response_id)
                    &&& after.chains == index.chains.remove(index.order[0]).insert(
                        response_id,
                        entry,
                    )
                }
            }
        }),
{
    let after = index.after_turn(parent, response_id, message_count);
    let entry = ChainEntry {
        conversation_id: index.conversation_for(parent, response_id),
        message_count,
    };
    let order = index.order.filter(other_than(response_id)).push(response_id);
    let chains = index.chains.insert(response_id, entry);
    let present = index.chains.contains_key(response_id);
    assert(index.chains.dom().contains(response_id) == index.order.contains(response_id));
    if index.max_tracked == 0 {
        assert(index.order =~= Seq::<Seq<char>>::empty());
        lemma_filter_other_than_absent(index.order, response_id);
        assert(order =~= seq![response_id]);
        assert(index.overflow(order) == 1);
        assert(order.take(1)[0] == response_id);
        assert(order.take(1).to_set().contains(response_id));
        assert(after.order =~= Seq::<Seq<char>>::empty());
        assert(index.chains.dom() =~= Set::<Seq<char>>::empty());
        assert(chains.dom() =~= set![response_id]);
        assert(after.chains =~= Map::<Seq<char>, ChainEntry>::empty());
    } else {
        lemma_latest_response_remembered(index, parent, response_id, message_count);
        if present {
            let i = choose|i: int| 0 <= i < index.order.len() && index.order[i] == response_id;
            lemma_filter_other_than_present(index.order, response_id, i);
            assert(index.overflow(order) == 0);
            assert(order.skip(0) =~= order);
            assert(order.take(0).to_set() =~= Set::<Seq<char>>::empty());
            assert(after.chains =~= chains);
            assert forall|j: int|
                0 <= j < index.order.len() && index.order[j] == response_id implies {
                &&& after.order == index.order.remove(j).push(response_id)
                &&& after.chains == index.chains.insert(response_id, entry)
            } by {
                assert(index.order[j] == index.order[i]);
            }
        } else {
            lemma_filter_other_than_absent(index.order, response_id);
            if index.order.len() < index.max_tracked {
                assert(index.overflow(order) == 0);
                assert(order.skip(0) =~= order);
                assert(order.take(0).to_set() =~= Set::<Seq<char>>::empty());
                assert(after.chains =~= chains);
            } else {
                assert(index.overflow(order) == 1);
                assert(order.skip(1) =~= index.order.skip(1).push(response_id));
                assert(order[0] == index.order[0]);
                assert(order.take(1)[0] == index.order[0]);
                assert(order.take(1).to_set() =~= set![index.order[0]]);
                assert(index.order.contains(index.order[0]));
                assert(after.chains =~= index.chains.remove(index.order[0]).insert(
                    response_id,
                    entry,
                ));
            }
        }
    }
}

// ---------------------------------------------------------------------------
// Whole conversations
// ---------------------------------------------------------------------------

/// The parent of the `i`-th turn of a chain: none for the first turn, the
/// previous turn's response for every later one.
pub open spec fn chain_parent(ids: Seq<Seq<char>>, i: int) -> Option<Seq<char>> {
    if i <= 0 {
        None
    } else {
        Some(ids[i - 1])
    }
}

/// The state after recording the first `k` turns of a chain, starting from
/// `index`: turn `i` produced response `ids[i]` with the full conversation
/// `conversations[i]`, continuing turn `i - 1`.
pub open spec fn chain_state<M>(
    index: ChainIndex,
    ids: Seq<Seq<char>>,
    conversations: Seq<Seq<M>>,
    k: int,
) -> ChainIndex
    decreases k,
{
    if k <= 0 {
        index
    } else {
        chain_state(index, ids, conversations, k - 1).after_turn(
            chain_parent(ids, k - 1),
            ids[k - 1],
            conversations[k - 1].len(),
        )
    }
}

/// The conversation id of the event of the `i`-th turn of a chain.
pub open spec fn chain_conversation<M>(
    index: ChainIndex,
    ids: Seq<Seq<char>>,
    conversations: Seq<Seq<M>>,
    i: int,
) -> Seq<char> {
    chain_state(index, ids, conversations, i).conversation_for(chain_parent(ids, i), ids[i])
}

/// The messages new to the `i`-th turn of a chain (those of its event, when
/// there are any).
pub open spec fn chain_delta<M>(
    index: ChainIndex,
    ids: Seq<Seq<char>>,
    conversations: Seq<Seq<M>>,
    i: int,
) -> Seq<M> {
    conversations[i].skip(
        chain_state(index, ids, conversations, i).delta_start(
            chain_parent(ids, i),
            conversations[i].len(),
        ) as int,
    )
}

/// The new messages of the first `k` turns of a chain, in turn order.
pub open spec fn chain_deltas<M>(
    index: ChainIndex,
    ids: Seq<Seq<char>>,
    conversations: Seq<Seq<M>>,
    k: int,
) -> Seq<M>
    decreases k,
{
    if k <= 0 {
        Seq::empty()
    } else {
        chain_deltas(index, ids, conversations, k - 1) + chain_delta(
            index,
            ids,
            conversations,
            k - 1,
        )
    }
}

/// `next` starts with all of `prev`: a later turn replays the earlier turn's
/// conversation as its history.
pub open spec fn replays<M>(prev: Seq<M>, next: Seq<M>) -> bool {
    prev.len() <= next.len() && next.take(prev.len() as int) == prev
}

proof fn lemma_chain_state_wf<M>(
    index: ChainIndex,
    ids: Seq<Seq<char>>,
    conversations: Seq<Seq<M>>,
    k: int,
)
    requires
        index.wf(),
    ensures
        chain_state(index, ids, conversations, k).wf(),
        chain_state(index, ids, conversations, k).max_tracked == index.max_tracked,
    decreases k,
{
    if k > 0 {
        lemma_chain_state_wf(index, ids, conversations, k - 1);
        lemma_after_turn_wf(
            chain_state(index, ids, conversations, k - 1),
            chain_parent(ids, k - 1),
            ids[k - 1],
            conversations[k - 1].len(),
        );
    }
}

/// A whole conversation is rebuilt from its incremental events: when each
/// turn of a chain continues the previous one and replays its conversation as
/// history, every event of the chain carries the first response's id as its
/// conversation id, and concatenating the new messages of the turns in order
/// gives the last turn's full conversation.
pub proof fn lemma_chain_rebuilds_conversation<M>(
    index: ChainIndex,
    ids: Seq<Seq<char>>,
    conversations: Seq<Seq<M>>,
    n: int,
)
    requires
        index.wf(),
        index.max_tracked >= 1,
        1 <= n <= ids.len(),
        n <= conversations.len(),
        forall|i: int|
            0 <= i < n - 1 ==> #[trigger] replays(conversations[i], conversations[i + 1]),
    ensures
        forall|i: int| 0 <= i < n ==> #[trigger] chain_conversation(index, ids, conversations, i) == ids[0],
        chain_deltas(index, ids, conversations, n) == conversations[n - 1],
        chain_state(index, ids, conversations, n).wf(),
    decreases n,
{
    if n == 1 {
        lemma_unknown_parent_starts_conversation(index, None, ids[0], conversations[0].len());
        lemma_after_turn_wf(index, None, ids[0], conversations[0].len());
        assert(chain_deltas(index, ids, conversations, 0) =~= Seq::<M>::empty());
        assert(conversations[0].skip(0) =~= conversations[0]);
        assert(chain_deltas(index, ids, conversations, 1) =~= conversations[0]);
    } else {
        lemma_chain_rebuilds_conversation(index, ids, conversations, n - 1);
        lemma_chain_state_wf(index, ids, conversations, n - 2);
        let prev = n - 2;
        assert(replays(conversations[prev], conversations[prev + 1]));
        let before = chain_state(index, ids, conversations, n - 2);
        let state = chain_state(index, ids, conversations, n - 1);
        lemma_latest_response_remembered(
            before,
            chain_parent(ids, n - 2),
            ids[n - 2],
            conversations[n - 2].len(),
        );
        assert(chain_conversation(index, ids, conversations, n - 2) == ids[0]);
        assert(state.parent_entry(chain_parent(ids, n - 1)) == Some(
            ChainEntry { conversation_id: ids[0], message_count: conversations[n - 2].len() },
        ));
        assert(conversations[n - 1].take(conversations[n - 2].len() as int)
            == conversations[n - 2]);
        lemma_delta_reconstructs(
            state,
            chain_parent(ids, n - 1),
            conversations[n - 2],
            conversations[n - 1],
        );
        lemma_after_turn_wf(
            state,
            chain_parent(ids, n - 1),
            ids[n - 1],
            conversations[n - 1].len(),
        );
        assert forall|i: int| 0 <= i < n implies #[trigger] chain_conversation(
            index,
            ids,
            conversations,
            i,
        ) == ids[0] by {
            if i < n - 1 {
                assert(chain_conversation(index, ids, conversations, i) == ids[0]);
            }
        }
    }
}

// ---------------------------------------------------------------------------
// The recorder
// ---------------------------------------------------------------------------

/// Where a recorded response stands in its conversation.
struct ChainPos {
    conversation_id: String,
    message_count: usize,
}

/// One turn event to be appended to the corpus: the messages new to the turn,
/// with the ids that place them in their conversation.
pub struct TurnRecord<'a, M> {
    pub conversation_id: String,
    pub response_id: String,
    pub parent_response_id: Option<String>,
    pub model: String,
    pub messages: &'a [M],
}

/// The remembered responses: their positions, keyed by response id, and their
/// ids from least to most recently recorded.
struct ChainTable {
    chains: StringHashMap<ChainPos>,
    order: VecDeque<String>,
    max_tracked: usize,
}

spec fn entry_of(pos: ChainPos) -> ChainEntry {
    ChainEntry { conversation_id: pos.conversation_id@, message_count: pos.message_count as nat }
}

impl View for ChainTable {
    type V = ChainIndex;

    closed spec fn view(&self) -> ChainIndex {
        ChainIndex {
            chains: self.chains@.map_values(|pos: ChainPos| entry_of(pos)),
            order: self.order@.map_values(|id: String| id@),
            max_tracked: self.max_tracked as nat,
        }
    }
}

impl ChainTable {
    fn empty(max_tracked: usize) -> (table: Self)
        ensures
            table@.wf(),
            table@.chains == Map::<Seq<char>, ChainEntry>::empty(),
            table@.order == Seq::<Seq<char>>::empty(),
            table@.max_tracked == max_tracked,
    {
        let recorder = ChainTable {
            chains: StringHashMap::new(),
            order: VecDeque::new(),
            max_tracked,
        };
        assert(recorder@.chains =~= Map::<Seq<char>, ChainEntry>::empty());
        assert(recorder@.order =~= Seq::<Seq<char>>::empty());
        assert(recorder@.order.to_set() =~= Set::<Seq<char>>::empty());
        recorder
    }

    fn record<'a, M>(
        &mut self,
        parent_response_id: Option<&str>,
        response_id: &str,
        model: &str,
        messages: &'a [M],
    ) -> (event: Option<TurnRecord<'a, M>>)
        requires
            old(self)@.wf(),
        ensures
            final(self)@.wf(),
            final(self)@ == old(self)@.after_turn(
                text_of_str_option(parent_response_id),
                response_id@,
                messages@.len(),
            ),
            event is Some <==> old(self)@.delta_start(
                text_of_str_option(parent_response_id),
                messages@.len(),
            ) < messages@.len(),
            event matches Some(ev) ==> {
                &&& ev.conversation_id@ == old(self)@.conversation_for(
                    text_of_str_option(parent_response_id),
                    response_id@,
                )
                &&& ev.response_id@ == response_id@
                &&& text_of_string_option(ev.parent_response_id) == text_of_str_option(
                    parent_response_id,
                )
                &&& ev.model@ == model@
                &&& ev.messages@ == messages@.skip(
                    old(self)@.delta_start(text_of_str_option(parent_response_id), messages@.len())
                        as int,
                )
            },
    {
        let ghost parent = text_of_str_option(parent_response_id);
        let parent_pos: Option<(String, usize)> = match parent_response_id {
            Some(p) => match self.chains.get(p) {
                Some(pos) => Some((pos.conversation_id.clone(), pos.message_count)),
                None => None,
            },
            None => None,
        };
        let conversation_id = match &parent_pos {
            Some(pos) => pos.0.clone(),
            None => response_id.to_owned(),
        };
        let prev_count = match &parent_pos {
            Some(pos) => pos.1,
            None => 0,
        };
        let start = if prev_count <= messages.len() {
            prev_count
        } else {
            messages.len()
        };
        assert(start == self@.delta_start(parent, messages@.len()));
        assert(conversation_id@ == self@.conversation_for(parent, response_id@));
        let (_, delta) = messages.split_at(start);
        let event = if !delta.is_empty() {
            Some(
                TurnRecord {
                    conversation_id: conversation_id.clone(),
                    response_id: response_id.to_owned(),
                    parent_response_id: match parent_response_id {
                        Some(p) => Some(p.to_owned()),
                        None => None,
                    },
                    model: model.to_owned(),
                    messages: delta,
                },
            )
        } else {
            None
        };
        self.remember(response_id, conversation_id, messages.len());
        event
    }

    /// The index of `id` in the recency order, if it is there.
    fn position_of(&self, id: &String) -> (index: Option<usize>)
        ensures
            match index {
                Some(i) => i < self@.order.len() && self@.order[i as int] == id@,
                None => !self@.order.contains(id@),
            },
    {
        let n = self.order.len();
        let mut i: usize = 0;
        while i < n
            invariant
                n == self.order@.len(),
                i <= n,
                forall|j: int| 0 <= j < i ==> self@.order[j] != id@,
            decreases n - i,
        {
            if self.order[i] == *id {
                return Some(i);
            }
            i = i + 1;
        }
        assert forall|j: int| 0 <= j < self@.order.len() implies self@.order[j] != id@ by {}
        None
    }

    fn remember(&mut self, response_id: &str, conversation_id: String, message_count: usize)
        requires
            old(self)@.wf(),
        ensures
            final(self)@.wf(),
            final(self)@ == old(self)@.remember(
                response_id@,
                ChainEntry { conversation_id: conversation_id@, message_count: message_count as nat },
            ),
    {
        let ghost before = self@;
        let ghost entry = ChainEntry {
            conversation_id: conversation_id@,
            message_count: message_count as nat,
        };
        let key = response_id.to_owned();
        let existed = self.chains.contains_key(response_id);
        self.chains.insert(
            key.clone(),
            ChainPos { conversation_id, message_count },
        );
        assert(self@.chains =~= before.chains.insert(key@, entry));
        if existed {
            assert(before.chains.dom().contains(key@));
            assert(before.order.to_set().contains(key@));
            match self.position_of(&key) {
                Some(i) => {
                    self.order.remove(i);
                    assert(self@.order =~= before.order.remove(i as int));
                    proof {
                        lemma_filter_other_than_present(before.order, key@, i as int);
                    }
                },
                None => {},
            }
        } else {
            assert(!before.order.to_set().contains(key@));
            proof {
                lemma_filter_other_than_absent(before.order, key@);
            }
        }
        assert(self@.order == before.order.filter(other_than(key@)));
        self.order.push_back(key);
        assert(self@.order =~= before.order.filter(other_than(response_id@)).push(response_id@));
        let ghost grown = self@;
        proof {
            lemma_move_to_back(before.order, response_id@);
            assert(grown.chains.dom() =~= before.chains.dom().insert(response_id@));
            assert(self@.chains.dom() =~= self.chains@.dom());
            lemma_forget_prefix(grown.order, grown.chains, 0);
            assert(grown.order.take(0).to_set() =~= Set::<Seq<char>>::empty());
            assert(grown.chains.remove_keys(Set::<Seq<char>>::empty()) =~= grown.chains);
            assert(grown.order.skip(0) =~= grown.order);
        }
        let ghost mut forgotten: int = 0;
        while self.chains.len() > self.max_tracked
            invariant
                self.max_tracked == before.max_tracked,
                grown.order.no_duplicates(),
                grown.chains.dom() == grown.order.to_set(),
                0 <= forgotten <= grown.order.len(),
                self@.order == grown.order.skip(forgotten),
                self@.chains == grown.chains.remove_keys(grown.order.take(forgotten).to_set()),
                forgotten > 0 ==> grown.order.len() - forgotten >= self.max_tracked,
                self@.chains.dom() == self.chains@.dom(),
                self@.chains.len() == grown.order.len() - forgotten,
            ensures
                self@.chains.len() <= self.max_tracked,
                self@.order == grown.order.skip(forgotten),
                self@.chains == grown.chains.remove_keys(grown.order.take(forgotten).to_set()),
                forgotten == before.overflow(grown.order),
            decreases self.order@.len(),
        {
            proof {
                lemma_forget_prefix(grown.order, grown.chains, forgotten);
            }
            let ghost order_now = self.order@;
            let ghost ids_now = self@.order;
            let ghost chains_now = self@.chains;
            match self.order.pop_front() {
                Some(old_id) => {
                    self.chains.remove(old_id.as_str());
                    proof {
                        assert(old_id == order_now[0]);
                        assert(ids_now[0] == old_id@);
                        assert(ids_now[0] == grown.order[forgotten]);
                        assert(self@.order =~= ids_now.subrange(1, ids_now.len() as int));
                        assert(self@.chains =~= chains_now.remove(old_id@));
                        assert(old_id@ == grown.order[forgotten]);
                        assert(self@.order =~= grown.order.skip(forgotten + 1));
                        assert(grown.order.take(forgotten + 1) =~= grown.order.take(forgotten).push(
                            old_id@,
                        ));
                        grown.order.take(forgotten).lemma_push_to_set_commute(old_id@);
                        assert(grown.order.take(forgotten + 1).to_set() =~= grown.order.take(
                            forgotten,
                        ).to_set().insert(old_id@));
                        assert(self@.chains =~= grown.chains.remove_keys(
                            grown.order.take(forgotten + 1).to_set(),
                        ));
                        forgotten = forgotten + 1;
                        assert(self@.chains.dom() =~= self.chains@.dom());
                        lemma_forget_prefix(grown.order, grown.chains, forgotten);
                    }
                },
                None => {
                    break ;
                },
            }
        }
        proof {
            lemma_forget_prefix(grown.order, grown.chains, forgotten);
        }
    }
}

/// Tracks conversation chains across turns and decides, for each completed
/// turn, which messages are new and which conversation they belong to.
pub struct CorpusRecorder {
    table: ChainTable,
}

impl CorpusRecorder {
    #[verifier::type_invariant]
    spec fn consistent(self) -> bool {
        self.table@.wf()
    }
}

impl View for CorpusRecorder {
    type V = ChainIndex;

    closed spec fn view(&self) -> ChainIndex {
        self.table@
    }
}

impl CorpusRecorder {
    /// A recorder that remembers up to [`DEFAULT_MAX_TRACKED_CHAINS`] responses.
    pub fn new() -> (recorder: Self)
        ensures
            recorder@.wf(),
            recorder@.chains == Map::<Seq<char>, ChainEntry>::empty(),
            recorder@.order == Seq::<Seq<char>>::empty(),
            recorder@.max_tracked == DEFAULT_MAX_TRACKED_CHAINS,
    {
        Self::with_max_tracked(DEFAULT_MAX_TRACKED_CHAINS)
    }

    /// A recorder that remembers up to `max_tracked` responses.
    pub fn with_max_tracked(max_tracked: usize) -> (recorder: Self)
        ensures
            recorder@.wf(),
            recorder@.chains == Map::<Seq<char>, ChainEntry>::empty(),
            recorder@.order == Seq::<Seq<char>>::empty(),
            recorder@.max_tracked == max_tracked,
    {
        CorpusRecorder { table: ChainTable::empty(max_tracked) }
    }

    /// Record one completed turn.
    ///
    /// `messages` is the full conversation for the new `response_id` (replayed
    /// history + this turn's new input + the assistant reply). Only the
    /// incremental delta since the parent turn is handed back to be persisted;
    /// `None` when the turn adds no message.
    pub fn record_turn<'a, M>(
        &mut self,
        parent_response_id: Option<&str>,
        response_id: &str,
        model: &str,
        messages: &'a [M],
    ) -> (event: Option<TurnRecord<'a, M>>)
        ensures
            old(self)@.wf(),
            final(self)@.wf(),
            final(self)@ == old(self)@.after_turn(
                text_of_str_option(parent_response_id),
                response_id@,
                messages@.len(),
            ),
            event is Some <==> old(self)@.delta_start(
                text_of_str_option(parent_response_id),
                messages@.len(),
            ) < messages@.len(),
            event matches Some(ev) ==> {
                &&& ev.conversation_id@ == old(self)@.conversation_for(
                    text_of_str_option(parent_response_id),
                    response_id@,
                )
                &&& ev.response_id@ == response_id@
                &&& text_of_string_option(ev.parent_response_id) == text_of_str_option(
                    parent_response_id,
                )
                &&& ev.model@ == model@
                &&& ev.messages@ == messages@.skip(
                    old(self)@.delta_start(text_of_str_option(parent_response_id), messages@.len())
                        as int,
                )
            },
    {
        proof {
            use_type_invariant(&*self);
        }
        // Work on the table outside the recorder, which meanwhile holds an
        // empty one, so that the recorder is consistent at every step.
        let mut table = ChainTable::empty(self.table.max_tracked);
        std::mem::swap(&mut table, &mut self.table);
        let event = table.record(parent_response_id, response_id, model, messages);
        self.table = table;
        event
    }
}

/// The name of the daily corpus file for the instant `unix_secs` seconds
/// after the Unix epoch: `corpus-YYYY-MM-DD.jsonl`, by the UTC date.
pub fn corpus_file_name(unix_secs: u64) -> (name: String)
    ensures
        ({
            let date = date_of_unix_day((unix_secs / 86400) as int);
            name@ == "corpus-"@ + iso_date_text(date.0 as nat, date.1 as nat, date.2 as nat)
                + ".jsonl"@
        }),
{
    let date = utc_date_from_unix_secs(unix_secs);
    let mut name = String::from_str("corpus-");
    name.append(date.as_str());
    name.append(".jsonl");
    name
}

/// The daily corpus files are named in time order: for instants
/// `secs1 <= secs2` whose dates have four-digit years, the file names are
/// equal exactly when both instants fall on the same UTC day, and otherwise
/// the earlier instant's name sorts first.
pub proof fn lemma_corpus_file_names_sort_by_instant(secs1: u64, secs2: u64)
    requires
        secs1 <= secs2,
        date_of_unix_day((secs2 / 86400) as int).0 <= 9999,
    ensures
        ({
            let a = date_of_unix_day((secs1 / 86400) as int);
            let b = date_of_unix_day((secs2 / 86400) as int);
            let na = "corpus-"@ + iso_date_text(a.0 as nat, a.1 as nat, a.2 as nat) + ".jsonl"@;
            let nb = "corpus-"@ + iso_date_text(b.0 as nat, b.1 as nat, b.2 as nat) + ".jsonl"@;
            &&& (na == nb <==> secs1 / 86400 == secs2 / 86400)
            &&& secs1 / 86400 != secs2 / 86400 ==> text_lt(na, nb)
        }),
{
    lemma_utc_dates_sort_by_instant(secs1, secs2);
    let a = date_of_unix_day((secs1 / 86400) as int);
    let b = date_of_unix_day((secs2 / 86400) as int);
    let ta = iso_date_text(a.0 as nat, a.1 as nat, a.2 as nat);
    let tb = iso_date_text(b.0 as nat, b.1 as nat, b.2 as nat);
    let (p, s) = ("corpus-"@, ".jsonl"@);
    if secs1 / 86400 != secs2 / 86400 {
        lemma_text_lt_framed(p, ta, tb, s, s);
        let (na, nb) = (p + ta + s, p + tb + s);
        if na == nb {
            assert(!text_lt(na, nb));
        }
    }
}

} // verus!
