//! The pipeline's laws: how publishing, delivery and consumption
//! compose over the counter store's records.

use vstd::prelude::*;
use crate::consume::{applied_once, payload_is_event};
use crate::codec::event_json;
use crate::event::AccessEvent;
use crate::store::{Analytics, count_of, last_of};

verus! {

/// A valid published event, once delivered and processed, raises its
/// code's access count by exactly one and stamps the last access time
/// with the event's own time. `payload` is what a successful publish
/// carries; `applied_once` is what consuming that payload leaves.
pub proof fn lemma_publish_then_consume(
    e: AccessEvent,
    payload: Seq<char>,
    rs0: Seq<Analytics>,
    rs1: Seq<Analytics>,
)
    requires
        payload == event_json(e),
        applied_once(rs0, rs1, e.code@, e.accessed_at@),
        count_of(rs0, e.code@) < i64::MAX,
    ensures
        payload_is_event(payload),
        count_of(rs1, e.code@) == count_of(rs0, e.code@) + 1,
        last_of(rs1, e.code@) == Some(e.accessed_at@),
{
}

/// Processing is not idempotent, by design: replaying the same event
/// through the consumer twice raises the counter by two, not one.
pub proof fn lemma_replay_doubles(
    e: AccessEvent,
    rs0: Seq<Analytics>,
    rs1: Seq<Analytics>,
    rs2: Seq<Analytics>,
)
    requires
        applied_once(rs0, rs1, e.code@, e.accessed_at@),
        applied_once(rs1, rs2, e.code@, e.accessed_at@),
        count_of(rs0, e.code@) + 2 <= i64::MAX,
    ensures
        count_of(rs2, e.code@) == count_of(rs0, e.code@) + 2,
{
}

/// Increments do not lose updates: when events for one code are applied
/// one after another — any serialization of concurrent publishers, each
/// atomic step taking `states[i]` to `states[i + 1]` with timestamp
/// `ats[i]` — the final count is the initial count plus the number of
/// events.
pub proof fn lemma_increments_accumulate(
    c: Seq<char>,
    states: Seq<Seq<Analytics>>,
    ats: Seq<Seq<char>>,
)
    requires
        states.len() >= 1,
        ats.len() == states.len() - 1,
        forall|i: int| 0 <= i < ats.len() ==> applied_once(
            #[trigger] states[i],
            states[i + 1],
            c,
            ats[i],
        ),
        count_of(states[0], c) + ats.len() <= i64::MAX,
    ensures
        count_of(states[states.len() - 1], c) == count_of(states[0], c) + ats.len(),
    decreases states.len(),
{
    let n = ats.len() as int;
    if n > 0 {
        let front_states = states.subrange(0, states.len() - 1);
        let front_ats = ats.subrange(0, n - 1);
        assert(forall|i: int| 0 <= i < front_ats.len() ==> applied_once(
            #[trigger] front_states[i],
            front_states[i + 1],
            c,
            front_ats[i],
        )) by {
            assert(forall|i: int| 0 <= i < front_ats.len()
                ==> #[trigger] front_states[i] == states[i] && front_ats[i] == ats[i]);
            assert(forall|i: int| 0 <= i < front_ats.len() - 1
                ==> #[trigger] front_states[i + 1] == states[i + 1]);
            if front_ats.len() > 0 {
                assert(front_states[front_ats.len() - 1 + 1] == states[n - 1]);
            }
        }
        lemma_increments_accumulate(c, front_states, front_ats);
        assert(count_of(states[n - 1], c) == count_of(states[0], c) + (n - 1));
        assert(applied_once(states[n - 1], states[n], c, ats[n - 1]));
    }
}

/// A malformed payload is discarded without effect — and acknowledged,
/// as the consumer's contract states — and a well-formed message
/// arriving after it is still counted.
pub proof fn lemma_malformed_then_wellformed(
    bad: Seq<char>,
    e: AccessEvent,
    rs0: Seq<Analytics>,
    rs1: Seq<Analytics>,
    rs2: Seq<Analytics>,
)
    requires
        !payload_is_event(bad),
        rs1 == rs0,
        applied_once(rs1, rs2, e.code@, e.accessed_at@),
        count_of(rs0, e.code@) < i64::MAX,
    ensures
        count_of(rs2, e.code@) == count_of(rs0, e.code@) + 1,
        last_of(rs2, e.code@) == Some(e.accessed_at@),
{
}

} // verus!
