//! The consumer's side of the pipeline: the per-message decision step.
//!
//! Messages are handled one at a time, in the order the broker presents
//! them. Each payload is decoded; a well-formed event is applied to the
//! counter store as one atomic increment; a malformed payload is
//! discarded. The message is acknowledged unconditionally once the
//! attempt completes — whether decoding or the store write succeeded —
//! so the pipeline gives at-most-once effective processing with
//! best-effort durability: a store failure drops the event rather than
//! requeuing it, and a redelivery after a crash between processing and
//! acknowledgment counts the event again, since the increment is not
//! idempotent by design.

use vstd::prelude::*;
use crate::codec::{decode_access_event, event_json};
use crate::event::AccessEvent;
use crate::store::{CounterStore, count_of, has_code, last_of};

verus! {

/// Whether the payload is the wire message of some event.
pub open spec fn payload_is_event(p: Seq<char>) -> bool {
    exists|e: AccessEvent| p == event_json(e)
}

/// One event for `c` at time `at` was applied to `rs0`, giving `rs1`:
/// the code's counter is one higher and stamped with `at`, every other
/// code is untouched, and the code joined the index if it was new. When
/// the counter cannot grow — the store write fails — the event is
/// dropped and nothing changes.
pub open spec fn applied_once(
    rs0: Seq<crate::store::Analytics>,
    rs1: Seq<crate::store::Analytics>,
    c: Seq<char>,
    at: Seq<char>,
) -> bool {
    if count_of(rs0, c) < i64::MAX {
        &&& has_code(rs1, c)
        &&& count_of(rs1, c) == count_of(rs0, c) + 1
        &&& last_of(rs1, c) == Some(at)
        &&& rs1.len() == rs0.len() + (if has_code(rs0, c) { 0int } else { 1int })
        &&& forall|k: Seq<char>| k != c ==> has_code(rs1, k) == has_code(rs0, k)
        &&& forall|k: Seq<char>| k != c ==> count_of(rs1, k) == count_of(rs0, k)
        &&& forall|k: Seq<char>| k != c ==> last_of(rs1, k) == last_of(rs0, k)
    } else {
        rs1 == rs0
    }
}

/// Consumes access-event messages into a counter store.
pub trait EventConsumer {
    /// What must hold of the consumer for it to run.
    spec fn consumer_inv(&self) -> bool;

    /// The per-code records the consumer's store holds.
    spec fn records(&self) -> Seq<crate::store::Analytics>;

    /// Handles one delivered payload and says whether to acknowledge:
    /// a decodable event is applied to the records as one increment, a
    /// malformed payload changes nothing, and the message is always
    /// acknowledged.
    fn consume_message(&mut self, payload: &str) -> (acked: bool)
        requires
            old(self).consumer_inv(),
        ensures
            acked,
            final(self).consumer_inv(),
            !payload_is_event(payload@) ==> final(self).records() == old(self).records(),
            forall|e: AccessEvent| payload@ == event_json(e) ==> applied_once(
                old(self).records(),
                final(self).records(),
                e.code@,
                e.accessed_at@,
            ),
    ;
}

/// The store-backed consumer: decodes each payload and applies it to
/// its counter store.
pub struct AccessEventConsumer {
    store: CounterStore,
}

impl View for AccessEventConsumer {
    type V = Seq<crate::store::Analytics>;

    closed spec fn view(&self) -> Seq<crate::store::Analytics> {
        self.store@
    }
}

impl AccessEventConsumer {
    /// The store's records are well formed.
    pub closed spec fn wf(self) -> bool {
        self.store.wf()
    }

    /// A consumer over the given store.
    pub fn new(store: CounterStore) -> (r: Self)
        ensures
            r@ == store@,
            store.wf() ==> r.wf(),
    {
        AccessEventConsumer { store }
    }

    /// The store, for serving lookups and listings.
    pub fn store(&self) -> (r: &CounterStore)
        ensures
            r@ == self@,
            self.wf() ==> r.wf(),
    {
        &self.store
    }

    /// Handles one delivered payload: restores what the message carries,
    /// applies a well-formed event to the store as one atomic increment,
    /// and discards a malformed one. Always acknowledges — after the
    /// attempt, regardless of its outcome — so a failed store write is
    /// absorbed (the event is dropped) and malformed input is never
    /// retried.
    pub fn process_delivery(&mut self, payload: &str) -> (acked: bool)
        requires
            old(self).wf(),
        ensures
            acked,
            final(self).wf(),
            !payload_is_event(payload@) ==> final(self)@ == old(self)@,
            forall|e: AccessEvent| payload@ == event_json(e) ==> applied_once(
                old(self)@,
                final(self)@,
                e.code@,
                e.accessed_at@,
            ),
    {
        match decode_access_event(payload) {
            Some(ev) => {
                let r = self.store.increment(ev.code.as_str(), ev.accessed_at.as_str());
                // a store failure is absorbed: the event is dropped and
                // the message still acknowledged
                proof {
                    assert forall|e: AccessEvent| payload@ == event_json(e)
                        implies applied_once(old(self)@, self@, e.code@, e.accessed_at@) by {
                        assert(ev.same_view(e));
                        if r is Ok {
                        } else {
                            assert(self@ == old(self)@);
                        }
                    }
                }
                true
            },
            None => {
                proof {
                    if payload_is_event(payload@) {
                        let e = choose|e: AccessEvent| payload@ == event_json(e);
                        assert(false);
                    }
                }
                true
            },
        }
    }
}

impl EventConsumer for AccessEventConsumer {
    open spec fn consumer_inv(&self) -> bool {
        self.wf()
    }

    open spec fn records(&self) -> Seq<crate::store::Analytics> {
        self@
    }

    fn consume_message(&mut self, payload: &str) -> (acked: bool) {
        self.process_delivery(payload)
    }
}

} // verus!
