//! The broker topology: one topic-routed durable exchange, one durable
//! queue, and the binding between them under a fixed routing key.
//!
//! `BrokerModel` captures the declare/bind semantics the pipeline relies
//! on: declaring a name that already exists with identical parameters is
//! accepted and changes nothing; declaring it with different parameters
//! fails; binding requires both ends to exist and an existing identical
//! binding is not duplicated. `establish` performs the fixed sequence
//! exchange, then queue, then binding — each step completing before the
//! next — and its contract states that establishment is idempotent.

use vstd::prelude::*;
use vstd::string::StringExecFns;
use crate::errors::AppError;
use crate::strutil::str_eq;

verus! {

/// The configuration-derived names of the event transport topology.
pub struct TopologyConfig {
    pub exchange: String,
    pub queue: String,
    pub routing_key: String,
}

impl TopologyConfig {
    /// The default names of the access-event topology.
    pub fn default_names() -> (r: Self)
        ensures
            r.exchange@ == "url_shortener"@,
            r.queue@ == "access_events"@,
            r.routing_key@ == "access.event"@,
    {
        TopologyConfig {
            exchange: String::from_str("url_shortener"),
            queue: String::from_str("access_events"),
            routing_key: String::from_str("access.event"),
        }
    }
}

/// A declared exchange: its name, durability, and whether it is
/// topic-routed.
pub struct ExchangeDecl {
    pub name: String,
    pub durable: bool,
    pub topic: bool,
}

/// A declared queue: its name and durability.
pub struct QueueDecl {
    pub name: String,
    pub durable: bool,
}

/// A queue-to-exchange binding under a routing key.
pub struct BindingDecl {
    pub exchange: String,
    pub queue: String,
    pub routing_key: String,
}

pub open spec fn has_exchange(s: Seq<ExchangeDecl>, n: Seq<char>) -> bool {
    exists|i: int| 0 <= i < s.len() && s[i].name@ == n
}

pub open spec fn exchange_of(s: Seq<ExchangeDecl>, n: Seq<char>) -> ExchangeDecl {
    s[choose|i: int| 0 <= i < s.len() && s[i].name@ == n]
}

pub open spec fn has_queue(s: Seq<QueueDecl>, n: Seq<char>) -> bool {
    exists|i: int| 0 <= i < s.len() && s[i].name@ == n
}

pub open spec fn queue_of(s: Seq<QueueDecl>, n: Seq<char>) -> QueueDecl {
    s[choose|i: int| 0 <= i < s.len() && s[i].name@ == n]
}

pub open spec fn has_binding(s: Seq<BindingDecl>, e: Seq<char>, q: Seq<char>, rk: Seq<char>) -> bool {
    exists|i: int| 0 <= i < s.len() && s[i].exchange@ == e && s[i].queue@ == q
        && s[i].routing_key@ == rk
}

pub open spec fn unique_exchanges(s: Seq<ExchangeDecl>) -> bool {
    forall|i: int, j: int| 0 <= i < j < s.len() ==> s[i].name@ != s[j].name@
}

pub open spec fn unique_queues(s: Seq<QueueDecl>) -> bool {
    forall|i: int, j: int| 0 <= i < j < s.len() ==> s[i].name@ != s[j].name@
}

proof fn lemma_exchange_at(s: Seq<ExchangeDecl>, n: Seq<char>, i: int)
    requires
        unique_exchanges(s),
        0 <= i < s.len(),
        s[i].name@ == n,
    ensures
        has_exchange(s, n),
        exchange_of(s, n) == s[i],
{
    assert(has_exchange(s, n));
    let j = choose|j: int| 0 <= j < s.len() && s[j].name@ == n;
    if i < j {
        assert(s[i].name@ != s[j].name@);
    } else if j < i {
        assert(s[j].name@ != s[i].name@);
    }
}

proof fn lemma_queue_at(s: Seq<QueueDecl>, n: Seq<char>, i: int)
    requires
        unique_queues(s),
        0 <= i < s.len(),
        s[i].name@ == n,
    ensures
        has_queue(s, n),
        queue_of(s, n) == s[i],
{
    assert(has_queue(s, n));
    let j = choose|j: int| 0 <= j < s.len() && s[j].name@ == n;
    if i < j {
        assert(s[i].name@ != s[j].name@);
    } else if j < i {
        assert(s[j].name@ != s[i].name@);
    }
}

/// The broker's topology state: what has been declared so far.
pub struct BrokerModel {
    exchanges: Vec<ExchangeDecl>,
    queues: Vec<QueueDecl>,
    bindings: Vec<BindingDecl>,
}

/// The topology of `cfg` is fully established on a broker state: the
/// durable topic exchange, the durable queue, and the binding between
/// them under the routing key all exist.
pub open spec fn established(b: BrokerModel, cfg: TopologyConfig) -> bool {
    &&& has_exchange(b.spec_exchanges(), cfg.exchange@)
    &&& exchange_of(b.spec_exchanges(), cfg.exchange@).durable
    &&& exchange_of(b.spec_exchanges(), cfg.exchange@).topic
    &&& has_queue(b.spec_queues(), cfg.queue@)
    &&& queue_of(b.spec_queues(), cfg.queue@).durable
    &&& has_binding(b.spec_bindings(), cfg.exchange@, cfg.queue@, cfg.routing_key@)
}

/// An exchange named as in `cfg` already exists but with parameters other
/// than durable and topic-routed, so redeclaring it must fail.
pub open spec fn exchange_conflict(b: BrokerModel, cfg: TopologyConfig) -> bool {
    has_exchange(b.spec_exchanges(), cfg.exchange@) && !(
    exchange_of(b.spec_exchanges(), cfg.exchange@).durable && exchange_of(
        b.spec_exchanges(),
        cfg.exchange@,
    ).topic)
}

/// A queue named as in `cfg` already exists but is not durable.
pub open spec fn queue_conflict(b: BrokerModel, cfg: TopologyConfig) -> bool {
    has_queue(b.spec_queues(), cfg.queue@) && !queue_of(b.spec_queues(), cfg.queue@).durable
}

/// Two broker states hold the same declarations.
pub open spec fn same_topology(a: BrokerModel, b: BrokerModel) -> bool {
    &&& a.spec_exchanges() == b.spec_exchanges()
    &&& a.spec_queues() == b.spec_queues()
    &&& a.spec_bindings() == b.spec_bindings()
}

impl BrokerModel {
    pub closed spec fn spec_exchanges(self) -> Seq<ExchangeDecl> {
        self.exchanges@
    }

    pub closed spec fn spec_queues(self) -> Seq<QueueDecl> {
        self.queues@
    }

    pub closed spec fn spec_bindings(self) -> Seq<BindingDecl> {
        self.bindings@
    }

    pub open spec fn wf(self) -> bool {
        unique_exchanges(self.spec_exchanges()) && unique_queues(self.spec_queues())
    }

    /// A broker with nothing declared.
    pub fn new() -> (r: Self)
        ensures
            r.wf(),
            r.spec_exchanges().len() == 0,
            r.spec_queues().len() == 0,
            r.spec_bindings().len() == 0,
    {
        BrokerModel { exchanges: Vec::new(), queues: Vec::new(), bindings: Vec::new() }
    }

    /// Declares an exchange. Redeclaring an existing name with identical
    /// parameters succeeds without change; with different parameters it
    /// fails without change; a new name is added.
    fn declare_exchange(&mut self, name: &str, durable: bool, topic: bool) -> (r: Result<
        (),
        AppError,
    >)
        requires
            old(self).wf(),
        ensures
            final(self).wf(),
            final(self).spec_queues() == old(self).spec_queues(),
            final(self).spec_bindings() == old(self).spec_bindings(),
            r is Ok <==> !(has_exchange(old(self).spec_exchanges(), name@) && !(
            exchange_of(old(self).spec_exchanges(), name@).durable == durable && exchange_of(
                old(self).spec_exchanges(),
                name@,
            ).topic == topic)),
            r is Err ==> final(self).spec_exchanges() == old(self).spec_exchanges(),
            r matches Err(e) ==> e is MessageQueue,
            r is Ok ==> has_exchange(final(self).spec_exchanges(), name@)
                && exchange_of(final(self).spec_exchanges(), name@).durable == durable
                && exchange_of(final(self).spec_exchanges(), name@).topic == topic,
            r is Ok && has_exchange(old(self).spec_exchanges(), name@)
                ==> final(self).spec_exchanges() == old(self).spec_exchanges(),
            forall|n: Seq<char>| n != name@ ==> has_exchange(final(self).spec_exchanges(), n)
                == has_exchange(old(self).spec_exchanges(), n),
            forall|n: Seq<char>| n != name@ && has_exchange(old(self).spec_exchanges(), n)
                ==> exchange_of(final(self).spec_exchanges(), n)
                == exchange_of(old(self).spec_exchanges(), n),
    {
        let ghost xs0 = self.exchanges@;
        let n = self.exchanges.len();
        let mut i: usize = 0;
        while i < n
            invariant
                n == self.exchanges@.len(),
                self.exchanges@ == xs0,
                *self == *old(self),
                old(self).wf(),
                unique_exchanges(xs0),
                0 <= i <= n,
                forall|k: int| 0 <= k < i ==> xs0[k].name@ != name@,
            decreases n - i,
        {
            if str_eq(self.exchanges[i].name.as_str(), name) {
                proof {
                    lemma_exchange_at(xs0, name@, i as int);
                }
                if self.exchanges[i].durable == durable && self.exchanges[i].topic == topic {
                    return Ok(());
                }
                return Err(AppError::MessageQueue(String::from_str(
                    "exchange exists with different parameters",
                )));
            }
            i += 1;
        }
        let decl = ExchangeDecl { name: name.to_owned(), durable, topic };
        self.exchanges.push(decl);
        proof {
            let xs1 = self.exchanges@;
            let last = xs0.len() as int;
            assert(xs1[last].name@ == name@);
            assert(unique_exchanges(xs1));
            lemma_exchange_at(xs1, name@, last);
            assert forall|nm: Seq<char>| nm != name@ implies has_exchange(xs1, nm)
                == has_exchange(xs0, nm) && (has_exchange(xs0, nm) ==> exchange_of(xs1, nm)
                == exchange_of(xs0, nm)) by {
                if has_exchange(xs0, nm) {
                    let m = choose|m: int| 0 <= m < xs0.len() && xs0[m].name@ == nm;
                    assert(xs1[m] == xs0[m]);
                    lemma_exchange_at(xs1, nm, m);
                    lemma_exchange_at(xs0, nm, m);
                }
                if has_exchange(xs1, nm) {
                    let m = choose|m: int| 0 <= m < xs1.len() && xs1[m].name@ == nm;
                    assert(m < xs0.len());
                    lemma_exchange_at(xs0, nm, m);
                }
            }
        }
        Ok(())
    }

    /// Declares a queue, with the same redeclaration semantics as
    /// `declare_exchange`.
    fn declare_queue(&mut self, name: &str, durable: bool) -> (r: Result<(), AppError>)
        requires
            old(self).wf(),
        ensures
            final(self).wf(),
            final(self).spec_exchanges() == old(self).spec_exchanges(),
            final(self).spec_bindings() == old(self).spec_bindings(),
            r is Ok <==> !(has_queue(old(self).spec_queues(), name@) && queue_of(
                old(self).spec_queues(),
                name@,
            ).durable != durable),
            r is Err ==> final(self).spec_queues() == old(self).spec_queues(),
            r matches Err(e) ==> e is MessageQueue,
            r is Ok ==> has_queue(final(self).spec_queues(), name@) && queue_of(
                final(self).spec_queues(),
                name@,
            ).durable == durable,
            r is Ok && has_queue(old(self).spec_queues(), name@) ==> final(self).spec_queues()
                == old(self).spec_queues(),
            forall|n: Seq<char>| n != name@ ==> has_queue(final(self).spec_queues(), n)
                == has_queue(old(self).spec_queues(), n),
            forall|n: Seq<char>| n != name@ && has_queue(old(self).spec_queues(), n)
                ==> queue_of(final(self).spec_queues(), n) == queue_of(old(self).spec_queues(), n),
    {
        let ghost qs0 = self.queues@;
        let n = self.queues.len();
        let mut i: usize = 0;
        while i < n
            invariant
                n == self.queues@.len(),
                self.queues@ == qs0,
                *self == *old(self),
                old(self).wf(),
                unique_queues(qs0),
                0 <= i <= n,
                forall|k: int| 0 <= k < i ==> qs0[k].name@ != name@,
            decreases n - i,
        {
            if str_eq(self.queues[i].name.as_str(), name) {
                proof {
                    lemma_queue_at(qs0, name@, i as int);
                }
                if self.queues[i].durable == durable {
                    return Ok(());
                }
                return Err(AppError::MessageQueue(String::from_str(
                    "queue exists with different parameters",
                )));
            }
            i += 1;
        }
        let decl = QueueDecl { name: name.to_owned(), durable };
        self.queues.push(decl);
        proof {
            let qs1 = self.queues@;
            let last = qs0.len() as int;
            assert(qs1[last].name@ == name@);
            assert(unique_queues(qs1));
            lemma_queue_at(qs1, name@, last);
            assert forall|nm: Seq<char>| nm != name@ implies has_queue(qs1, nm)
                == has_queue(qs0, nm) && (has_queue(qs0, nm) ==> queue_of(qs1, nm)
                == queue_of(qs0, nm)) by {
                if has_queue(qs0, nm) {
                    let m = choose|m: int| 0 <= m < qs0.len() && qs0[m].name@ == nm;
                    assert(qs1[m] == qs0[m]);
                    lemma_queue_at(qs1, nm, m);
                    lemma_queue_at(qs0, nm, m);
                }
                if has_queue(qs1, nm) {
                    let m = choose|m: int| 0 <= m < qs1.len() && qs1[m].name@ == nm;
                    assert(m < qs0.len());
                    lemma_queue_at(qs0, nm, m);
                }
            }
        }
        Ok(())
    }

    /// Binds `queue` to `exchange` under `routing_key`. Both ends must
    /// exist; an identical existing binding is accepted and not
    /// duplicated.
    fn bind(&mut self, exchange: &str, queue: &str, routing_key: &str) -> (r: Result<
        (),
        AppError,
    >)
        requires
            old(self).wf(),
        ensures
            final(self).wf(),
            final(self).spec_exchanges() == old(self).spec_exchanges(),
            final(self).spec_queues() == old(self).spec_queues(),
            r is Ok <==> has_exchange(old(self).spec_exchanges(), exchange@) && has_queue(
                old(self).spec_queues(),
                queue@,
            ),
            r is Err ==> final(self).spec_bindings() == old(self).spec_bindings(),
            r matches Err(e) ==> e is MessageQueue,
            r is Ok ==> has_binding(
                final(self).spec_bindings(),
                exchange@,
                queue@,
                routing_key@,
            ),
            r is Ok && has_binding(old(self).spec_bindings(), exchange@, queue@, routing_key@)
                ==> final(self).spec_bindings() == old(self).spec_bindings(),
            forall|e: Seq<char>, q: Seq<char>, rk: Seq<char>|
                !(e == exchange@ && q == queue@ && rk == routing_key@)
                    ==> has_binding(final(self).spec_bindings(), e, q, rk)
                    == has_binding(old(self).spec_bindings(), e, q, rk),
    {
        let mut ex_found = false;
        let n = self.exchanges.len();
        let mut i: usize = 0;
        while i < n
            invariant
                n == self.exchanges@.len(),
                *self == *old(self),
                old(self).wf(),
                0 <= i <= n,
                ex_found == exists|k: int| 0 <= k < i && self.exchanges@[k].name@ == exchange@,
            decreases n - i,
        {
            if str_eq(self.exchanges[i].name.as_str(), exchange) {
                ex_found = true;
            }
            i += 1;
        }
        if !ex_found {
            return Err(AppError::MessageQueue(String::from_str("exchange does not exist")));
        }
        let mut q_found = false;
        let nq = self.queues.len();
        let mut j: usize = 0;
        while j < nq
            invariant
                nq == self.queues@.len(),
                *self == *old(self),
                old(self).wf(),
                0 <= j <= nq,
                q_found == exists|k: int| 0 <= k < j && self.queues@[k].name@ == queue@,
            decreases nq - j,
        {
            if str_eq(self.queues[j].name.as_str(), queue) {
                q_found = true;
            }
            j += 1;
        }
        if !q_found {
            return Err(AppError::MessageQueue(String::from_str("queue does not exist")));
        }
        let ghost bs0 = self.bindings@;
        let nb = self.bindings.len();
        let mut k: usize = 0;
        while k < nb
            invariant
                nb == self.bindings@.len(),
                self.bindings@ == bs0,
                *self == *old(self),
                old(self).wf(),
                has_exchange(self.spec_exchanges(), exchange@),
                has_queue(self.spec_queues(), queue@),
                0 <= k <= nb,
                forall|m: int| 0 <= m < k ==> !(bs0[m].exchange@ == exchange@
                    && bs0[m].queue@ == queue@ && bs0[m].routing_key@ == routing_key@),
            decreases nb - k,
        {
            if str_eq(self.bindings[k].exchange.as_str(), exchange) && str_eq(
                self.bindings[k].queue.as_str(),
                queue,
            ) && str_eq(self.bindings[k].routing_key.as_str(), routing_key) {
                return Ok(());
            }
            k += 1;
        }
        let decl = BindingDecl {
            exchange: exchange.to_owned(),
            queue: queue.to_owned(),
            routing_key: routing_key.to_owned(),
        };
        self.bindings.push(decl);
        proof {
            let bs1 = self.bindings@;
            let last = bs0.len() as int;
            assert(bs1[last].exchange@ == exchange@);
            assert(bs1[last].queue@ == queue@);
            assert(bs1[last].routing_key@ == routing_key@);
            assert(has_binding(bs1, exchange@, queue@, routing_key@));
            assert forall|e: Seq<char>, q: Seq<char>, rk: Seq<char>|
                !(e == exchange@ && q == queue@ && rk == routing_key@) implies has_binding(
                bs1,
                e,
                q,
                rk,
            ) == has_binding(bs0, e, q, rk) by {
                if has_binding(bs0, e, q, rk) {
                    let m = choose|m: int| 0 <= m < bs0.len() && bs0[m].exchange@ == e
                        && bs0[m].queue@ == q && bs0[m].routing_key@ == rk;
                    assert(bs1[m] == bs0[m]);
                    assert(has_binding(bs1, e, q, rk));
                }
                if has_binding(bs1, e, q, rk) {
                    let m = choose|m: int| 0 <= m < bs1.len() && bs1[m].exchange@ == e
                        && bs1[m].queue@ == q && bs1[m].routing_key@ == rk;
                    assert(m < bs0.len());
                    assert(has_binding(bs0, e, q, rk));
                }
            }
        }
        Ok(())
    }

    /// How many exchanges have been declared.
    pub fn exchange_count(&self) -> (r: usize)
        ensures
            r == self.spec_exchanges().len(),
    {
        self.exchanges.len()
    }

    /// How many queues have been declared.
    pub fn queue_count(&self) -> (r: usize)
        ensures
            r == self.spec_queues().len(),
    {
        self.queues.len()
    }

    /// How many bindings exist.
    pub fn binding_count(&self) -> (r: usize)
        ensures
            r == self.spec_bindings().len(),
    {
        self.bindings.len()
    }

    /// Establishes the event topology in the fixed order: durable topic
    /// exchange, then durable queue, then the binding; each step must
    /// succeed before the next begins. Establishment is idempotent: on a
    /// broker where the same configuration is already established, it
    /// succeeds and changes nothing — no duplicate exchange, queue or
    /// binding — which is what lets both the publishing and the consuming
    /// side declare the identical topology at startup.
    pub fn establish(&mut self, cfg: &TopologyConfig) -> (r: Result<(), AppError>)
        requires
            old(self).wf(),
        ensures
            final(self).wf(),
            r is Ok <==> !exchange_conflict(*old(self), *cfg) && !queue_conflict(
                *old(self),
                *cfg,
            ),
            r matches Err(e) ==> e is MessageQueue,
            r is Ok ==> established(*final(self), *cfg),
            established(*old(self), *cfg) ==> r is Ok && same_topology(*final(self), *old(self)),
            exchange_conflict(*old(self), *cfg) ==> same_topology(*final(self), *old(self)),
            r is Err ==> final(self).spec_queues() == old(self).spec_queues()
                && final(self).spec_bindings() == old(self).spec_bindings(),
    {
        let ghost pre = *self;
        match self.declare_exchange(cfg.exchange.as_str(), true, true) {
            Err(e) => {
                return Err(e);
            },
            Ok(()) => {},
        }
        match self.declare_queue(cfg.queue.as_str(), true) {
            Err(e) => {
                return Err(e);
            },
            Ok(()) => {},
        }
        let ghost mid = *self;
        let r = self.bind(cfg.exchange.as_str(), cfg.queue.as_str(), cfg.routing_key.as_str());
        proof {
            assert(r is Ok);
            if established(pre, *cfg) {
                assert(same_topology(mid, pre));
                assert(same_topology(*self, pre));
            }
        }
        r
    }
}

} // verus!
