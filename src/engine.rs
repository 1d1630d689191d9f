//! The correlation engine of one connection: it hands out request
//! identifiers, keeps the table of unanswered requests and the registry of
//! subscriptions, and routes every incoming message to the one operation it
//! belongs to. It performs no I/O: the connection's driver sends the requests
//! it returns, feeds it what arrives, and wakes the callers it names.
use vstd::prelude::*;

use crate::error::{ErrorObject, ErrorObjectView, RpcError};
use crate::keyed::{
    distinct_keys, keyed, lemma_distinct_key_count, lemma_keyed_dom, lemma_keyed_lookup, lemma_keyed_push, lemma_keyed_remove,
    lemma_keyed_update,
};

verus! {

/// What an unanswered request waits for.
#[derive(Debug)]
pub enum Awaiting {
    /// The result of a method.
    Response,
    /// The identifier of a new subscription, to be cancelled by `unsubscribe`.
    Subscription { unsubscribe: String },
}

/// An [`Awaiting`] as the proofs see it.
pub enum AwaitingView {
    Response,
    Subscription(Seq<char>),
}

impl View for Awaiting {
    type V = AwaitingView;

    open spec fn view(&self) -> AwaitingView {
        match self {
            Awaiting::Response => AwaitingView::Response,
            Awaiting::Subscription { unsubscribe } => AwaitingView::Subscription(unsubscribe@),
        }
    }
}

/// The parameters of an outgoing request.
#[derive(Debug, PartialEq, Eq)]
pub enum Params {
    /// A JSON object of named parameters, as text.
    Named(String),
    /// The identifier of the subscription that an unsubscribe request cancels.
    Subscription(String),
}

/// A request to write to the connection.
#[derive(Debug, PartialEq, Eq)]
pub struct Request {
    pub id: u64,
    pub method: String,
    pub params: Params,
}

/// A message read from the connection, as the wire parser classified it.
#[derive(Debug, PartialEq, Eq)]
pub enum Incoming {
    /// The answer to request `id`: its result as JSON text, or the remote error.
    Response { id: u64, outcome: Result<String, ErrorObject> },
    /// A payload, as JSON text, pushed for a subscription.
    Notification { subscription: String, payload: String },
    /// Anything else.
    Unroutable,
}

/// The result of a method as the proofs see it.
pub open spec fn outcome_view(o: Result<String, ErrorObject>) -> Result<Seq<char>, ErrorObjectView> {
    match o {
        Ok(s) => Ok(s@),
        Err(e) => Err(e@),
    }
}

/// An [`Incoming`] message as the proofs see it.
pub enum IncomingView {
    Response { id: u64, outcome: Result<Seq<char>, ErrorObjectView> },
    Notification { subscription: Seq<char>, payload: Seq<char> },
    Unroutable,
}

impl View for Incoming {
    type V = IncomingView;

    open spec fn view(&self) -> IncomingView {
        match self {
            Incoming::Response { id, outcome } => IncomingView::Response {
                id: *id,
                outcome: outcome_view(*outcome),
            },
            Incoming::Notification { subscription, payload } => IncomingView::Notification {
                subscription: subscription@,
                payload: payload@,
            },
            Incoming::Unroutable => IncomingView::Unroutable,
        }
    }
}

/// What routing one incoming message did.
#[derive(Debug, PartialEq, Eq)]
pub enum Routed {
    /// Request `id` is answered; its caller receives `outcome`.
    Completed { id: u64, outcome: Result<String, ErrorObject> },
    /// Subscribe request `id` is answered; the subscription is registered.
    Subscribed { id: u64, subscription: String },
    /// A payload was queued for the subscription.
    Delivered { subscription: String },
    /// Nothing waits for the message; it is discarded.
    Dropped,
}

/// A [`Routed`] as the proofs see it.
pub enum RoutedView {
    Completed { id: u64, outcome: Result<Seq<char>, ErrorObjectView> },
    Subscribed { id: u64, subscription: Seq<char> },
    Delivered { subscription: Seq<char> },
    Dropped,
}

impl View for Routed {
    type V = RoutedView;

    open spec fn view(&self) -> RoutedView {
        match self {
            Routed::Completed { id, outcome } => RoutedView::Completed {
                id: *id,
                outcome: outcome_view(*outcome),
            },
            Routed::Subscribed { id, subscription } => RoutedView::Subscribed {
                id: *id,
                subscription: subscription@,
            },
            Routed::Delivered { subscription } => RoutedView::Delivered {
                subscription: subscription@,
            },
            Routed::Dropped => RoutedView::Dropped,
        }
    }
}

/// What a subscription's consumer gets when it asks for the next payload.
#[derive(Debug, PartialEq, Eq)]
pub enum Next {
    /// The oldest queued payload.
    Item(String),
    /// Nothing is queued yet: wait for a delivery.
    Pending,
    /// The subscription is cancelled or the connection is closed.
    Ended,
}

/// A [`Next`] as the proofs see it.
pub enum NextView {
    Item(Seq<char>),
    Pending,
    Ended,
}

impl View for Next {
    type V = NextView;

    open spec fn view(&self) -> NextView {
        match self {
            Next::Item(s) => NextView::Item(s@),
            Next::Pending => NextView::Pending,
            Next::Ended => NextView::Ended,
        }
    }
}

/// What closing the connection ended.
#[derive(Debug, PartialEq, Eq)]
pub struct Closure {
    /// The unanswered requests; each of their callers receives a closed error.
    pub calls: Vec<u64>,
    /// The subscriptions; each of their streams ends.
    pub subscriptions: Vec<String>,
}

/// A registered subscription.
#[derive(Debug)]
pub struct Subscription {
    id: String,
    unsubscribe: String,
    queue: Vec<String>,
}

/// A registered subscription as the proofs see it.
pub struct SubscriptionView {
    pub unsubscribe: Seq<char>,
    pub queue: Seq<Seq<char>>,
}

impl View for Subscription {
    type V = SubscriptionView;

    closed spec fn view(&self) -> SubscriptionView {
        SubscriptionView {
            unsubscribe: self.unsubscribe@,
            queue: self.queue@.map_values(|p: String| p@),
        }
    }
}

/// The engine's state as the proofs see it.
pub struct EngineView {
    /// The identifier the next request gets.
    pub next_id: u64,
    /// The unanswered requests.
    pub pending: Map<u64, AwaitingView>,
    /// The registered subscriptions, by identifier.
    pub subscriptions: Map<Seq<char>, SubscriptionView>,
    /// Whether the connection is closed.
    pub closed: bool,
}

impl EngineView {
    /// Every unanswered request has an identifier handed out before, and a
    /// closed connection holds nothing.
    pub open spec fn wf(self) -> bool {
        &&& forall|id: u64| #[trigger] self.pending.contains_key(id) ==> id < self.next_id
        &&& self.closed ==> self.pending == Map::<u64, AwaitingView>::empty()
            && self.subscriptions == Map::<Seq<char>, SubscriptionView>::empty()
    }

    /// The state once a request waiting for `a` has been handed out.
    pub open spec fn enqueue(self, a: AwaitingView) -> EngineView {
        EngineView {
            next_id: (self.next_id + 1) as u64,
            pending: self.pending.insert(self.next_id, a),
            ..self
        }
    }

    /// The state once the local entry of subscription `sub` is gone.
    pub open spec fn released(self, sub: Seq<char>) -> EngineView {
        EngineView { subscriptions: self.subscriptions.remove(sub), ..self }
    }

    /// The state once the connection is closed.
    pub open spec fn shut(self) -> EngineView {
        EngineView {
            next_id: self.next_id,
            pending: Map::empty(),
            subscriptions: Map::empty(),
            closed: true,
        }
    }

    /// Routing one incoming message: the new state and what it did.
    pub open spec fn route(self, msg: IncomingView) -> (EngineView, RoutedView) {
        match msg {
            IncomingView::Response { id, outcome } => {
                if self.pending.contains_key(id) {
                    let answered = EngineView { pending: self.pending.remove(id), ..self };
                    match self.pending[id] {
                        AwaitingView::Subscription(unsubscribe) => match outcome {
                            Ok(sub) => (
                                EngineView {
                                    subscriptions: self.subscriptions.insert(
                                        sub,
                                        SubscriptionView { unsubscribe, queue: seq![] },
                                    ),
                                    ..answered
                                },
                                RoutedView::Subscribed { id, subscription: sub },
                            ),
                            Err(_) => (answered, RoutedView::Completed { id, outcome }),
                        },
                        AwaitingView::Response => (answered, RoutedView::Completed { id, outcome }),
                    }
                } else {
                    (self, RoutedView::Dropped)
                }
            },
            IncomingView::Notification { subscription, payload } => {
                if self.subscriptions.contains_key(subscription) {
                    let s = self.subscriptions[subscription];
                    (
                        EngineView {
                            subscriptions: self.subscriptions.insert(
                                subscription,
                                SubscriptionView { queue: s.queue.push(payload), ..s },
                            ),
                            ..self
                        },
                        RoutedView::Delivered { subscription },
                    )
                } else {
                    (self, RoutedView::Dropped)
                }
            },
            IncomingView::Unroutable => (self, RoutedView::Dropped),
        }
    }

    /// Taking the next payload of subscription `sub`: the new state and the answer.
    pub open spec fn next_item(self, sub: Seq<char>) -> (EngineView, NextView) {
        if self.subscriptions.contains_key(sub) {
            let s = self.subscriptions[sub];
            if s.queue.len() > 0 {
                (
                    EngineView {
                        subscriptions: self.subscriptions.insert(
                            sub,
                            SubscriptionView { queue: s.queue.drop_first(), ..s },
                        ),
                        ..self
                    },
                    NextView::Item(s.queue[0]),
                )
            } else {
                (self, NextView::Pending)
            }
        } else {
            (self, NextView::Ended)
        }
    }
}

/// The correlation engine of one connection.
#[derive(Debug)]
pub struct Engine {
    next_id: u64,
    pending: Vec<(u64, Awaiting)>,
    subscriptions: Vec<Subscription>,
    closed: bool,
}

impl View for Engine {
    type V = EngineView;

    closed spec fn view(&self) -> EngineView {
        EngineView {
            next_id: self.next_id,
            pending: keyed(self.pending_entries()),
            subscriptions: keyed(self.subscription_entries()),
            closed: self.closed,
        }
    }
}

impl Engine {
    spec fn pending_entries(&self) -> Seq<(u64, AwaitingView)> {
        self.pending@.map_values(|e: (u64, Awaiting)| (e.0, e.1@))
    }

    spec fn subscription_entries(&self) -> Seq<(Seq<char>, SubscriptionView)> {
        self.subscriptions@.map_values(|s: Subscription| (s.id@, s@))
    }

    /// The tables hold each key once and the state is well formed.
    pub closed spec fn wf(&self) -> bool {
        &&& distinct_keys(self.pending_entries())
        &&& distinct_keys(self.subscription_entries())
        &&& self@.wf()
    }

    /// An engine for a new connection: nothing pending, nothing subscribed.
    pub fn new() -> (r: Engine)
        ensures
            r.wf(),
            r@ == (EngineView {
                next_id: 0,
                pending: Map::empty(),
                subscriptions: Map::empty(),
                closed: false,
            }),
    {
        let r = Engine { next_id: 0, pending: Vec::new(), subscriptions: Vec::new(), closed: false };
        proof {
            assert(r.pending_entries() =~= Seq::<(u64, AwaitingView)>::empty());
            assert(r.subscription_entries() =~= Seq::<(Seq<char>, SubscriptionView)>::empty());
            assert(r@.pending =~= Map::<u64, AwaitingView>::empty());
            assert(r@.subscriptions =~= Map::<Seq<char>, SubscriptionView>::empty());
        }
        r
    }

    /// Whether the connection is closed.
    pub fn is_closed(&self) -> (r: bool)
        ensures
            r == self@.closed,
    {
        self.closed
    }

    /// Hands out the next identifier for a request waiting for `awaiting`.
    fn enqueue(&mut self, method: String, params: Params, awaiting: Awaiting) -> (r: Result<Request, RpcError>)
        requires
            old(self).wf(),
        ensures
            final(self).wf(),
            if old(self)@.closed {
                r matches Err(RpcError::Closed) && final(self)@ == old(self)@
            } else if old(self)@.next_id == u64::MAX {
                r matches Err(RpcError::IdsExhausted) && final(self)@ == old(self)@
            } else {
                r matches Ok(req) && req.id == old(self)@.next_id && req.method == method && req.params == params && final(self)@
                == old(self)@.enqueue(awaiting@)
            },
    {
        if self.closed {
            return Err(RpcError::Closed);
        }
        if self.next_id == u64::MAX {
            return Err(RpcError::IdsExhausted);
        }
        let id = self.next_id;
        proof {
            lemma_keyed_dom(self.pending_entries(), id);
            if exists|i: int| 0 <= i < self.pending_entries().len() && self.pending_entries()[i].0 == id {
                assert(self@.pending.contains_key(id));
            }
        }
        let ghost before = self.pending_entries();
        let ghost a = awaiting@;
        self.pending.push((id, awaiting));
        self.next_id = id + 1;
        proof {
            assert(self.pending_entries() =~= before.push((id, a)));
            lemma_keyed_push(before, id, a);
            assert(distinct_keys(self.pending_entries())) by {
                assert forall|i: int, j: int|
                    0 <= i < self.pending_entries().len() && 0 <= j < self.pending_entries().len()
                        && i != j implies self.pending_entries()[i].0 != self.pending_entries()[j].0 by {
                    if i < before.len() && j < before.len() {
                        assert(self.pending_entries()[i] == before[i]);
                        assert(self.pending_entries()[j] == before[j]);
                    } else if i < before.len() {
                        assert(self.pending_entries()[i] == before[i]);
                    } else if j < before.len() {
                        assert(self.pending_entries()[j] == before[j]);
                    }
                }
            }
            assert(self@.pending == old(self)@.pending.insert(id, a));
            assert forall|k: u64| #[trigger] self@.pending.contains_key(k) implies k < self@.next_id by {
                if k != id {
                    assert(old(self)@.pending.contains_key(k));
                }
            }
        }
        Ok(Request { id, method, params })
    }

    /// Starts a call of `method` with named parameters `params` (a JSON object
    /// as text): the request to send, under a fresh identifier that now waits
    /// for its response. A closed connection refuses it.
    pub fn call(&mut self, method: String, params: String) -> (r: Result<Request, RpcError>)
        requires
            old(self).wf(),
        ensures
            final(self).wf(),
            if old(self)@.closed {
                r matches Err(RpcError::Closed) && final(self)@ == old(self)@
            } else if old(self)@.next_id == u64::MAX {
                r matches Err(RpcError::IdsExhausted) && final(self)@ == old(self)@
            } else {
                r matches Ok(req) && req.id == old(self)@.next_id && req.method == method
                    && req.params == Params::Named(params) && final(self)@ == old(self)@.enqueue(AwaitingView::Response)
            },
    {
        self.enqueue(method, Params::Named(params), Awaiting::Response)
    }

    /// Starts a subscription through `method` with named parameters `params`;
    /// `unsubscribe` is the method that will cancel it. The response, once
    /// routed, registers the subscription under the identifier it carries.
    pub fn subscribe(&mut self, method: String, params: String, unsubscribe: String) -> (r: Result<Request, RpcError>)
        requires
            old(self).wf(),
        ensures
            final(self).wf(),
            if old(self)@.closed {
                r matches Err(RpcError::Closed) && final(self)@ == old(self)@
            } else if old(self)@.next_id == u64::MAX {
                r matches Err(RpcError::IdsExhausted) && final(self)@ == old(self)@
            } else {
                r matches Ok(req) && req.id == old(self)@.next_id && req.method == method
                    && req.params == Params::Named(params) && final(self)@ == old(self)@.enqueue(
                    AwaitingView::Subscription(unsubscribe@),
                )
            },
    {
        self.enqueue(method, Params::Named(params), Awaiting::Subscription { unsubscribe })
    }

    fn find_pending(&self, id: u64) -> (r: Option<usize>)
        requires
            self.wf(),
        ensures
            match r {
                Some(i) => i < self.pending@.len() && self.pending@[i as int].0 == id
                    && self@.pending.contains_key(id) && self@.pending[id] == self.pending@[i as int].1@,
                None => !self@.pending.contains_key(id),
            },
    {
        let mut i: usize = 0;
        while i < self.pending.len()
            invariant
                self.wf(),
                i <= self.pending@.len(),
                forall|j: int| 0 <= j < i ==> self.pending@[j].0 != id,
            decreases self.pending@.len() - i,
        {
            if self.pending[i].0 == id {
                proof {
                    lemma_keyed_lookup(self.pending_entries());
                    assert(self.pending_entries()[i as int].0 == id);
                }
                return Some(i);
            }
            i = i + 1;
        }
        proof {
            lemma_keyed_dom(self.pending_entries(), id);
            if self@.pending.contains_key(id) {
                let j = choose|j: int|
                    0 <= j < self.pending_entries().len() && self.pending_entries()[j].0 == id;
                assert(self.pending@[j].0 == id);
            }
        }
        None
    }

    fn find_subscription(&self, sub: &String) -> (r: Option<usize>)
        requires
            self.wf(),
        ensures
            match r {
                Some(i) => i < self.subscriptions@.len() && self.subscriptions@[i as int].id@ == sub@
                    && self@.subscriptions.contains_key(sub@) && self@.subscriptions[sub@]
                    == self.subscriptions@[i as int]@,
                None => !self@.subscriptions.contains_key(sub@),
            },
    {
        let mut i: usize = 0;
        while i < self.subscriptions.len()
            invariant
                self.wf(),
                i <= self.subscriptions@.len(),
                forall|j: int| 0 <= j < i ==> self.subscriptions@[j].id@ != sub@,
            decreases self.subscriptions@.len() - i,
        {
            if self.subscriptions[i].id == *sub {
                proof {
                    lemma_keyed_lookup(self.subscription_entries());
                    assert(self.subscription_entries()[i as int].0 == sub@);
                }
                return Some(i);
            }
            i = i + 1;
        }
        proof {
            lemma_keyed_dom(self.subscription_entries(), sub@);
            if self@.subscriptions.contains_key(sub@) {
                let j = choose|j: int|
                    0 <= j < self.subscription_entries().len() && self.subscription_entries()[j].0
                        == sub@;
                assert(self.subscriptions@[j].id@ == sub@);
            }
        }
        None
    }

    /// Puts `s` in place of the subscription at `j`, which has the same identifier.
    fn swap_subscription(&mut self, j: usize, s: Subscription) -> (prev: Subscription)
        requires
            old(self).wf(),
            !old(self)@.closed,
            j < old(self).subscriptions@.len(),
            s.id@ == old(self).subscriptions@[j as int].id@,
        ensures
            final(self).wf(),
            prev == old(self).subscriptions@[j as int],
            final(self).subscriptions@ == old(self).subscriptions@.update(j as int, s),
            final(self)@ == (EngineView {
                subscriptions: old(self)@.subscriptions.insert(s.id@, s@),
                ..old(self)@
            }),
    {
        let ghost before = self.subscription_entries();
        let prev = self.subscriptions.remove(j);
        self.subscriptions.insert(j, s);
        proof {
            assert(self.subscriptions@ =~= old(self).subscriptions@.update(j as int, s));
            assert(self.subscription_entries() =~= before.update(j as int, (before[j as int].0, s@)));
            lemma_keyed_update(before, j as int, s@);
        }
        prev
    }

    /// Registers subscription `id` with an empty queue, replacing one of that
    /// identifier.
    fn register(&mut self, id: String, unsubscribe: String)
        requires
            old(self).wf(),
            !old(self)@.closed,
        ensures
            final(self).wf(),
            final(self)@ == (EngineView {
                subscriptions: old(self)@.subscriptions.insert(
                    id@,
                    SubscriptionView { unsubscribe: unsubscribe@, queue: seq![] },
                ),
                ..old(self)@
            }),
    {
        let s = Subscription { id, unsubscribe, queue: Vec::new() };
        proof {
            assert(s@.queue =~= Seq::<Seq<char>>::empty());
        }
        match self.find_subscription(&s.id) {
            Some(j) => {
                let _ = self.swap_subscription(j, s);
            },
            None => {
                let ghost before = self.subscription_entries();
                let ghost key = s.id@;
                let ghost v = s@;
                self.subscriptions.push(s);
                proof {
                    assert(self.subscription_entries() =~= before.push((key, v)));
                    lemma_keyed_push(before, key, v);
                    lemma_keyed_dom(before, key);
                    assert(distinct_keys(self.subscription_entries())) by {
                        let e = self.subscription_entries();
                        assert forall|a: int, b: int|
                            0 <= a < e.len() && 0 <= b < e.len() && a != b implies e[a].0 != e[b].0 by {
                            if a < before.len() {
                                assert(e[a] == before[a]);
                            }
                            if b < before.len() {
                                assert(e[b] == before[b]);
                            }
                        }
                    }
                }
            },
        }
    }

    /// Routes one incoming message. A response completes the request of its
    /// identifier, which leaves the table; the response to a subscribe request
    /// registers the subscription it names. A notification is queued for its
    /// subscription. A message that nothing waits for is dropped.
    pub fn receive(&mut self, msg: Incoming) -> (r: Routed)
        requires
            old(self).wf(),
        ensures
            final(self).wf(),
            (final(self)@, r@) == old(self)@.route(msg@),
    {
        match msg {
            Incoming::Response { id, outcome } => match self.find_pending(id) {
                None => Routed::Dropped,
                Some(i) => {
                    let ghost before = self.pending_entries();
                    let (_, awaiting) = self.pending.remove(i);
                    proof {
                        assert(self.pending_entries() =~= before.remove(i as int));
                        lemma_keyed_remove(before, i as int);
                        assert forall|k: u64| #[trigger] self@.pending.contains_key(k) implies k
                            < self@.next_id by {
                            assert(old(self)@.pending.contains_key(k));
                        }
                    }
                    match awaiting {
                        Awaiting::Subscription { unsubscribe } => match outcome {
                            Ok(sub) => {
                                let name = sub.clone();
                                self.register(name, unsubscribe);
                                Routed::Subscribed { id, subscription: sub }
                            },
                            Err(e) => Routed::Completed { id, outcome: Err(e) },
                        },
                        Awaiting::Response => Routed::Completed { id, outcome },
                    }
                },
            },
            Incoming::Notification { subscription, payload } => match self.find_subscription(
                &subscription,
            ) {
                None => Routed::Dropped,
                Some(j) => {
                    let placeholder = Subscription {
                        id: self.subscriptions[j].id.clone(),
                        unsubscribe: String::new(),
                        queue: Vec::new(),
                    };
                    let mut s = self.swap_subscription(j, placeholder);
                    s.queue.push(payload);
                    proof {
                        assert(s@.queue =~= old(self)@.subscriptions[subscription@].queue.push(payload@));
                    }
                    let _ = self.swap_subscription(j, s);
                    proof {
                        assert(self@.subscriptions =~= old(self)@.subscriptions.insert(
                            subscription@,
                            SubscriptionView {
                                queue: old(self)@.subscriptions[subscription@].queue.push(payload@),
                                ..old(self)@.subscriptions[subscription@]
                            },
                        ));
                    }
                    Routed::Delivered { subscription }
                },
            },
            Incoming::Unroutable => Routed::Dropped,
        }
    }

    /// Takes the oldest queued payload of subscription `sub`: `Pending` while
    /// its queue is empty, `Ended` once it is cancelled or the connection is
    /// closed.
    pub fn next(&mut self, sub: &String) -> (r: Next)
        requires
            old(self).wf(),
        ensures
            final(self).wf(),
            (final(self)@, r@) == old(self)@.next_item(sub@),
    {
        match self.find_subscription(sub) {
            None => Next::Ended,
            Some(j) => {
                if self.subscriptions[j].queue.len() == 0 {
                    proof {
                        assert(self@.subscriptions[sub@].queue.len() == 0);
                    }
                    Next::Pending
                } else {
                    let placeholder = Subscription {
                        id: self.subscriptions[j].id.clone(),
                        unsubscribe: String::new(),
                        queue: Vec::new(),
                    };
                    let mut s = self.swap_subscription(j, placeholder);
                    let item = s.queue.remove(0);
                    proof {
                        assert(s@.queue =~= old(self)@.subscriptions[sub@].queue.drop_first());
                    }
                    let _ = self.swap_subscription(j, s);
                    proof {
                        assert(self@.subscriptions =~= old(self)@.subscriptions.insert(
                            sub@,
                            SubscriptionView {
                                queue: old(self)@.subscriptions[sub@].queue.drop_first(),
                                ..old(self)@.subscriptions[sub@]
                            },
                        ));
                    }
                    Next::Item(item)
                }
            },
        }
    }

    /// Removes the local entry of subscription `sub`, if there is one, without
    /// telling the remote side: what dropping a subscription's handle does.
    pub fn release(&mut self, sub: &String)
        requires
            old(self).wf(),
        ensures
            final(self).wf(),
            final(self)@ == old(self)@.released(sub@),
    {
        match self.find_subscription(sub) {
            None => {
                proof {
                    assert(self@.subscriptions.remove(sub@) =~= self@.subscriptions);
                }
            },
            Some(j) => {
                let ghost before = self.subscription_entries();
                let _ = self.subscriptions.remove(j);
                proof {
                    assert(self.subscription_entries() =~= before.remove(j as int));
                    lemma_keyed_remove(before, j as int);
                    assert(self.pending_entries() == old(self).pending_entries());
                    assert(self@.subscriptions == old(self)@.subscriptions.remove(sub@));
                    assert(!self.closed);
                    assert(self@.pending == old(self)@.pending);
                    assert(self@.wf());
                }
            },
        }
    }

    /// Cancels subscription `sub`: its local entry goes at once, whatever the
    /// remote side later answers, and the returned request asks the remote side
    /// to cancel it too, through the subscription's unsubscribe method.
    pub fn unsubscribe(&mut self, sub: &String) -> (r: Result<Request, RpcError>)
        requires
            old(self).wf(),
        ensures
            final(self).wf(),
            if old(self)@.closed {
                r matches Err(RpcError::Closed) && final(self)@ == old(self)@
            } else if !old(self)@.subscriptions.contains_key(sub@) {
                r matches Err(RpcError::UnknownSubscription) && final(self)@ == old(self)@
            } else if old(self)@.next_id == u64::MAX {
                r matches Err(RpcError::IdsExhausted) && final(self)@ == old(self)@.released(sub@)
            } else {
                r matches Ok(req) && req.id == old(self)@.next_id && req.method@ == old(
                    self,
                )@.subscriptions[sub@].unsubscribe && final(self)@ == old(self)@.released(
                    sub@,
                ).enqueue(AwaitingView::Response) && match req.params {
                    Params::Subscription(p) => p@ == sub@,
                    Params::Named(_) => false,
                }
            },
    {
        if self.closed {
            return Err(RpcError::Closed);
        }
        match self.find_subscription(sub) {
            None => Err(RpcError::UnknownSubscription),
            Some(j) => {
                let ghost before = self.subscription_entries();
                let s = self.subscriptions.remove(j);
                proof {
                    assert(self.subscription_entries() =~= before.remove(j as int));
                    lemma_keyed_remove(before, j as int);
                    assert(self.pending_entries() == old(self).pending_entries());
                    assert(self@.subscriptions == old(self)@.subscriptions.remove(sub@));
                    assert(!self.closed);
                    assert(self@.pending == old(self)@.pending);
                    assert(self@.wf());
                }
                self.enqueue(s.unsubscribe, Params::Subscription(s.id), Awaiting::Response)
            },
        }
    }

    /// Closes the connection: every unanswered request and every subscription
    /// ends, each named once in the result, and the engine refuses new work.
    pub fn close(&mut self) -> (r: Closure)
        requires
            old(self).wf(),
        ensures
            final(self).wf(),
            final(self)@ == old(self)@.shut(),
            r.calls@.no_duplicates(),
            r.calls@.len() == old(self)@.pending.dom().len(),
            forall|id: u64| old(self)@.pending.contains_key(id) <==> r.calls@.contains(id),
            r.subscriptions@.len() == old(self)@.subscriptions.dom().len(),
            forall|sub: Seq<char>|
                old(self)@.subscriptions.contains_key(sub) <==> exists|k: int|
                    0 <= k < r.subscriptions@.len() && (#[trigger] r.subscriptions@[k])@ == sub,
    {
        let mut calls: Vec<u64> = Vec::new();
        let mut i: usize = 0;
        while i < self.pending.len()
            invariant
                self == old(self),
                i <= self.pending@.len(),
                calls@.len() == i,
                forall|k: int| 0 <= k < i ==> calls@[k] == self.pending@[k].0,
            decreases self.pending@.len() - i,
        {
            calls.push(self.pending[i].0);
            i = i + 1;
        }
        let mut subscriptions: Vec<String> = Vec::new();
        let mut j: usize = 0;
        while j < self.subscriptions.len()
            invariant
                self == old(self),
                j <= self.subscriptions@.len(),
                subscriptions@.len() == j,
                forall|k: int| 0 <= k < j ==> subscriptions@[k]@ == self.subscriptions@[k].id@,
            decreases self.subscriptions@.len() - j,
        {
            subscriptions.push(self.subscriptions[j].id.clone());
            j = j + 1;
        }
        proof {
            let pe = self.pending_entries();
            let se = self.subscription_entries();
            assert forall|a: int, b: int| 0 <= a < calls@.len() && 0 <= b < calls@.len() && a != b implies calls@[a]
                != calls@[b] by {
                assert(pe[a].0 == calls@[a] && pe[b].0 == calls@[b]);
            }
            assert forall|id: u64| old(self)@.pending.contains_key(id) <==> calls@.contains(id) by {
                lemma_keyed_dom(pe, id);
                if calls@.contains(id) {
                    let k = choose|k: int| 0 <= k < calls@.len() && calls@[k] == id;
                    assert(pe[k].0 == id);
                }
                if old(self)@.pending.contains_key(id) {
                    let k = choose|k: int| 0 <= k < pe.len() && pe[k].0 == id;
                    assert(calls@[k] == id);
                }
            }
            assert forall|sub: Seq<char>| old(self)@.subscriptions.contains_key(sub) <==> exists|k: int|
                0 <= k < subscriptions@.len() && (#[trigger] subscriptions@[k])@ == sub by {
                lemma_keyed_dom(se, sub);
                if old(self)@.subscriptions.contains_key(sub) {
                    let k = choose|k: int| 0 <= k < se.len() && se[k].0 == sub;
                    assert(subscriptions@[k]@ == sub);
                }
                if exists|k: int| 0 <= k < subscriptions@.len() && (#[trigger] subscriptions@[k])@ == sub {
                    let k = choose|k: int| 0 <= k < subscriptions@.len() && (#[trigger] subscriptions@[k])@ == sub;
                    assert(se[k].0 == sub);
                }
            }
            lemma_distinct_key_count(se);
            lemma_distinct_key_count(pe);
        }
        self.pending = Vec::new();
        self.subscriptions = Vec::new();
        self.closed = true;
        proof {
            assert(self.pending_entries() =~= Seq::<(u64, AwaitingView)>::empty());
            assert(self.subscription_entries() =~= Seq::<(Seq<char>, SubscriptionView)>::empty());
            assert(self@.pending =~= Map::<u64, AwaitingView>::empty());
            assert(self@.subscriptions =~= Map::<Seq<char>, SubscriptionView>::empty());
        }
        Closure { calls, subscriptions }
    }
}

/// Routing a run of messages one after the other: the last state and what
/// each message did.
pub open spec fn route_all(v: EngineView, msgs: Seq<IncomingView>) -> (EngineView, Seq<RoutedView>)
    decreases msgs.len(),
{
    if msgs.len() == 0 {
        (v, seq![])
    } else {
        let (v1, r) = v.route(msgs[0]);
        let (v2, rs) = route_all(v1, msgs.drop_first());
        (v2, seq![r] + rs)
    }
}

/// The responses that carry `outcomes[k]` for request `ids[k]`, in that order.
pub open spec fn responses(ids: Seq<u64>, outcomes: Seq<Result<Seq<char>, ErrorObjectView>>) -> Seq<IncomingView> {
    Seq::new(ids.len(), |k: int| IncomingView::Response { id: ids[k], outcome: outcomes[k] })
}

/// Whatever order the responses to outstanding calls arrive in, each one
/// completes the call of its own identifier with its own outcome and no other;
/// exactly those entries leave the table, and a second response for any of
/// them is dropped.
pub proof fn lemma_each_call_gets_its_own_response(
    v: EngineView,
    ids: Seq<u64>,
    outcomes: Seq<Result<Seq<char>, ErrorObjectView>>,
)
    requires
        ids.len() == outcomes.len(),
        ids.no_duplicates(),
        forall|k: int|
            0 <= k < ids.len() ==> v.pending.contains_key(#[trigger] ids[k]) && v.pending[ids[k]]
                == AwaitingView::Response,
    ensures
        route_all(v, responses(ids, outcomes)).1.len() == ids.len(),
        forall|k: int|
            0 <= k < ids.len() ==> #[trigger] route_all(v, responses(ids, outcomes)).1[k]
                == (RoutedView::Completed { id: ids[k], outcome: outcomes[k] }),
        route_all(v, responses(ids, outcomes)).0 == (EngineView {
            pending: v.pending.remove_keys(ids.to_set()),
            ..v
        }),
        forall|k: int, o: Result<Seq<char>, ErrorObjectView>|
            0 <= k < ids.len() ==> #[trigger] route_all(v, responses(ids, outcomes)).0.route(
                IncomingView::Response { id: ids[k], outcome: o },
            ) == (route_all(v, responses(ids, outcomes)).0, RoutedView::Dropped),
    decreases ids.len(),
{
    let msgs = responses(ids, outcomes);
    if ids.len() == 0 {
        assert(v.pending.remove_keys(ids.to_set()) =~= v.pending);
    } else {
        let v1 = EngineView { pending: v.pending.remove(ids[0]), ..v };
        assert(v.route(msgs[0]) == (v1, RoutedView::Completed { id: ids[0], outcome: outcomes[0] }));
        let rest_ids = ids.drop_first();
        let rest_outcomes = outcomes.drop_first();
        assert(msgs.drop_first() =~= responses(rest_ids, rest_outcomes));
        assert forall|k: int| 0 <= k < rest_ids.len() implies v1.pending.contains_key(#[trigger] rest_ids[k])
            && v1.pending[rest_ids[k]] == AwaitingView::Response by {
            assert(rest_ids[k] == ids[k + 1]);
            assert(ids[k + 1] != ids[0]);
        }
        lemma_each_call_gets_its_own_response(v1, rest_ids, rest_outcomes);
        let (v2, rs) = route_all(v1, msgs.drop_first());
        assert(route_all(v, msgs) == (v2, seq![RoutedView::Completed { id: ids[0], outcome: outcomes[0] }] + rs));
        assert forall|k: int| 0 <= k < ids.len() implies #[trigger] route_all(v, msgs).1[k]
            == (RoutedView::Completed { id: ids[k], outcome: outcomes[k] }) by {
            if k > 0 {
                assert(route_all(v, msgs).1[k] == rs[k - 1]);
                assert(rest_ids[k - 1] == ids[k]);
                assert(rest_outcomes[k - 1] == outcomes[k]);
            }
        }
        assert(v1.pending.remove_keys(rest_ids.to_set()) =~= v.pending.remove_keys(ids.to_set())) by {
            assert forall|x: u64| rest_ids.to_set().contains(x) || x == ids[0] <==> ids.to_set().contains(x) by {
                if ids.contains(x) && x != ids[0] {
                    let k = choose|k: int| 0 <= k < ids.len() && ids[k] == x;
                    assert(rest_ids[k - 1] == x);
                }
                if rest_ids.contains(x) {
                    let k = choose|k: int| 0 <= k < rest_ids.len() && rest_ids[k] == x;
                    assert(ids[k + 1] == x);
                }
                if x == ids[0] {
                    assert(ids.contains(ids[0]));
                }
            }
        }
        assert forall|k: int, o: Result<Seq<char>, ErrorObjectView>|
            0 <= k < ids.len() implies #[trigger] route_all(v, msgs).0.route(
                IncomingView::Response { id: ids[k], outcome: o },
            ) == (route_all(v, msgs).0, RoutedView::Dropped) by {
            assert(ids.to_set().contains(ids[k])) by {
                assert(ids.contains(ids[k]));
            }
            assert(!v2.pending.contains_key(ids[k]));
        }
    }
}

/// A closed connection keeps no entry: every subscription's stream ends,
/// every message that still arrives is dropped, and nothing can be registered
/// any more.
pub proof fn lemma_closed_connection_ends_everything(v: EngineView, sub: Seq<char>, msg: IncomingView)
    ensures
        v.shut().wf(),
        v.shut().pending.dom().len() == 0,
        v.shut().subscriptions.dom().len() == 0,
        v.shut().next_item(sub) == (v.shut(), NextView::Ended),
        v.shut().route(msg) == (v.shut(), RoutedView::Dropped),
{
    assert(v.shut().pending.dom() =~= Set::<u64>::empty());
    assert(v.shut().subscriptions.dom() =~= Set::<Seq<char>>::empty());
}

/// Once a subscription is cancelled, whether by `unsubscribe` (which also
/// sends a request) or by dropping its handle, a notification that still
/// arrives for it is dropped rather than delivered, and its stream ends.
pub proof fn lemma_cancelled_subscription_gets_nothing(v: EngineView, sub: Seq<char>, payload: Seq<char>)
    ensures
        ({
            let w = v.released(sub);
            &&& w.route(IncomingView::Notification { subscription: sub, payload }) == (w, RoutedView::Dropped)
            &&& w.next_item(sub) == (w, NextView::Ended)
        }),
        ({
            let w = v.released(sub).enqueue(AwaitingView::Response);
            &&& w.route(IncomingView::Notification { subscription: sub, payload }) == (w, RoutedView::Dropped)
            &&& w.next_item(sub) == (w, NextView::Ended)
        }),
{
}

} // verus!
