use signal_cli_client::engine::{Engine, Incoming, Next, Params, Request, Routed};
use signal_cli_client::error::{ErrorObject, RpcError};

fn s(text: &str) -> String {
    text.to_string()
}

fn response(id: u64, result: &str) -> Incoming {
    Incoming::Response { id, outcome: Ok(s(result)) }
}

fn notification(sub: &str, payload: &str) -> Incoming {
    Incoming::Notification { subscription: s(sub), payload: s(payload) }
}

fn subscribed(engine: &mut Engine, method: &str, sub: &str) {
    let req = engine.subscribe(s(method), s("{}"), s("unsubscribeReceive")).unwrap();
    assert_eq!(
        engine.receive(response(req.id, sub)),
        Routed::Subscribed { id: req.id, subscription: s(sub) }
    );
}

#[test]
fn call_echo_receives_its_result() {
    let mut engine = Engine::new();
    let req = engine.call(s("echo"), s("{\"x\":1}")).unwrap();
    assert_eq!(
        req,
        Request { id: 0, method: s("echo"), params: Params::Named(s("{\"x\":1}")) }
    );
    assert_eq!(
        engine.receive(response(req.id, "{\"x\":1}")),
        Routed::Completed { id: 0, outcome: Ok(s("{\"x\":1}")) }
    );
}

#[test]
fn request_ids_are_fresh_and_increasing() {
    let mut engine = Engine::new();
    let a = engine.call(s("a"), s("{}")).unwrap();
    let b = engine.call(s("b"), s("{}")).unwrap();
    let c = engine.subscribe(s("c"), s("{}"), s("d")).unwrap();
    assert_eq!((a.id, b.id, c.id), (0, 1, 2));
}

#[test]
fn responses_in_any_order_reach_their_own_callers() {
    let mut engine = Engine::new();
    let ids: Vec<u64> = (0..3).map(|i| engine.call(format!("m{i}"), s("{}")).unwrap().id).collect();
    for &id in ids.iter().rev() {
        let result = format!("{}", id * 10);
        assert_eq!(
            engine.receive(response(id, &result)),
            Routed::Completed { id, outcome: Ok(result.clone()) }
        );
    }
    for &id in &ids {
        assert_eq!(engine.receive(response(id, "0")), Routed::Dropped);
    }
}

#[test]
fn response_for_unknown_id_is_dropped() {
    let mut engine = Engine::new();
    let req = engine.call(s("version"), s("{}")).unwrap();
    assert_eq!(engine.receive(response(req.id + 7, "1")), Routed::Dropped);
    assert_eq!(
        engine.receive(response(req.id, "1")),
        Routed::Completed { id: req.id, outcome: Ok(s("1")) }
    );
}

#[test]
fn application_error_reaches_only_its_caller() {
    let mut engine = Engine::new();
    let a = engine.call(s("send"), s("{}")).unwrap();
    let b = engine.call(s("listGroups"), s("{}")).unwrap();
    let err = ErrorObject { code: -32601, message: s("Method not found") };
    assert_eq!(
        engine.receive(Incoming::Response { id: a.id, outcome: Err(err.clone()) }),
        Routed::Completed { id: a.id, outcome: Err(err) }
    );
    assert_eq!(
        engine.receive(response(b.id, "[]")),
        Routed::Completed { id: b.id, outcome: Ok(s("[]")) }
    );
}

#[test]
fn unroutable_message_is_dropped() {
    let mut engine = Engine::new();
    assert_eq!(engine.receive(Incoming::Unroutable), Routed::Dropped);
}

#[test]
fn subscription_delivers_in_order_then_ends_after_unsubscribe() {
    let mut engine = Engine::new();
    subscribed(&mut engine, "ticks", "sub-1");
    for _ in 0..3 {
        assert_eq!(
            engine.receive(notification("sub-1", "5")),
            Routed::Delivered { subscription: s("sub-1") }
        );
    }
    let sub = s("sub-1");
    for _ in 0..3 {
        assert_eq!(engine.next(&sub), Next::Item(s("5")));
    }
    assert_eq!(engine.next(&sub), Next::Pending);
    let req = engine.unsubscribe(&sub).unwrap();
    assert_eq!(req.method, "unsubscribeReceive");
    assert_eq!(req.params, Params::Subscription(s("sub-1")));
    assert_eq!(engine.next(&sub), Next::Ended);
}

#[test]
fn payloads_come_out_in_arrival_order() {
    let mut engine = Engine::new();
    subscribed(&mut engine, "subscribeReceive", "7");
    for p in ["1", "2", "3"] {
        engine.receive(notification("7", p));
    }
    let sub = s("7");
    assert_eq!(engine.next(&sub), Next::Item(s("1")));
    assert_eq!(engine.next(&sub), Next::Item(s("2")));
    assert_eq!(engine.next(&sub), Next::Item(s("3")));
    assert_eq!(engine.next(&sub), Next::Pending);
}

#[test]
fn notification_after_unsubscribe_is_dropped() {
    let mut engine = Engine::new();
    subscribed(&mut engine, "ticks", "sub-1");
    let sub = s("sub-1");
    let req = engine.unsubscribe(&sub).unwrap();
    assert_eq!(engine.receive(notification("sub-1", "5")), Routed::Dropped);
    assert_eq!(
        engine.receive(response(req.id, "true")),
        Routed::Completed { id: req.id, outcome: Ok(s("true")) }
    );
    assert_eq!(engine.next(&sub), Next::Ended);
}

#[test]
fn notification_before_registration_is_dropped() {
    let mut engine = Engine::new();
    let req = engine.subscribe(s("ticks"), s("{}"), s("unticks")).unwrap();
    assert_eq!(engine.receive(notification("sub-1", "5")), Routed::Dropped);
    engine.receive(response(req.id, "sub-1"));
    assert_eq!(engine.next(&s("sub-1")), Next::Pending);
}

#[test]
fn failed_subscribe_registers_nothing() {
    let mut engine = Engine::new();
    let req = engine.subscribe(s("ticks"), s("{}"), s("unticks")).unwrap();
    let err = ErrorObject { code: -1, message: s("no") };
    assert_eq!(
        engine.receive(Incoming::Response { id: req.id, outcome: Err(err.clone()) }),
        Routed::Completed { id: req.id, outcome: Err(err) }
    );
    assert_eq!(engine.unsubscribe(&s("no")), Err(RpcError::UnknownSubscription));
}

#[test]
fn unsubscribe_unknown_subscription_is_refused() {
    let mut engine = Engine::new();
    assert_eq!(engine.unsubscribe(&s("sub-9")), Err(RpcError::UnknownSubscription));
}

#[test]
fn release_drops_local_entry_without_request() {
    let mut engine = Engine::new();
    subscribed(&mut engine, "ticks", "sub-1");
    let sub = s("sub-1");
    engine.release(&sub);
    assert_eq!(engine.next(&sub), Next::Ended);
    assert_eq!(engine.receive(notification("sub-1", "5")), Routed::Dropped);
    let next = engine.call(s("version"), s("{}")).unwrap();
    assert_eq!(next.id, 1);
}

#[test]
fn close_fails_every_call_and_ends_every_subscription() {
    let mut engine = Engine::new();
    subscribed(&mut engine, "ticks", "sub-1");
    subscribed(&mut engine, "ticks", "sub-2");
    engine.receive(notification("sub-1", "5"));
    let a = engine.call(s("a"), s("{}")).unwrap();
    let b = engine.call(s("b"), s("{}")).unwrap();
    let closure = engine.close();
    let mut calls = closure.calls.clone();
    calls.sort();
    assert_eq!(calls, vec![a.id, b.id]);
    let mut subs = closure.subscriptions.clone();
    subs.sort();
    assert_eq!(subs, vec![s("sub-1"), s("sub-2")]);
    assert!(engine.is_closed());
    assert_eq!(engine.next(&s("sub-1")), Next::Ended);
    assert_eq!(engine.next(&s("sub-2")), Next::Ended);
    assert_eq!(engine.receive(response(a.id, "1")), Routed::Dropped);
    assert_eq!(engine.receive(notification("sub-2", "5")), Routed::Dropped);
    assert_eq!(engine.call(s("c"), s("{}")), Err(RpcError::Closed));
    assert_eq!(engine.subscribe(s("c"), s("{}"), s("d")), Err(RpcError::Closed));
    assert_eq!(engine.unsubscribe(&s("sub-1")), Err(RpcError::Closed));
    let again = engine.close();
    assert!(again.calls.is_empty() && again.subscriptions.is_empty());
}

#[test]
fn new_engine_is_open_and_empty() {
    let mut engine = Engine::new();
    assert!(!engine.is_closed());
    let closure = engine.close();
    assert!(closure.calls.is_empty());
    assert!(closure.subscriptions.is_empty());
}
