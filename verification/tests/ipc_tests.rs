use sashiko::ipc::{BrokerCache, IpcEvent, IpcMessage};

fn msg(patch: &str, event: IpcEvent) -> IpcMessage {
    IpcMessage { patch_id: patch.to_string(), event }
}

fn request(symbol: &str) -> IpcMessage {
    msg("asker", IpcEvent::Request { symbol: symbol.to_string() })
}

#[test]
fn broker_answers_after_broadcast() {
    let mut b = BrokerCache::new();
    assert!(b.handle(&request("foo")).is_none());
    assert!(b.handle(&msg("p1", IpcEvent::Broadcast { symbol: "foo".into() })).is_none());
    let reply = b.handle(&request("foo")).unwrap();
    assert_eq!(reply.patch_id, "p1");
    match reply.event {
        IpcEvent::Response { symbol, implementation_details } => {
            assert_eq!(symbol, "foo");
            assert_eq!(implementation_details.as_deref(), Some("Broker cache: Found in Patch p1"));
        }
        other => panic!("unexpected: {:?}", other),
    }
}

#[test]
fn broker_keeps_latest_announcement() {
    let mut b = BrokerCache::new();
    b.handle(&msg("p1", IpcEvent::Broadcast { symbol: "foo".into() }));
    b.handle(&msg(
        "p2",
        IpcEvent::Response { symbol: "foo".into(), implementation_details: None },
    ));
    b.handle(&msg("p3", IpcEvent::Broadcast { symbol: "bar".into() }));
    assert_eq!(b.lookup(&"foo".to_string()).as_deref(), Some("p2"));
    assert_eq!(b.lookup(&"bar".to_string()).as_deref(), Some("p3"));
    assert_eq!(b.handle(&request("foo")).unwrap().patch_id, "p2");
    assert!(b.lookup(&"baz".to_string()).is_none());
}

#[test]
fn law_announcement_holds_until_next_on_example() {
    let mut b = BrokerCache::new();
    b.handle(&msg("p0", IpcEvent::Broadcast { symbol: "foo".into() }));
    b.handle(&msg("p1", IpcEvent::Broadcast { symbol: "foo".into() }));
    for m in [
        request("foo"),
        msg("p9", IpcEvent::Broadcast { symbol: "bar".into() }),
        request("bar"),
        msg("p8", IpcEvent::Response { symbol: "baz".into(), implementation_details: None }),
    ] {
        b.handle(&m);
        assert_eq!(b.handle(&request("foo")).unwrap().patch_id, "p1");
    }
    b.handle(&msg("p2", IpcEvent::Response { symbol: "foo".into(), implementation_details: None }));
    assert_eq!(b.handle(&request("foo")).unwrap().patch_id, "p2");
}
