use kademlia::id::Id;
use kademlia::node::Action;
use kademlia::node::Dispatcher;
use kademlia::routing::NodeInfo;
use kademlia::rpc::Message;
use kademlia::rpc::RequestHandle;
use kademlia::rpc::RequestPayload;
use kademlia::rpc::ResponseHandle;
use kademlia::rpc::ResponsePayload;
use kademlia::storage::STALE_NANOS;

type Node = Dispatcher<&'static str>;

fn two_nodes() -> (Node, Node) {
    let a = Node::new("127.0.0.1:8080".to_string());
    let b = Node::new("127.0.0.1:8081".to_string());
    (a, b)
}

fn reply_of(action: Action<&'static str>) -> (ResponseHandle, NodeInfo) {
    match action {
        Action::Reply { message: Message::Response(r), destination } => (r, destination),
        _ => panic!("a request is answered with a response"),
    }
}

#[test]
fn a_new_node_is_empty() {
    let a = Node::new("127.0.0.1:8080".to_string());
    assert_eq!(a.node_info.address, "127.0.0.1:8080");
    assert_eq!(a.router.size(), 1);
    assert_eq!(a.router.node_info(), &a.node_info);
    assert_eq!(a.pending.len(), 0);
    assert_eq!(a.store.get(&"hello".to_string()), None);
    let me = NodeInfo { id: Id::new([3; 20]), address: "h:1".to_string() };
    let b = Node::with_node_info(me.clone());
    assert_eq!(b.node_info, me);
}

#[test]
fn ping_round_trip() {
    let (mut a, mut b) = two_nodes();
    let request = a.begin_request(RequestPayload::Ping, "ping");
    let request_id = request.id;
    assert_eq!(request.source, a.node_info);
    assert_eq!(a.pending.get(&request_id), Some(&"ping"));

    let (reply, destination) = reply_of(b.dispatch(Message::Request(request)));
    assert_eq!(destination, a.node_info);
    assert_eq!(reply.source, b.node_info);
    assert_eq!(reply.request_id, request_id);
    assert!(matches!(reply.response, ResponsePayload::Pong));
    assert_eq!(b.router.find(&a.node_info.id), Some(a.node_info.clone()));

    match a.dispatch(Message::Response(reply)) {
        Action::Deliver { handle, payload } => {
            assert_eq!(handle, "ping");
            assert!(matches!(payload, ResponsePayload::Pong));
        }
        _ => panic!("the response answers a pending request"),
    }
    assert_eq!(a.pending.len(), 0);
    assert_eq!(a.router.find(&b.node_info.id), Some(b.node_info.clone()));
}

#[test]
fn store_then_get() {
    let (mut a, mut b) = two_nodes();
    let request = a.begin_request(
        RequestPayload::Store { key: "hello".to_string(), value: "world".to_string() },
        "store",
    );
    let before = b.store.now();
    let (reply, _) = reply_of(b.dispatch(Message::Request(request)));
    let after = b.store.now();
    assert!(matches!(reply.response, ResponsePayload::Pong));
    let (value, t) = b.store.get(&"hello".to_string()).unwrap();
    assert_eq!(value, "world");
    assert!(before <= t && t <= after);
    assert!(matches!(a.dispatch(Message::Response(reply)), Action::Deliver { handle: "store", .. }));
    assert_eq!(a.pending.len(), 0);
    assert_eq!(a.store.get(&"hello".to_string()), None);
}

#[test]
fn a_request_without_a_response_is_abandoned() {
    let (mut a, _) = two_nodes();
    let request = a.begin_request(RequestPayload::Ping, "lost");
    assert_eq!(a.pending.len(), 1);
    assert_eq!(a.abandon(&request.id), Some("lost"));
    assert_eq!(a.pending.len(), 0);
    assert_eq!(a.pending.get(&request.id), None);
    assert_eq!(a.abandon(&request.id), None);
}

#[test]
fn a_late_or_unsolicited_response_is_dropped() {
    let (mut a, mut b) = two_nodes();
    let request = a.begin_request(RequestPayload::Ping, "late");
    let request_id = request.id;
    let (reply, _) = reply_of(b.dispatch(Message::Request(request)));
    assert_eq!(a.abandon(&request_id), Some("late"));
    assert!(matches!(a.dispatch(Message::Response(reply)), Action::Drop));
    // the sender of a dropped response was still heard from
    assert_eq!(a.router.find(&b.node_info.id), Some(b.node_info.clone()));
    let stray = ResponseHandle {
        id: Id::random(),
        source: b.node_info.clone(),
        request_id: Id::random(),
        response: ResponsePayload::Pong,
    };
    assert!(a.handle_response(stray).is_none());
}

#[test]
fn a_response_is_delivered_once() {
    let (mut a, b) = two_nodes();
    let request = a.begin_request_with(RequestPayload::Ping, Id::new([5; 20]), "once");
    assert_eq!(request.id, Id::new([5; 20]));
    let answer = |n: u8| ResponseHandle {
        id: Id::new([n; 20]),
        source: b.node_info.clone(),
        request_id: Id::new([5; 20]),
        response: ResponsePayload::Pong,
    };
    assert!(matches!(a.handle_response(answer(1)), Some(("once", ResponsePayload::Pong))));
    assert!(a.handle_response(answer(2)).is_none());
}

#[test]
fn find_node_answers_with_the_closest() {
    let mut b = Node::with_node_info(NodeInfo { id: Id::new([0; 20]), address: "b:1".to_string() });
    let peer = |d: usize, n: u8| {
        let mut xs = [0u8; 20];
        xs[d / 8] = 0x80 >> (d % 8);
        xs[19] |= n;
        NodeInfo { id: Id::new(xs), address: format!("p:{}", n) }
    };
    for n in 1..=25u8 {
        assert!(b.router.upsert(peer((n % 5) as usize + 1, n)));
    }
    let asker = peer(0, 1);
    let target = peer(3, 9).id;
    let request = RequestHandle {
        id: Id::new([8; 20]),
        source: asker.clone(),
        request: RequestPayload::FindNode { id: target },
    };
    let reply = b.handle_request_with(request, Id::new([9; 20]), 0);
    assert_eq!(reply.id, Id::new([9; 20]));
    assert_eq!(reply.request_id, Id::new([8; 20]));
    assert_eq!(reply.source, b.node_info);
    match reply.response {
        ResponsePayload::FindNode { closest } => {
            assert_eq!(closest.len(), 20);
            assert_eq!(closest, b.router.closest(&target, 20));
            for pair in closest.windows(2) {
                assert!(pair[0].id.distance(&target) <= pair[1].id.distance(&target));
            }
        }
        _ => panic!("a FindNode is answered with the closest peers"),
    }
    assert_eq!(b.router.find(&asker.id), Some(asker));
}

#[test]
fn a_message_from_the_own_identifier_is_not_put_in_the_table() {
    let mut a = Node::with_node_info(NodeInfo { id: Id::new([7; 20]), address: "a:1".to_string() });
    let echo = RequestHandle {
        id: Id::new([1; 20]),
        source: NodeInfo { id: Id::new([7; 20]), address: "elsewhere:1".to_string() },
        request: RequestPayload::Ping,
    };
    let reply = a.handle_request_with(echo, Id::new([2; 20]), 0);
    assert!(matches!(reply.response, ResponsePayload::Pong));
    assert_eq!(a.router.find(&Id::new([7; 20])), None);
    assert_eq!(a.router.bucket(0).unwrap().size(), 0);
}

#[test]
fn store_writes_at_the_given_time_and_sweep_forgets() {
    let mut b = Node::with_node_info(NodeInfo { id: Id::new([0; 20]), address: "b:1".to_string() });
    let from = NodeInfo { id: Id::new([1; 20]), address: "a:1".to_string() };
    let put = |k: &str, v: &str| RequestHandle {
        id: Id::random(),
        source: from.clone(),
        request: RequestPayload::Store { key: k.to_string(), value: v.to_string() },
    };
    let action = b.dispatch_with(Message::Request(put("old", "1")), Id::new([4; 20]), 100);
    let (reply, destination) = reply_of(action);
    assert_eq!(destination, from);
    assert_eq!(reply.id, Id::new([4; 20]));
    b.handle_request_with(put("new", "2"), Id::random(), 200);
    assert_eq!(b.store.get(&"old".to_string()), Some(("1".to_string(), 100)));
    assert_eq!(b.store.get(&"new".to_string()), Some(("2".to_string(), 200)));
    b.store.remove_stale_at(STALE_NANOS + 100);
    assert_eq!(b.store.get(&"old".to_string()), None);
    assert_eq!(b.store.get(&"new".to_string()), Some(("2".to_string(), 200)));
    let now = b.sweep();
    assert!(now < STALE_NANOS);
    assert_eq!(b.store.get(&"new".to_string()), Some(("2".to_string(), 200)));
}
