use secure_channel::channel::WorkerState;
use secure_channel::errors::NodeError;
use secure_channel::node::Node;
use secure_channel::routing::{Address, Route, RouterMessage, TransportMessage};

fn addr(name: &[u8]) -> Address {
    Address::local(name.to_vec())
}

#[test]
fn starting_two_workers_on_one_address_is_a_conflict() {
    let mut node = Node::new();
    node.start_worker(addr(b"w"), WorkerState::App).unwrap();
    assert_eq!(
        Err(NodeError::RegistrationConflict),
        node.start_worker(addr(b"w"), WorkerState::App)
    );
}

#[test]
fn unmatched_head_is_a_routing_error_not_a_silent_drop() {
    let mut node = Node::new();
    let sender = addr(b"sender");
    node.start_worker(sender.duplicate(), WorkerState::App)
        .unwrap();
    let r = node.send(
        Route::new().append(addr(b"nobody")),
        sender.duplicate(),
        b"x".to_vec(),
    );
    assert_eq!(Err(NodeError::RoutingError), r);
}

#[test]
fn empty_route_is_a_routing_error() {
    let mut node = Node::new();
    let r = node.send(Route::new(), addr(b"sender"), b"x".to_vec());
    assert_eq!(Err(NodeError::RoutingError), r);
}

#[test]
fn scope_match_pops_head_onto_return_route() {
    let mut node = Node::new();
    let client = addr(b"tcp_client");
    node.start_worker(client.duplicate(), WorkerState::App)
        .unwrap();
    // the client services every address whose name starts with "tcp#"
    node.register(addr(b"tcp#"), client.duplicate());

    let sender = addr(b"sender");
    node.start_worker(sender.duplicate(), WorkerState::App)
        .unwrap();
    node.send(
        Route::new()
            .append(addr(b"tcp#10.0.0.1"))
            .append(addr(b"echo")),
        sender.duplicate(),
        b"hop".to_vec(),
    )
    .unwrap();

    let msg = node.receive(&client).expect("handed to the client");
    // the head was popped and pushed onto the return route, atomically
    assert_eq!(1, msg.onward_route.hops.len());
    assert_eq!(b"echo".to_vec(), msg.onward_route.hops[0].data);
    assert_eq!(2, msg.return_route.hops.len());
    assert_eq!(b"tcp#10.0.0.1".to_vec(), msg.return_route.hops[0].data);
    assert_eq!(b"sender".to_vec(), msg.return_route.hops[1].data);
    assert_eq!(b"hop".to_vec(), msg.payload);
}

#[test]
fn direct_ownership_wins_over_scope_match() {
    let mut node = Node::new();
    let client = addr(b"tcp_client");
    node.start_worker(client.duplicate(), WorkerState::App)
        .unwrap();
    node.register(addr(b"tcp#"), client.duplicate());
    // a worker directly owns an address inside the registered scope
    let owned = addr(b"tcp#local");
    node.start_worker(owned.duplicate(), WorkerState::App)
        .unwrap();

    let sender = addr(b"sender");
    node.start_worker(sender.duplicate(), WorkerState::App)
        .unwrap();
    node.send(
        Route::new().append(owned.duplicate()),
        sender.duplicate(),
        b"direct".to_vec(),
    )
    .unwrap();

    assert!(node.receive(&client).is_none());
    let msg = node.receive(&owned).expect("delivered to the owner");
    assert_eq!(b"direct".to_vec(), msg.payload);
    assert_eq!(0, msg.onward_route.hops.len());
}

#[test]
fn registering_twice_routes_like_registering_once() {
    let mut once = Node::new();
    let mut twice = Node::new();
    for node in [&mut once, &mut twice] {
        let client = addr(b"client");
        node.start_worker(client.duplicate(), WorkerState::App)
            .unwrap();
        node.start_worker(addr(b"sender"), WorkerState::App)
            .unwrap();
        node.register(addr(b"scope#"), client.duplicate());
    }
    // the second registration of the same scope and client
    twice.register(addr(b"scope#"), addr(b"client"));

    assert_eq!(once.scope_table.len(), twice.scope_table.len());
    assert!(once.scope_table[0].0.same_as(&twice.scope_table[0].0));
    assert!(once.scope_table[0].1.same_as(&twice.scope_table[0].1));

    for node in [&mut once, &mut twice] {
        node.send(
            Route::new().append(addr(b"scope#far")),
            addr(b"sender"),
            b"m".to_vec(),
        )
        .unwrap();
        let msg = node.receive(&addr(b"client")).expect("routed to the client");
        assert_eq!(b"m".to_vec(), msg.payload);
    }
}

#[test]
fn last_registration_wins_per_scope() {
    let mut node = Node::new();
    let first = addr(b"first");
    let second = addr(b"second");
    node.start_worker(first.duplicate(), WorkerState::App)
        .unwrap();
    node.start_worker(second.duplicate(), WorkerState::App)
        .unwrap();
    node.start_worker(addr(b"sender"), WorkerState::App)
        .unwrap();
    node.register(addr(b"s#"), first.duplicate());
    node.register(addr(b"s#"), second.duplicate());

    node.send(
        Route::new().append(addr(b"s#x")),
        addr(b"sender"),
        b"m".to_vec(),
    )
    .unwrap();
    assert!(node.receive(&first).is_none());
    assert!(node.receive(&second).is_some());
}

#[test]
fn receive_matching_takes_the_wanted_message_and_keeps_the_rest() {
    let mut node = Node::new();
    let echo = addr(b"echo");
    node.start_worker(echo.duplicate(), WorkerState::App)
        .unwrap();
    let sender = addr(b"sender");
    node.start_worker(sender.duplicate(), WorkerState::App)
        .unwrap();
    for payload in [vec![3u8], vec![4u8], vec![5u8]] {
        node.send(
            Route::new().append(echo.duplicate()),
            sender.duplicate(),
            payload,
        )
        .unwrap();
    }

    // wait for the one reply with the wanted body, as a predicate
    // receive does
    let m = node
        .receive_matching(&echo, &vec![5u8])
        .expect("a matching message");
    assert_eq!(vec![5u8], m.payload);
    assert!(node.receive_matching(&echo, &vec![5u8]).is_none());

    // the earlier messages are still there, in order
    assert_eq!(vec![3u8], node.receive(&echo).unwrap().payload);
    assert_eq!(vec![4u8], node.receive(&echo).unwrap().payload);
    assert!(node.receive(&echo).is_none());
}

#[test]
fn scheduler_is_quiescent_without_processable_mail() {
    let mut node = Node::new();
    assert!(!node.step());
    assert_eq!(0, node.run_steps(10));

    // mail for an application worker is left for the application
    let app = addr(b"app");
    node.start_worker(app.duplicate(), WorkerState::App).unwrap();
    node.send(
        Route::new().append(app.duplicate()),
        addr(b"sender"),
        b"m".to_vec(),
    )
    .unwrap();
    assert!(!node.step());
    assert!(node.receive(&app).is_some());
}

#[test]
fn router_message_register_then_route() {
    let mut node = Node::new();
    let client = addr(b"client");
    node.start_worker(client.duplicate(), WorkerState::App)
        .unwrap();
    node.handle_router_message(RouterMessage::Register {
        accepts: addr(b"udp#"),
        self_addr: client.duplicate(),
    })
    .unwrap();

    let msg = TransportMessage::new(
        Route::new().append(addr(b"udp#far")),
        addr(b"sender"),
        b"enveloped".to_vec(),
    );
    node.handle_router_message(RouterMessage::Route(msg)).unwrap();
    let got = node.receive(&client).expect("routed to the client");
    assert_eq!(b"enveloped".to_vec(), got.payload);
}
