use secure_channel::channel::WorkerState;
use secure_channel::node::Node;
use secure_channel::routing::{Address, Route};

fn local(name: &[u8]) -> Address {
    Address::local(name.to_vec())
}

#[test]
fn test_channel() {
    let mut node = Node::new();
    let alice = node.create_identity();
    let bob = node.create_identity();

    node.create_secure_channel_listener(local(b"bob_listener"), &bob)
        .unwrap();

    let alice_channel = node
        .create_secure_channel(Route::new().append(local(b"bob_listener")), &alice)
        .unwrap();
    node.run_steps(64);

    let ctx = local(b"app");
    node.start_worker(ctx.duplicate(), WorkerState::App).unwrap();

    node.send(
        Route::new().append(alice_channel).append(ctx.duplicate()),
        ctx.duplicate(),
        b"Hello, Bob!".to_vec(),
    )
    .unwrap();
    node.run_steps(64);
    let msg = node.receive(&ctx).expect("message delivered");
    let return_route = msg.return_route;
    assert_eq!(b"Hello, Bob!".to_vec(), msg.payload);

    node.send(return_route, ctx.duplicate(), b"Hello, Alice!".to_vec())
        .unwrap();
    node.run_steps(64);
    assert_eq!(
        b"Hello, Alice!".to_vec(),
        node.receive(&ctx).expect("reply delivered").payload
    );
}

#[test]
fn test_tunneled_secure_channel_works() {
    let mut node = Node::new();
    let alice = node.create_identity();
    let bob = node.create_identity();

    node.create_secure_channel_listener(local(b"bob_listener"), &bob)
        .unwrap();

    let alice_channel = node
        .create_secure_channel(Route::new().append(local(b"bob_listener")), &alice)
        .unwrap();
    node.run_steps(64);

    node.create_secure_channel_listener(local(b"bob_another_listener"), &bob)
        .unwrap();

    let alice_another_channel = node
        .create_secure_channel(
            Route::new()
                .append(alice_channel)
                .append(local(b"bob_another_listener")),
            &alice,
        )
        .unwrap();
    node.run_steps(64);

    let ctx = local(b"app");
    node.start_worker(ctx.duplicate(), WorkerState::App).unwrap();

    node.send(
        Route::new()
            .append(alice_another_channel)
            .append(ctx.duplicate()),
        ctx.duplicate(),
        b"Hello, Bob!".to_vec(),
    )
    .unwrap();
    node.run_steps(64);
    let msg = node.receive(&ctx).expect("message delivered");
    let return_route = msg.return_route;
    assert_eq!(b"Hello, Bob!".to_vec(), msg.payload);

    node.send(return_route, ctx.duplicate(), b"Hello, Alice!".to_vec())
        .unwrap();
    node.run_steps(64);
    assert_eq!(
        b"Hello, Alice!".to_vec(),
        node.receive(&ctx).expect("reply delivered").payload
    );
}

#[test]
fn test_double_tunneled_secure_channel_works() {
    let mut node = Node::new();
    let alice = node.create_identity();
    let bob = node.create_identity();

    node.create_secure_channel_listener(local(b"bob_listener"), &bob)
        .unwrap();

    let alice_channel = node
        .create_secure_channel(Route::new().append(local(b"bob_listener")), &alice)
        .unwrap();
    node.run_steps(64);

    node.create_secure_channel_listener(local(b"bob_another_listener"), &bob)
        .unwrap();

    let alice_another_channel = node
        .create_secure_channel(
            Route::new()
                .append(alice_channel)
                .append(local(b"bob_another_listener")),
            &alice,
        )
        .unwrap();
    node.run_steps(64);

    node.create_secure_channel_listener(local(b"bob_yet_another_listener"), &bob)
        .unwrap();

    let alice_yet_another_channel = node
        .create_secure_channel(
            Route::new()
                .append(alice_another_channel)
                .append(local(b"bob_yet_another_listener")),
            &alice,
        )
        .unwrap();
    node.run_steps(128);

    let ctx = local(b"app");
    node.start_worker(ctx.duplicate(), WorkerState::App).unwrap();

    node.send(
        Route::new()
            .append(alice_yet_another_channel)
            .append(ctx.duplicate()),
        ctx.duplicate(),
        b"Hello, Bob!".to_vec(),
    )
    .unwrap();
    node.run_steps(128);
    let msg = node.receive(&ctx).expect("message delivered");
    let return_route = msg.return_route;
    assert_eq!(b"Hello, Bob!".to_vec(), msg.payload);

    node.send(return_route, ctx.duplicate(), b"Hello, Alice!".to_vec())
        .unwrap();
    node.run_steps(128);
    assert_eq!(
        b"Hello, Alice!".to_vec(),
        node.receive(&ctx).expect("reply delivered").payload
    );
}

#[test]
fn test_many_times_tunneled_secure_channel_works() {
    // exercise every nesting depth from 4 through 8
    for n in 4u8..=8 {
        let mut node = Node::new();
        let alice = node.create_identity();
        let bob = node.create_identity();

        let mut channels: Vec<Address> = vec![];
        for i in 0..n {
            node.create_secure_channel_listener(local(i.to_string().as_bytes()), &bob)
                .unwrap();
            let channel_route: Route;
            if i > 0 {
                channel_route = Route::new()
                    .append(channels.pop().unwrap())
                    .append(local(i.to_string().as_bytes()));
            } else {
                channel_route = Route::new().append(local(i.to_string().as_bytes()));
            }
            let alice_channel = node.create_secure_channel(channel_route, &alice).unwrap();
            node.run_steps(1024);
            channels.push(alice_channel);
        }

        let ctx = local(b"app");
        node.start_worker(ctx.duplicate(), WorkerState::App).unwrap();

        node.send(
            Route::new()
                .append(channels.pop().unwrap())
                .append(ctx.duplicate()),
            ctx.duplicate(),
            b"Hello, Bob!".to_vec(),
        )
        .unwrap();
        node.run_steps(1024);
        let msg = node.receive(&ctx).expect("message delivered");
        let return_route = msg.return_route;
        assert_eq!(b"Hello, Bob!".to_vec(), msg.payload);

        node.send(return_route, ctx.duplicate(), b"Hello, Alice!".to_vec())
            .unwrap();
        node.run_steps(1024);
        assert_eq!(
            b"Hello, Alice!".to_vec(),
            node.receive(&ctx).expect("reply delivered").payload
        );
    }
}
