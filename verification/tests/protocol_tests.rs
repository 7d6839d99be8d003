use secure_channel::channel::{encode_kex, encode_kex_err, Kex, WorkerState, KEX1_TAG};
use secure_channel::errors::NodeError;
use secure_channel::node::Node;
use secure_channel::routing::{Address, Route};
use secure_channel::vault::{Vault, VaultRequest, VaultResponse};

fn addr(name: &[u8]) -> Address {
    Address::local(name.to_vec())
}

fn count_encryptors(node: &Node) -> usize {
    node.workers
        .iter()
        .filter(|w| matches!(w.state, WorkerState::Encryptor(_)))
        .count()
}

fn count_decryptors(node: &Node) -> usize {
    node.workers
        .iter()
        .filter(|w| matches!(w.state, WorkerState::Decryptor(_)))
        .count()
}

fn decryptor_nonces(node: &Node) -> Vec<u64> {
    let mut nonces: Vec<u64> = vec![];
    for w in node.workers.iter() {
        if let WorkerState::Decryptor(d) = &w.state {
            nonces.push(d.expected_nonce);
        }
    }
    nonces
}

#[test]
fn handshake_establishes_both_sides_and_delivers_ping() {
    let mut node = Node::new();
    let alice = node.create_identity();
    let bob = node.create_identity();
    node.create_secure_channel_listener(addr(b"bob_listener"), &bob)
        .unwrap();
    let channel = node
        .create_secure_channel(Route::new().append(addr(b"bob_listener")), &alice)
        .unwrap();
    node.run_steps(64);

    // both sides established: an encrypt/decrypt pair each
    assert_eq!(2, count_encryptors(&node));
    assert_eq!(2, count_decryptors(&node));
    assert!(node.is_routable(&channel));
    assert!(node.faults.is_empty());

    let service = addr(b"service");
    node.start_worker(service.duplicate(), WorkerState::App)
        .unwrap();
    let client = addr(b"client");
    node.start_worker(client.duplicate(), WorkerState::App)
        .unwrap();

    node.send(
        Route::new().append(channel).append(service.duplicate()),
        client.duplicate(),
        b"ping".to_vec(),
    )
    .unwrap();
    node.run_steps(64);
    let msg = node.receive(&service).expect("ping delivered");
    assert_eq!(b"ping".to_vec(), msg.payload);
}

#[test]
fn channel_delivers_messages_in_send_order() {
    let mut node = Node::new();
    let alice = node.create_identity();
    let bob = node.create_identity();
    node.create_secure_channel_listener(addr(b"bob_listener"), &bob)
        .unwrap();
    let channel = node
        .create_secure_channel(Route::new().append(addr(b"bob_listener")), &alice)
        .unwrap();
    node.run_steps(64);

    let service = addr(b"service");
    node.start_worker(service.duplicate(), WorkerState::App)
        .unwrap();
    let client = addr(b"client");
    node.start_worker(client.duplicate(), WorkerState::App)
        .unwrap();

    for payload in [b"one".to_vec(), b"two".to_vec(), b"three".to_vec()] {
        node.send(
            Route::new()
                .append(channel.duplicate())
                .append(service.duplicate()),
            client.duplicate(),
            payload,
        )
        .unwrap();
    }
    node.run_steps(64);
    assert_eq!(b"one".to_vec(), node.receive(&service).unwrap().payload);
    assert_eq!(b"two".to_vec(), node.receive(&service).unwrap().payload);
    assert_eq!(b"three".to_vec(), node.receive(&service).unwrap().payload);
    assert!(node.faults.is_empty());
}

#[test]
fn handshake_with_invalid_proof_leaves_no_channel() {
    let mut node = Node::new();
    let alice = node.create_identity();
    let bob = node.create_identity();
    node.create_secure_channel_listener(addr(b"bob_listener"), &bob)
        .unwrap();

    let probe = addr(b"probe");
    node.start_worker(probe.duplicate(), WorkerState::App)
        .unwrap();

    // a handshake whose possession proof does not verify
    let (_handle, e_pub) = node.vault.generate_ephemeral_keypair();
    let good_sig = node.vault.sign(alice.handle, e_pub);
    let bad = Kex {
        id_pub: alice.public_key,
        e_pub,
        proof_sig: good_sig.wrapping_add(1),
    };
    let payload = encode_kex(KEX1_TAG, &bad);
    node.send(
        Route::new().append(addr(b"bob_listener")),
        probe.duplicate(),
        payload,
    )
    .unwrap();
    node.run_steps(64);

    // the responder closed; no channel worker exists and no channel
    // address became routable
    assert!(node.faults.contains(&NodeError::InvalidProof));
    assert_eq!(0, count_encryptors(&node));
    assert_eq!(0, count_decryptors(&node));
    // only the listener and the probe remain
    assert_eq!(2, node.workers.len());

    // the refusal was notified back along the initiation's return route
    let notice = node.receive(&probe).expect("failure notification");
    assert_eq!(encode_kex_err(NodeError::InvalidProof), notice.payload);
}

#[test]
fn create_secure_channel_reports_a_dead_end() {
    let mut node = Node::new();
    let alice = node.create_identity();
    // the far end is a plain application worker, not a listener: the
    // handshake never completes and the attempt is abandoned
    let dead_end = addr(b"dead_end");
    node.start_worker(dead_end.duplicate(), WorkerState::App)
        .unwrap();
    let r = node.create_secure_channel(Route::new().append(dead_end), &alice);
    assert!(matches!(r, Err(NodeError::WorkerFault)));
    assert_eq!(0, count_encryptors(&node));
    assert!(node.faults.contains(&NodeError::WorkerFault));
}

#[test]
fn create_secure_channel_surfaces_the_recorded_failure() {
    let mut node = Node::new();
    let alice = node.create_identity();
    let bob = node.create_identity();
    node.create_secure_channel_listener(addr(b"bob_listener"), &bob)
        .unwrap();
    node.create_secure_channel(Route::new().append(addr(b"bob_listener")), &alice)
        .unwrap();

    // aim a second handshake at an established channel's decryptor: its
    // authentication fails, and that exact failure comes back
    let decryptor_addr = node
        .workers
        .iter()
        .find(|w| matches!(w.state, WorkerState::Decryptor(_)))
        .map(|w| w.address.duplicate())
        .expect("established channel");
    let r = node.create_secure_channel(Route::new().append(decryptor_addr), &alice);
    assert!(matches!(r, Err(NodeError::AuthenticationFailure)));
}

#[test]
fn create_secure_channel_rejects_bad_inputs() {
    let mut node = Node::new();
    let alice = node.create_identity();
    let before = node.workers.len();
    let r = node.create_secure_channel(Route::new(), &alice);
    assert!(matches!(r, Err(NodeError::RoutingError)));
    let stale = secure_channel::vault::Identity {
        handle: 99,
        public_key: 0,
    };
    let r = node.create_secure_channel(Route::new().append(addr(b"x")), &stale);
    assert!(matches!(r, Err(NodeError::WorkerFault)));
    assert_eq!(before, node.workers.len());
}

#[test]
fn composed_channels_decrypt_twice_and_reply_retraces() {
    let mut node = Node::new();
    let a = node.create_identity();
    let b = node.create_identity();
    let d = node.create_identity();

    node.create_secure_channel_listener(addr(b"b_listener"), &b)
        .unwrap();
    let c1 = node
        .create_secure_channel(Route::new().append(addr(b"b_listener")), &a)
        .unwrap();
    node.run_steps(64);

    node.create_secure_channel_listener(addr(b"d_listener"), &d)
        .unwrap();
    let c2 = node
        .create_secure_channel(Route::new().append(addr(b"d_listener")), &b)
        .unwrap();
    node.run_steps(64);

    let service = addr(b"service");
    node.start_worker(service.duplicate(), WorkerState::App)
        .unwrap();
    let client = addr(b"client");
    node.start_worker(client.duplicate(), WorkerState::App)
        .unwrap();

    node.send(
        Route::new()
            .append(c1)
            .append(c2)
            .append(service.duplicate()),
        client.duplicate(),
        b"ping".to_vec(),
    )
    .unwrap();
    node.run_steps(64);
    let msg = node.receive(&service).expect("ping delivered");
    assert_eq!(b"ping".to_vec(), msg.payload);

    // decrypted exactly twice: one receiving-side decryptor per channel
    // advanced its nonce, the two reply-side ones did not
    let mut nonces = decryptor_nonces(&node);
    nonces.sort();
    assert_eq!(vec![0, 0, 1, 1], nonces);

    // the reply retraces both channels in mirrored order back to the
    // client
    node.send(msg.return_route, service.duplicate(), b"pong".to_vec())
        .unwrap();
    node.run_steps(64);
    let reply = node.receive(&client).expect("pong delivered");
    assert_eq!(b"pong".to_vec(), reply.payload);
    let mut nonces_after = decryptor_nonces(&node);
    nonces_after.sort();
    assert_eq!(vec![1, 1, 1, 1], nonces_after);
}

#[test]
fn tampered_ciphertext_tears_the_channel_down() {
    let mut node = Node::new();
    let alice = node.create_identity();
    let bob = node.create_identity();
    node.create_secure_channel_listener(addr(b"bob_listener"), &bob)
        .unwrap();
    node.create_secure_channel(Route::new().append(addr(b"bob_listener")), &alice)
        .unwrap();
    node.run_steps(64);
    assert_eq!(2, count_decryptors(&node));

    let decryptor_addr = node
        .workers
        .iter()
        .find(|w| matches!(w.state, WorkerState::Decryptor(_)))
        .map(|w| w.address.duplicate())
        .expect("established channel");

    let intruder = addr(b"intruder");
    node.start_worker(intruder.duplicate(), WorkerState::App)
        .unwrap();
    node.send(
        Route::new().append(decryptor_addr.duplicate()),
        intruder.duplicate(),
        vec![0u8; 24],
    )
    .unwrap();
    node.run_steps(64);

    // terminal for the channel: the pair is gone, the failure surfaced
    assert!(node.faults.contains(&NodeError::AuthenticationFailure));
    assert_eq!(1, count_decryptors(&node));
    assert_eq!(1, count_encryptors(&node));
    assert!(!node.is_routable(&decryptor_addr));
}

#[test]
fn invalid_peer_key_fails_key_agreement() {
    let mut node = Node::new();
    let alice = node.create_identity();
    let bob = node.create_identity();
    node.create_secure_channel_listener(addr(b"bob_listener"), &bob)
        .unwrap();

    let probe = addr(b"probe");
    node.start_worker(probe.duplicate(), WorkerState::App)
        .unwrap();

    // a proof over the invalid all-zero ephemeral key verifies, so the
    // failure is key agreement, not the proof
    let sig = node.vault.sign(alice.handle, 0);
    let kex = Kex {
        id_pub: alice.public_key,
        e_pub: 0,
        proof_sig: sig,
    };
    let payload = encode_kex(KEX1_TAG, &kex);
    node.send(
        Route::new().append(addr(b"bob_listener")),
        probe.duplicate(),
        payload,
    )
    .unwrap();
    node.run_steps(64);

    assert!(node.faults.contains(&NodeError::KeyAgreementError));
    assert_eq!(0, count_encryptors(&node));
}

#[test]
fn vault_boundary_answers_correlated_requests() {
    let mut vault = Vault::new();
    let (h1, p1) = match vault.serve(VaultRequest::GenerateEphemeralKeypair { id: 10 }) {
        VaultResponse::Keypair { id, handle, public_key } => {
            assert_eq!(10, id);
            (handle, public_key)
        }
        _ => panic!("keypair expected"),
    };
    let (_h2, p2) = match vault.serve(VaultRequest::GenerateEphemeralKeypair { id: 11 }) {
        VaultResponse::Keypair { id, handle, public_key } => {
            assert_eq!(11, id);
            (handle, public_key)
        }
        _ => panic!("keypair expected"),
    };

    let sig = match vault.serve(VaultRequest::Sign { id: 12, handle: h1, data: p2 }) {
        VaultResponse::Signature { id, sig } => {
            assert_eq!(12, id);
            sig
        }
        _ => panic!("signature expected"),
    };
    match vault.serve(VaultRequest::Verify { id: 13, peer_pub: p1, data: p2, sig }) {
        VaultResponse::Verdict { id, ok } => {
            assert_eq!(13, id);
            assert!(ok);
        }
        _ => panic!("verdict expected"),
    }
    match vault.serve(VaultRequest::Verify {
        id: 14,
        peer_pub: p1,
        data: p2,
        sig: sig.wrapping_add(1),
    }) {
        VaultResponse::Verdict { id, ok } => {
            assert_eq!(14, id);
            assert!(!ok);
        }
        _ => panic!("verdict expected"),
    }

    match vault.serve(VaultRequest::Agree { id: 15, handle: h1, peer_pub: 0 }) {
        VaultResponse::Agreed { id, result } => {
            assert_eq!(15, id);
            assert_eq!(Err(NodeError::KeyAgreementError), result);
        }
        _ => panic!("agreement expected"),
    }
    match vault.serve(VaultRequest::Agree { id: 16, handle: h1, peer_pub: p2 }) {
        VaultResponse::Agreed { id, result } => {
            assert_eq!(16, id);
            assert!(result.is_ok());
        }
        _ => panic!("agreement expected"),
    }
    match vault.serve(VaultRequest::Sign { id: 17, handle: 999, data: 0 }) {
        VaultResponse::Failed { id, error } => {
            assert_eq!(17, id);
            assert_eq!(NodeError::WorkerFault, error);
        }
        _ => panic!("stale handle must fail"),
    }
}

#[test]
fn garbage_to_listener_is_a_worker_fault() {
    let mut node = Node::new();
    let bob = node.create_identity();
    node.create_secure_channel_listener(addr(b"bob_listener"), &bob)
        .unwrap();
    let probe = addr(b"probe");
    node.start_worker(probe.duplicate(), WorkerState::App)
        .unwrap();
    node.send(
        Route::new().append(addr(b"bob_listener")),
        probe.duplicate(),
        b"not a handshake".to_vec(),
    )
    .unwrap();
    node.run_steps(64);
    assert!(node.faults.contains(&NodeError::WorkerFault));
}
