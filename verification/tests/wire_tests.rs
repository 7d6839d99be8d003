use secure_channel::channel::{
    decode_kex, decode_kex_err, decryptor_handle, encode_kex, encode_kex_err, initiator_handle,
    DecryptorState, InitiatorState, Kex, KEX2_TAG,
};
use secure_channel::vault::Vault;
use secure_channel::codec::{decode_msg, encode_msg};
use secure_channel::errors::NodeError;
use secure_channel::routing::{Address, Route, TransportMessage};
use secure_channel::vault::{decrypt, encrypt};

fn addr(name: &[u8]) -> Address {
    Address::local(name.to_vec())
}

#[test]
fn envelope_codec_round_trips() {
    let msg = TransportMessage {
        onward_route: Route::new().append(addr(b"hop1")).append(Address::new(7, b"far".to_vec())),
        return_route: Route::new().append(addr(b"back")),
        payload: b"the payload".to_vec(),
    };
    let bytes = encode_msg(&msg);
    let back = decode_msg(&bytes).expect("decodes");
    assert_eq!(2, back.onward_route.hops.len());
    assert_eq!(0, back.onward_route.hops[0].tt);
    assert_eq!(b"hop1".to_vec(), back.onward_route.hops[0].data);
    assert_eq!(7, back.onward_route.hops[1].tt);
    assert_eq!(b"far".to_vec(), back.onward_route.hops[1].data);
    assert_eq!(1, back.return_route.hops.len());
    assert_eq!(b"back".to_vec(), back.return_route.hops[0].data);
    assert_eq!(b"the payload".to_vec(), back.payload);
}

#[test]
fn truncated_envelope_does_not_decode() {
    let msg = TransportMessage {
        onward_route: Route::new().append(addr(b"hop")),
        return_route: Route::new().append(addr(b"back")),
        payload: vec![],
    };
    let bytes = encode_msg(&msg);
    let truncated = bytes[..bytes.len() - 9].to_vec();
    assert!(decode_msg(&truncated).is_none());
}

#[test]
fn kex_err_codec_round_trips() {
    let errors = [
        NodeError::RoutingError,
        NodeError::RegistrationConflict,
        NodeError::KeyAgreementError,
        NodeError::InvalidProof,
        NodeError::AuthenticationFailure,
        NodeError::SequenceViolation,
        NodeError::WorkerFault,
    ];
    for e in errors {
        let bytes = encode_kex_err(e);
        assert_eq!(Some(e), decode_kex_err(&bytes));
    }
    assert!(decode_kex_err(&vec![3, 0]).is_none());
    assert!(decode_kex_err(&vec![9, 1]).is_none());
}

#[test]
fn initiator_abandons_the_attempt_on_a_refusal() {
    let mut vault = Vault::new();
    let (eph, _pub) = vault.generate_ephemeral_keypair();
    let st = InitiatorState {
        identity_handle: 0,
        identity_pub: 1,
        ephemeral_handle: eph,
        encryptor_addr: addr(b"reserved"),
    };
    let refusal = TransportMessage {
        onward_route: Route::new(),
        return_route: Route::new().append(addr(b"responder")),
        payload: encode_kex_err(NodeError::InvalidProof),
    };
    let o = initiator_handle(st, refusal, &mut vault);
    assert!(o.state.is_none());
    assert_eq!(Some(NodeError::InvalidProof), o.fault);
    assert_eq!(0, o.sends.len());
    assert_eq!(0, o.spawns.len());
}

#[test]
fn kex_codec_round_trips() {
    let kex = Kex { id_pub: 77, e_pub: 1234567890123, proof_sig: u64::MAX };
    let bytes = encode_kex(KEX2_TAG, &kex);
    let (tag, back) = decode_kex(&bytes).expect("decodes");
    assert_eq!(KEX2_TAG, tag);
    assert_eq!(kex, back);
    assert!(decode_kex(&b"short".to_vec()).is_none());
}

#[test]
fn encrypt_layout_is_tag_nonce_masked_body() {
    // key 0: the keystream is zero, the tag is key + nonce + byte sum
    let c = encrypt(0, 0, &vec![1, 2]);
    let mut expected = vec![3, 0, 0, 0, 0, 0, 0, 0];
    expected.extend_from_slice(&[0; 8]);
    expected.extend_from_slice(&[1, 2]);
    assert_eq!(expected, c);

    // key 1: each body byte is masked with the key's low byte, and the
    // tag is key + nonce + the masked bytes' sum
    let c = encrypt(1, 0, &vec![1, 2]);
    let mut expected = vec![4, 0, 0, 0, 0, 0, 0, 0];
    expected.extend_from_slice(&[0; 8]);
    expected.extend_from_slice(&[0, 3]);
    assert_eq!(expected, c);
}

#[test]
fn decrypt_recovers_exactly_the_plaintext() {
    let plaintext = b"attack at dawn".to_vec();
    let c = encrypt(0xdead_beef_cafe, 7, &plaintext);
    assert_eq!(Ok(plaintext), decrypt(0xdead_beef_cafe, 7, &c));
}

#[test]
fn every_single_bit_flip_fails_authentication() {
    let c = encrypt(5, 0, &vec![9, 9, 9]);
    for i in 0..c.len() {
        for k in 0..8 {
            let mut tampered = c.clone();
            tampered[i] ^= 1 << k;
            assert_eq!(
                Err(NodeError::AuthenticationFailure),
                decrypt(5, 0, &tampered),
                "flip at byte {} bit {}",
                i,
                k
            );
        }
    }
}

#[test]
fn empty_payload_round_trips() {
    let c = encrypt(9, 3, &vec![]);
    assert_eq!(16, c.len());
    assert_eq!(Ok(vec![]), decrypt(9, 3, &c));

    let msg = TransportMessage {
        onward_route: Route::new(),
        return_route: Route::new(),
        payload: vec![],
    };
    let bytes = encode_msg(&msg);
    let back = decode_msg(&bytes).expect("decodes");
    assert_eq!(0, back.onward_route.hops.len());
    assert_eq!(0, back.return_route.hops.len());
    assert!(back.payload.is_empty());
}

#[test]
fn short_ciphertext_fails_authentication() {
    assert_eq!(Err(NodeError::AuthenticationFailure), decrypt(1, 0, &vec![0u8; 15]));
    assert_eq!(Err(NodeError::AuthenticationFailure), decrypt(1, 0, &vec![]));
}

#[test]
fn wrong_key_fails_authentication() {
    let c = encrypt(42, 0, &b"secret".to_vec());
    assert_eq!(Err(NodeError::AuthenticationFailure), decrypt(43, 0, &c));
}

#[test]
fn replayed_nonce_is_a_sequence_violation() {
    let c = encrypt(42, 0, &b"once".to_vec());
    assert_eq!(Ok(b"once".to_vec()), decrypt(42, 0, &c));
    // the channel now expects nonce 1; the same ciphertext again is a
    // replay
    assert_eq!(Err(NodeError::SequenceViolation), decrypt(42, 1, &c));
}

#[test]
fn decryptor_rejects_replayed_ciphertext() {
    let key = 0x1234;
    let inner = TransportMessage {
        onward_route: Route::new().append(addr(b"dest")),
        return_route: Route::new().append(addr(b"src")),
        payload: b"data".to_vec(),
    };
    let c = encrypt(key, 0, &encode_msg(&inner));
    let envelope = |payload: Vec<u8>| TransportMessage {
        onward_route: Route::new(),
        return_route: Route::new().append(addr(b"peer")),
        payload,
    };

    let st = DecryptorState { key, expected_nonce: 0, partner: addr(b"enc") };
    let o = decryptor_handle(st, envelope(c.clone()));
    assert!(o.fault.is_none());
    assert_eq!(1, o.sends.len());
    assert_eq!(b"data".to_vec(), o.sends[0].payload);
    // the forwarded return route re-enters the channel via the partner
    assert_eq!(b"enc".to_vec(), o.sends[0].return_route.hops[0].data);

    // the delivered (nonce, ciphertext) pair replayed on the advanced
    // channel is rejected, not delivered twice
    let st = DecryptorState { key, expected_nonce: 1, partner: addr(b"enc") };
    let o = decryptor_handle(st, envelope(c));
    assert_eq!(Some(NodeError::SequenceViolation), o.fault);
    assert_eq!(0, o.sends.len());
    assert!(o.state.is_none());
    assert_eq!(1, o.stops.len());
    assert_eq!(b"enc".to_vec(), o.stops[0].data);
}
