//! The secure-channel protocol: listener, initiator, responder, and the
//! established encrypt/decrypt worker pair.
//!
//! A listener is a long-lived worker at a well-known address; each
//! handshake initiation makes it spawn a fresh responder scoped to that
//! peer's return route. The initiator walks `Idle` to `KeyExchangeSent`
//! when the channel is created, then — on the peer's key and proof —
//! through `Authenticating` to `Established`, or to `Closed` on a failed
//! proof, abandoning the whole attempt. Established, each side runs an
//! encrypting worker (the channel's local address) and a decrypting
//! worker bound to the peer. Because the encrypting worker's address is
//! an ordinary address, channels nest inside other channels' routes,
//! and the layers come off in mirrored order.

use vstd::prelude::*;
use crate::codec::{dec_msg, decode_msg, enc_msg, encode_msg};
use crate::errors::NodeError;
use crate::routing::{Address, AddressView, Route, TransportMessage, TransportMessageView};
use crate::vault::{
    add64, agree_spec, decrypt, decrypt_spec, encrypt, encrypt_spec, lemma_encrypt_decrypt_round_trip,
    pk, sign_spec, verify_ok, Vault, wrap_add64,
};
use crate::wire::{push_u64_le, read_u64_le, u64_from_le, u64_le_bytes};

verus! {

/// Payload tag of the initiator's handshake message.
pub const KEX1_TAG: u8 = 1;

/// Payload tag of the responder's handshake message.
pub const KEX2_TAG: u8 = 2;

/// Payload tag of a handshake failure notification, sent back along the
/// initiation's return route so the failure reaches whoever initiated.
pub const KEXERR_TAG: u8 = 3;

/// The wire code of each error carried in a failure notification.
pub open spec fn error_code(e: NodeError) -> u8 {
    match e {
        NodeError::RoutingError => 1,
        NodeError::RegistrationConflict => 2,
        NodeError::KeyAgreementError => 3,
        NodeError::InvalidProof => 4,
        NodeError::AuthenticationFailure => 5,
        NodeError::SequenceViolation => 6,
        NodeError::WorkerFault => 7,
    }
}

/// The error behind a failure notification's wire code.
pub open spec fn error_of_code(c: u8) -> Option<NodeError> {
    if c == 1 {
        Some(NodeError::RoutingError)
    } else if c == 2 {
        Some(NodeError::RegistrationConflict)
    } else if c == 3 {
        Some(NodeError::KeyAgreementError)
    } else if c == 4 {
        Some(NodeError::InvalidProof)
    } else if c == 5 {
        Some(NodeError::AuthenticationFailure)
    } else if c == 6 {
        Some(NodeError::SequenceViolation)
    } else if c == 7 {
        Some(NodeError::WorkerFault)
    } else {
        None
    }
}

/// Encoded bytes of a failure notification.
pub open spec fn enc_kex_err(e: NodeError) -> Seq<u8> {
    seq![KEXERR_TAG, error_code(e)]
}

/// Decodes a failure notification, or nothing if the bytes are not one.
pub open spec fn dec_kex_err(b: Seq<u8>) -> Option<NodeError> {
    if b.len() == 2 && b[0] == KEXERR_TAG {
        error_of_code(b[1])
    } else {
        None
    }
}

/// Serializes a failure notification; it decodes back to the same error.
pub fn encode_kex_err(e: NodeError) -> (r: Vec<u8>)
    ensures
        r@ == enc_kex_err(e),
        dec_kex_err(r@) == Some(e),
{
    let code: u8 = match e {
        NodeError::RoutingError => 1,
        NodeError::RegistrationConflict => 2,
        NodeError::KeyAgreementError => 3,
        NodeError::InvalidProof => 4,
        NodeError::AuthenticationFailure => 5,
        NodeError::SequenceViolation => 6,
        NodeError::WorkerFault => 7,
    };
    let mut out: Vec<u8> = Vec::new();
    out.push(KEXERR_TAG);
    out.push(code);
    proof {
        assert(out@ =~= enc_kex_err(e));
    }
    out
}

/// Parses a failure notification, mirroring [`dec_kex_err`].
pub fn decode_kex_err(b: &Vec<u8>) -> (r: Option<NodeError>)
    ensures
        r == dec_kex_err(b@),
{
    if b.len() != 2 {
        return None;
    }
    if b[0] != KEXERR_TAG {
        return None;
    }
    let c = b[1];
    if c == 1 {
        Some(NodeError::RoutingError)
    } else if c == 2 {
        Some(NodeError::RegistrationConflict)
    } else if c == 3 {
        Some(NodeError::KeyAgreementError)
    } else if c == 4 {
        Some(NodeError::InvalidProof)
    } else if c == 5 {
        Some(NodeError::AuthenticationFailure)
    } else if c == 6 {
        Some(NodeError::SequenceViolation)
    } else if c == 7 {
        Some(NodeError::WorkerFault)
    } else {
        None
    }
}

/// The body of a handshake message: the sender's identity public key,
/// its ephemeral public key, and the proof of possession of the
/// identity secret over the ephemeral key.
#[derive(Clone, Copy, PartialEq, Eq, Structural, Debug)]
pub struct Kex {
    /// Identity public key of the sender.
    pub id_pub: u64,
    /// Fresh ephemeral public key for this channel.
    pub e_pub: u64,
    /// Possession proof: the ephemeral key signed by the identity secret.
    pub proof_sig: u64,
}

/// Encoded bytes of a handshake message with tag `t`.
pub open spec fn enc_kex(t: u8, k: Kex) -> Seq<u8> {
    seq![t] + u64_le_bytes(k.id_pub) + u64_le_bytes(k.e_pub) + u64_le_bytes(k.proof_sig)
}

/// Decodes a handshake message, or nothing if the bytes are not one.
pub open spec fn dec_kex(b: Seq<u8>) -> Option<(u8, Kex)> {
    if b.len() == 25 && (b[0] == KEX1_TAG || b[0] == KEX2_TAG) {
        Some(
            (
                b[0],
                Kex {
                    id_pub: u64_from_le(b.subrange(1, 9)),
                    e_pub: u64_from_le(b.subrange(9, 17)),
                    proof_sig: u64_from_le(b.subrange(17, 25)),
                },
            ),
        )
    } else {
        None
    }
}

/// Decoding an encoded handshake message yields it back.
pub proof fn lemma_kex_round_trip(t: u8, k: Kex)
    requires
        t == KEX1_TAG || t == KEX2_TAG,
    ensures
        dec_kex(enc_kex(t, k)) == Some((t, k)),
{
    let b = enc_kex(t, k);
    assert(b.subrange(1, 9) =~= u64_le_bytes(k.id_pub));
    assert(b.subrange(9, 17) =~= u64_le_bytes(k.e_pub));
    assert(b.subrange(17, 25) =~= u64_le_bytes(k.proof_sig));
    crate::wire::lemma_u64_le_round_trip(k.id_pub);
    crate::wire::lemma_u64_le_round_trip(k.e_pub);
    crate::wire::lemma_u64_le_round_trip(k.proof_sig);
}

/// Serializes a handshake message; under a handshake tag the encoding
/// decodes back to the same message.
pub fn encode_kex(t: u8, k: &Kex) -> (r: Vec<u8>)
    ensures
        r@ == enc_kex(t, *k),
        t == KEX1_TAG || t == KEX2_TAG ==> dec_kex(r@) == Some((t, *k)),
{
    let mut out: Vec<u8> = Vec::new();
    out.push(t);
    push_u64_le(&mut out, k.id_pub);
    push_u64_le(&mut out, k.e_pub);
    push_u64_le(&mut out, k.proof_sig);
    proof {
        assert(out@ =~= enc_kex(t, *k));
        if t == KEX1_TAG || t == KEX2_TAG {
            lemma_kex_round_trip(t, *k);
        }
    }
    out
}

/// Parses a handshake message, mirroring [`dec_kex`].
pub fn decode_kex(b: &Vec<u8>) -> (r: Option<(u8, Kex)>)
    ensures
        r == dec_kex(b@),
{
    if b.len() != 25 {
        return None;
    }
    let t = b[0];
    if t != KEX1_TAG && t != KEX2_TAG {
        return None;
    }
    let k = Kex {
        id_pub: read_u64_le(b, 1),
        e_pub: read_u64_le(b, 9),
        proof_sig: read_u64_le(b, 17),
    };
    Some((t, k))
}

/// A long-lived worker accepting handshake initiations at a well-known
/// address on behalf of one identity.
pub struct ListenerState {
    /// Vault handle of the identity secret answering here.
    pub identity_handle: usize,
    /// The identity's public key.
    pub identity_pub: u64,
}

/// A responder freshly spawned by a listener for one peer, before that
/// peer's initiation has been processed.
pub struct ResponderState {
    /// Vault handle of the identity secret answering here.
    pub identity_handle: usize,
    /// The identity's public key.
    pub identity_pub: u64,
}

/// An initiator that has sent its key exchange and awaits the peer's
/// key and proof.
pub struct InitiatorState {
    /// Vault handle of the identity secret this side authenticates as.
    pub identity_handle: usize,
    /// The identity's public key.
    pub identity_pub: u64,
    /// Vault handle of the ephemeral secret sent to the peer.
    pub ephemeral_handle: usize,
    /// Address reserved for this channel's encrypting worker; routable
    /// only once the channel is established.
    pub encryptor_addr: Address,
}

/// The outbound half of an established channel: wraps every envelope
/// it receives under the session key at a monotonically increasing
/// nonce and forwards the ciphertext toward the peer's decryptor.
pub struct EncryptorState {
    /// Session key for this direction.
    pub key: u64,
    /// Nonce of the next outbound ciphertext.
    pub next_nonce: u64,
    /// Route to the peer's decrypting worker; may itself pass through
    /// other channels' encryptors, nesting the encryption.
    pub route_to_peer: Route,
}

/// The inbound half of an established channel: unwraps ciphertexts in
/// nonce order and forwards the recovered envelope, routing replies
/// back through its partner encryptor.
pub struct DecryptorState {
    /// Session key for this direction.
    pub key: u64,
    /// Nonce the next inbound ciphertext must carry.
    pub expected_nonce: u64,
    /// Address of this side's encrypting worker, prepended to every
    /// recovered return route so replies re-enter the channel.
    pub partner: Address,
}

/// The closed sum of worker roles the runtime dispatches on.
pub enum WorkerState {
    /// An application endpoint; the runtime leaves its mail for the
    /// application to receive.
    App,
    /// A secure-channel listener.
    Listener(ListenerState),
    /// A per-peer responder, awaiting the forwarded initiation.
    Responder(ResponderState),
    /// An initiator awaiting the peer's key exchange.
    Initiator(InitiatorState),
    /// The encrypting half of an established channel.
    Encryptor(EncryptorState),
    /// The decrypting half of an established channel.
    Decryptor(DecryptorState),
}

/// What one `handle_message` invocation asks of the runtime: the
/// worker's next state (none stops the worker, running its shutdown),
/// envelopes to route, workers to spawn, workers to tear down, and a
/// fault to surface to the node's supervision point.
pub struct HandlerOutcome {
    /// The worker's next state, or none to stop it.
    pub state: Option<WorkerState>,
    /// Envelopes to hand to the router.
    pub sends: Vec<TransportMessage>,
    /// Fresh workers to start.
    pub spawns: Vec<(Address, WorkerState)>,
    /// Addresses of workers to tear down with this one.
    pub stops: Vec<Address>,
    /// Failure to surface; never silently swallowed.
    pub fault: Option<NodeError>,
}

/// Mathematical value of an [`InitiatorState`].
#[verifier::ext_equal]
pub struct InitiatorView {
    pub identity_handle: usize,
    pub identity_pub: u64,
    pub ephemeral_handle: usize,
    pub encryptor_addr: AddressView,
}

/// Mathematical value of an [`EncryptorState`].
#[verifier::ext_equal]
pub struct EncryptorView {
    pub key: u64,
    pub next_nonce: u64,
    pub route_to_peer: Seq<AddressView>,
}

/// Mathematical value of a [`DecryptorState`].
#[verifier::ext_equal]
pub struct DecryptorView {
    pub key: u64,
    pub expected_nonce: u64,
    pub partner: AddressView,
}

/// Mathematical value of a [`WorkerState`].
#[verifier::ext_equal]
pub enum WorkerStateView {
    App,
    Listener(ListenerState),
    Responder(ResponderState),
    Initiator(InitiatorView),
    Encryptor(EncryptorView),
    Decryptor(DecryptorView),
}

impl View for WorkerState {
    type V = WorkerStateView;

    open spec fn view(&self) -> WorkerStateView {
        match self {
            WorkerState::App => WorkerStateView::App,
            WorkerState::Listener(st) => WorkerStateView::Listener(*st),
            WorkerState::Responder(st) => WorkerStateView::Responder(*st),
            WorkerState::Initiator(st) => WorkerStateView::Initiator(
                InitiatorView {
                    identity_handle: st.identity_handle,
                    identity_pub: st.identity_pub,
                    ephemeral_handle: st.ephemeral_handle,
                    encryptor_addr: st.encryptor_addr@,
                },
            ),
            WorkerState::Encryptor(st) => WorkerStateView::Encryptor(
                EncryptorView {
                    key: st.key,
                    next_nonce: st.next_nonce,
                    route_to_peer: st.route_to_peer@,
                },
            ),
            WorkerState::Decryptor(st) => WorkerStateView::Decryptor(
                DecryptorView {
                    key: st.key,
                    expected_nonce: st.expected_nonce,
                    partner: st.partner@,
                },
            ),
        }
    }
}

/// Mathematical value of a [`HandlerOutcome`].
#[verifier::ext_equal]
pub struct HandlerOutcomeView {
    pub state: Option<WorkerStateView>,
    pub sends: Seq<TransportMessageView>,
    pub spawns: Seq<(AddressView, WorkerStateView)>,
    pub stops: Seq<AddressView>,
    pub fault: Option<NodeError>,
}

impl View for HandlerOutcome {
    type V = HandlerOutcomeView;

    open spec fn view(&self) -> HandlerOutcomeView {
        HandlerOutcomeView {
            state: match self.state {
                Some(st) => Some(st@),
                None => None,
            },
            sends: self.sends@.map_values(|m: TransportMessage| m@),
            spawns: self.spawns@.map_values(|p: (Address, WorkerState)| (p.0@, p.1@)),
            stops: self.stops@.map_values(|a: Address| a@),
            fault: self.fault,
        }
    }
}

/// The outcome of a worker stopping with `e` and doing nothing else.
pub open spec fn outcome_stopped(e: NodeError) -> HandlerOutcomeView {
    HandlerOutcomeView {
        state: None,
        sends: Seq::<TransportMessageView>::empty(),
        spawns: Seq::<(AddressView, WorkerStateView)>::empty(),
        stops: Seq::<AddressView>::empty(),
        fault: Some(e),
    }
}

/// The outcome of a responder refusing a handshake with `e`: stop, and
/// notify the refusal back along the initiation's return route.
pub open spec fn refused_spec(
    e: NodeError,
    self_addr: AddressView,
    return_route: Seq<AddressView>,
) -> HandlerOutcomeView {
    HandlerOutcomeView {
        state: None,
        sends: seq![
            TransportMessageView {
                onward_route: return_route,
                return_route: seq![self_addr],
                payload: enc_kex_err(e),
            },
        ],
        spawns: Seq::<(AddressView, WorkerStateView)>::empty(),
        stops: Seq::<AddressView>::empty(),
        fault: Some(e),
    }
}

/// What a listener does with one envelope, as a function.
pub open spec fn listener_spec(
    st: ListenerState,
    m: TransportMessageView,
    responder_addr: AddressView,
) -> HandlerOutcomeView {
    let d = dec_kex(m.payload);
    if d is Some && d.unwrap().0 == KEX1_TAG {
        HandlerOutcomeView {
            state: Some(WorkerStateView::Listener(st)),
            sends: seq![
                TransportMessageView {
                    onward_route: seq![responder_addr],
                    return_route: m.return_route,
                    payload: m.payload,
                },
            ],
            spawns: seq![
                (
                    responder_addr,
                    WorkerStateView::Responder(
                        ResponderState {
                            identity_handle: st.identity_handle,
                            identity_pub: st.identity_pub,
                        },
                    ),
                ),
            ],
            stops: Seq::<AddressView>::empty(),
            fault: None,
        }
    } else {
        outcome_stopped(NodeError::WorkerFault)
    }
}

/// What a responder does with the forwarded initiation, as a function
/// of the vault's secrets and freshness counter at the call.
pub open spec fn responder_spec(
    st: ResponderState,
    self_addr: AddressView,
    m: TransportMessageView,
    secrets: Seq<u64>,
    vault_counter: u64,
    encryptor_addr: AddressView,
) -> HandlerOutcomeView {
    let d = dec_kex(m.payload);
    let secret = Vault::derived_secret(vault_counter);
    if !kex_verified(m.payload, KEX1_TAG) {
        refused_spec(
            if d is Some && d.unwrap().0 == KEX1_TAG {
                NodeError::InvalidProof
            } else {
                NodeError::WorkerFault
            },
            self_addr,
            m.return_route,
        )
    } else {
        let kex = d.unwrap().1;
        if kex.e_pub == 0 {
            refused_spec(NodeError::KeyAgreementError, self_addr, m.return_route)
        } else {
            let shared = agree_spec(secret, kex.e_pub);
            HandlerOutcomeView {
                state: Some(
                    WorkerStateView::Decryptor(
                        DecryptorView {
                            key: add64(shared, 1),
                            expected_nonce: 0,
                            partner: encryptor_addr,
                        },
                    ),
                ),
                sends: seq![
                    TransportMessageView {
                        onward_route: m.return_route,
                        return_route: seq![self_addr],
                        payload: enc_kex(
                            KEX2_TAG,
                            Kex {
                                id_pub: st.identity_pub,
                                e_pub: pk(secret),
                                proof_sig: sign_spec(
                                    secrets[st.identity_handle as int],
                                    pk(secret),
                                ),
                            },
                        ),
                    },
                ],
                spawns: seq![
                    (
                        encryptor_addr,
                        WorkerStateView::Encryptor(
                            EncryptorView {
                                key: add64(shared, 2),
                                next_nonce: 0,
                                route_to_peer: m.return_route,
                            },
                        ),
                    ),
                ],
                stops: Seq::<AddressView>::empty(),
                fault: None,
            }
        }
    }
}

/// What an initiator does with the peer's answer, as a function of the
/// vault's secrets at the call.
pub open spec fn initiator_spec(
    st: InitiatorView,
    m: TransportMessageView,
    secrets: Seq<u64>,
) -> HandlerOutcomeView {
    let d = dec_kex(m.payload);
    if dec_kex_err(m.payload) is Some {
        outcome_stopped(dec_kex_err(m.payload).unwrap())
    } else if !kex_verified(m.payload, KEX2_TAG) {
        outcome_stopped(
            if d is Some && d.unwrap().0 == KEX2_TAG {
                NodeError::InvalidProof
            } else {
                NodeError::WorkerFault
            },
        )
    } else {
        let kex = d.unwrap().1;
        if kex.e_pub == 0 {
            outcome_stopped(NodeError::KeyAgreementError)
        } else {
            let shared = agree_spec(secrets[st.ephemeral_handle as int], kex.e_pub);
            HandlerOutcomeView {
                state: Some(
                    WorkerStateView::Decryptor(
                        DecryptorView {
                            key: add64(shared, 2),
                            expected_nonce: 0,
                            partner: st.encryptor_addr,
                        },
                    ),
                ),
                sends: Seq::<TransportMessageView>::empty(),
                spawns: seq![
                    (
                        st.encryptor_addr,
                        WorkerStateView::Encryptor(
                            EncryptorView {
                                key: add64(shared, 1),
                                next_nonce: 0,
                                route_to_peer: m.return_route,
                            },
                        ),
                    ),
                ],
                stops: Seq::<AddressView>::empty(),
                fault: None,
            }
        }
    }
}

/// What an encrypting worker does with one outbound envelope, as a
/// function.
pub open spec fn encryptor_spec(
    st: EncryptorView,
    self_addr: AddressView,
    m: TransportMessageView,
) -> HandlerOutcomeView {
    if st.next_nonce == u64::MAX {
        outcome_stopped(NodeError::WorkerFault)
    } else {
        HandlerOutcomeView {
            state: Some(
                WorkerStateView::Encryptor(
                    EncryptorView {
                        key: st.key,
                        next_nonce: (st.next_nonce + 1) as u64,
                        route_to_peer: st.route_to_peer,
                    },
                ),
            ),
            sends: seq![
                TransportMessageView {
                    onward_route: st.route_to_peer,
                    return_route: seq![self_addr],
                    payload: encrypt_spec(st.key, st.next_nonce, enc_msg(m)),
                },
            ],
            spawns: Seq::<(AddressView, WorkerStateView)>::empty(),
            stops: Seq::<AddressView>::empty(),
            fault: None,
        }
    }
}

/// The outcome of a channel tearing itself down with `e`, stopping the
/// partner encryptor with it.
pub open spec fn torn_down(e: NodeError, partner: AddressView) -> HandlerOutcomeView {
    HandlerOutcomeView {
        state: None,
        sends: Seq::<TransportMessageView>::empty(),
        spawns: Seq::<(AddressView, WorkerStateView)>::empty(),
        stops: seq![partner],
        fault: Some(e),
    }
}

/// What a decrypting worker does with one inbound ciphertext, as a
/// function.
pub open spec fn decryptor_spec(st: DecryptorView, m: TransportMessageView) -> HandlerOutcomeView {
    match decrypt_spec(st.key, st.expected_nonce, m.payload) {
        Err(e) => torn_down(e, st.partner),
        Ok(pt) => match dec_msg(pt) {
            None => torn_down(NodeError::WorkerFault, st.partner),
            Some(inner) => if st.expected_nonce < u64::MAX {
                HandlerOutcomeView {
                    state: Some(
                        WorkerStateView::Decryptor(
                            DecryptorView {
                                key: st.key,
                                expected_nonce: (st.expected_nonce + 1) as u64,
                                partner: st.partner,
                            },
                        ),
                    ),
                    sends: seq![
                        TransportMessageView {
                            onward_route: inner.onward_route,
                            return_route: seq![st.partner] + inner.return_route,
                            payload: inner.payload,
                        },
                    ],
                    spawns: Seq::<(AddressView, WorkerStateView)>::empty(),
                    stops: Seq::<AddressView>::empty(),
                    fault: None,
                }
            } else {
                torn_down(NodeError::WorkerFault, st.partner)
            },
        },
    }
}

/// Builds the outcome of a worker stopping with `e`.
fn stop_with(e: NodeError) -> (o: HandlerOutcome)
    ensures
        o@ == outcome_stopped(e),
        o.state is None,
        o.sends@.len() == 0,
        o.spawns@.len() == 0,
        o.stops@.len() == 0,
        o.fault == Some(e),
{
    let o = HandlerOutcome {
        state: None,
        sends: Vec::new(),
        spawns: Vec::new(),
        stops: Vec::new(),
        fault: Some(e),
    };
    proof {
        assert(o@ =~= outcome_stopped(e));
    }
    o
}

/// Builds the outcome of a channel tearing itself down with `e`.
fn torn_down_with(e: NodeError, partner: Address) -> (o: HandlerOutcome)
    ensures
        o@ == torn_down(e, partner@),
        o.state is None,
        o.sends@.len() == 0,
        o.spawns@.len() == 0,
        o.stops@.len() == 1 && o.stops@[0]@ == partner@,
        o.fault == Some(e),
{
    let ghost pv = partner@;
    let mut stops: Vec<Address> = Vec::new();
    stops.push(partner);
    let o = HandlerOutcome {
        state: None,
        sends: Vec::new(),
        spawns: Vec::new(),
        stops,
        fault: Some(e),
    };
    proof {
        assert(o@.stops =~= seq![pv]);
        assert(o@ =~= torn_down(e, pv));
    }
    o
}

/// A listener handling one inbound envelope: a handshake initiation
/// makes it spawn a fresh responder at `responder_addr` carrying its
/// identity, and forward the initiation there with the peer's return
/// route intact; anything else is a fault that stops the listener.
pub fn listener_handle(st: ListenerState, msg: TransportMessage, responder_addr: Address) -> (o:
    HandlerOutcome)
    ensures
        o@ == listener_spec(st, msg@, responder_addr@),
        ({
            let d = dec_kex(msg@.payload);
            if d matches Some(tk) && tk.0 == KEX1_TAG {
                &&& o.state matches Some(WorkerState::Listener(l)) && l.identity_handle
                    == st.identity_handle && l.identity_pub == st.identity_pub
                &&& o.sends@.len() == 1
                &&& o.sends@[0]@.onward_route == seq![responder_addr@]
                &&& o.sends@[0]@.return_route == msg@.return_route
                &&& o.sends@[0]@.payload == msg@.payload
                &&& o.spawns@.len() == 1
                &&& o.spawns@[0].0@ == responder_addr@
                &&& o.spawns@[0].1 matches WorkerState::Responder(r) && r.identity_handle
                    == st.identity_handle && r.identity_pub == st.identity_pub
                &&& o.stops@.len() == 0
                &&& o.fault is None
            } else {
                &&& o.state is None
                &&& o.sends@.len() == 0
                &&& o.spawns@.len() == 0
                &&& o.stops@.len() == 0
                &&& o.fault == Some(NodeError::WorkerFault)
            }
        }),
{
    let parsed = decode_kex(&msg.payload);
    match parsed {
        Some(tk) => {
            if tk.0 == KEX1_TAG {
                let ghost rv = responder_addr@;
                let responder = ResponderState {
                    identity_handle: st.identity_handle,
                    identity_pub: st.identity_pub,
                };
                let fwd = TransportMessage {
                    onward_route: Route::new().append(responder_addr.duplicate()),
                    return_route: msg.return_route,
                    payload: msg.payload,
                };
                let mut sends: Vec<TransportMessage> = Vec::new();
                let ghost fv = fwd@;
                sends.push(fwd);
                let mut spawns: Vec<(Address, WorkerState)> = Vec::new();
                spawns.push((responder_addr, WorkerState::Responder(responder)));
                let o = HandlerOutcome {
                    state: Some(WorkerState::Listener(st)),
                    sends,
                    spawns,
                    stops: Vec::new(),
                    fault: None,
                };
                proof {
                    assert(fv.onward_route =~= seq![rv]);
                    assert(o@.sends =~= seq![fv]);
                    assert(o@.spawns =~= listener_spec(st, msg@, rv).spawns);
                    assert(o@ =~= listener_spec(st, msg@, rv));
                }
                o
            } else {
                // dec_kex only yields the two handshake tags, and an
                // initiation is the only message a listener accepts.
                stop_with(NodeError::WorkerFault)
            }
        },
        None => stop_with(NodeError::WorkerFault),
    }
}

/// Whether a decoded handshake message with tag `want` passes
/// verification of its possession proof.
pub open spec fn kex_verified(b: Seq<u8>, want: u8) -> bool {
    match dec_kex(b) {
        Some(tk) => tk.0 == want && verify_ok(tk.1.id_pub, tk.1.e_pub, tk.1.proof_sig),
        None => false,
    }
}

/// The outcome of a responder refusing a handshake: the worker stops
/// with the exact failure, and a failure notification travels back
/// along the initiation's return route so the failure reaches whoever
/// initiated — never silently swallowed.
fn refused_handshake(e: NodeError, self_addr: &Address, return_route: &Route) -> (o:
    HandlerOutcome)
    ensures
        o@ == refused_spec(e, self_addr@, return_route@),
        o.state is None,
        o.sends@.len() == 1,
        o.sends@[0]@.onward_route == return_route@,
        o.sends@[0]@.return_route == seq![self_addr@],
        o.sends@[0]@.payload == enc_kex_err(e),
        o.spawns@.len() == 0,
        o.stops@.len() == 0,
        o.fault == Some(e),
{
    let ghost sv = self_addr@;
    let notify = TransportMessage {
        onward_route: return_route.duplicate(),
        return_route: Route::new().append(self_addr.duplicate()),
        payload: encode_kex_err(e),
    };
    proof {
        assert(notify@.return_route =~= seq![sv]);
    }
    let ghost nv = notify@;
    let mut sends: Vec<TransportMessage> = Vec::new();
    sends.push(notify);
    let o = HandlerOutcome {
        state: None,
        sends,
        spawns: Vec::new(),
        stops: Vec::new(),
        fault: Some(e),
    };
    proof {
        assert(o@.sends =~= seq![nv]);
        assert(o@ =~= refused_spec(e, sv, return_route@));
    }
    o
}

/// A responder handling the forwarded initiation, performing the
/// accepting half of the handshake in one step: `Idle` through
/// `KeyExchangeReceived` to `Established`, or stopping with the exact
/// failure. On a proof that fails verification it stops with
/// `InvalidProof`, spawns nothing — so no channel address becomes
/// routable — and notifies the refusal back along the initiation's
/// return route, surfacing the failure to whoever initiated. On
/// success it becomes the channel's decryptor, spawns the encryptor at
/// `encryptor_addr` with the peer's accumulated return route, and
/// answers with its own key and proof.
pub fn responder_handle(
    st: ResponderState,
    self_addr: &Address,
    msg: TransportMessage,
    vault: &mut Vault,
    encryptor_addr: Address,
) -> (o: HandlerOutcome)
    requires
        st.identity_handle < old(vault).secrets@.len(),
    ensures
        o@ == responder_spec(
            st,
            self_addr@,
            msg@,
            old(vault).secrets@,
            old(vault).counter,
            encryptor_addr@,
        ),
        kex_verified(msg@.payload, KEX1_TAG) ==> final(vault).secrets@ == old(
            vault,
        ).secrets@.push(Vault::derived_secret(old(vault).counter)) && final(vault).counter
            == add64(old(vault).counter, 1),
        !kex_verified(msg@.payload, KEX1_TAG) ==> *final(vault) == *old(vault),
        ({
            let d = dec_kex(msg@.payload);
            let secret = Vault::derived_secret(old(vault).counter);
            if !kex_verified(msg@.payload, KEX1_TAG) {
                let e = if d matches Some(tk) && tk.0 == KEX1_TAG {
                    NodeError::InvalidProof
                } else {
                    NodeError::WorkerFault
                };
                &&& o.state is None
                &&& o.sends@.len() == 1
                &&& o.sends@[0]@.onward_route == msg@.return_route
                &&& o.sends@[0]@.return_route == seq![self_addr@]
                &&& o.sends@[0]@.payload == enc_kex_err(e)
                &&& o.spawns@.len() == 0
                &&& o.stops@.len() == 0
                &&& o.fault == Some(e)
                &&& *final(vault) == *old(vault)
            } else {
                let kex = d.unwrap().1;
                let shared = agree_spec(secret, kex.e_pub);
                if kex.e_pub == 0 {
                    &&& o.state is None
                    &&& o.sends@.len() == 1
                    &&& o.sends@[0]@.onward_route == msg@.return_route
                    &&& o.sends@[0]@.return_route == seq![self_addr@]
                    &&& o.sends@[0]@.payload == enc_kex_err(NodeError::KeyAgreementError)
                    &&& o.spawns@.len() == 0
                    &&& o.stops@.len() == 0
                    &&& o.fault == Some(NodeError::KeyAgreementError)
                } else {
                    &&& o.state matches Some(WorkerState::Decryptor(dec)) && dec.key == add64(
                        shared,
                        1,
                    ) && dec.expected_nonce == 0 && dec.partner@ == encryptor_addr@
                    &&& o.spawns@.len() == 1
                    &&& o.spawns@[0].0@ == encryptor_addr@
                    &&& o.spawns@[0].1 matches WorkerState::Encryptor(e) && e.key == add64(
                        shared,
                        2,
                    ) && e.next_nonce == 0 && e.route_to_peer@ == msg@.return_route
                    &&& o.sends@.len() == 1
                    &&& o.sends@[0]@.onward_route == msg@.return_route
                    &&& o.sends@[0]@.return_route == seq![self_addr@]
                    &&& o.sends@[0]@.payload == enc_kex(
                        KEX2_TAG,
                        Kex {
                            id_pub: st.identity_pub,
                            e_pub: pk(secret),
                            proof_sig: sign_spec(
                                old(vault).secrets@[st.identity_handle as int],
                                pk(secret),
                            ),
                        },
                    )
                    &&& o.stops@.len() == 0
                    &&& o.fault is None
                }
            }
        }),
        final(vault).secrets@.len() >= old(vault).secrets@.len(),
{
    let parsed = decode_kex(&msg.payload);
    let kex = match parsed {
        Some(tk) => {
            if tk.0 != KEX1_TAG {
                return refused_handshake(NodeError::WorkerFault, self_addr, &msg.return_route);
            }
            tk.1
        },
        None => {
            return refused_handshake(NodeError::WorkerFault, self_addr, &msg.return_route);
        },
    };
    if !Vault::verify(kex.id_pub, kex.e_pub, kex.proof_sig) {
        return refused_handshake(NodeError::InvalidProof, self_addr, &msg.return_route);
    }
    let (eph_handle, e_pub) = vault.generate_ephemeral_keypair();
    let shared = match vault.agree(eph_handle, kex.e_pub) {
        Ok(s) => s,
        Err(e) => {
            return refused_handshake(e, self_addr, &msg.return_route);
        },
    };
    let key_in = wrap_add64(shared, 1);
    let key_out = wrap_add64(shared, 2);
    let proof_sig = vault.sign(st.identity_handle, e_pub);
    let reply = Kex { id_pub: st.identity_pub, e_pub, proof_sig };
    let payload = encode_kex(KEX2_TAG, &reply);
    let ghost sv = self_addr@;
    let reply_msg = TransportMessage {
        onward_route: msg.return_route.duplicate(),
        return_route: Route::new().append(self_addr.duplicate()),
        payload,
    };
    let mut sends: Vec<TransportMessage> = Vec::new();
    proof {
        assert(reply_msg@.return_route =~= seq![sv]);
    }
    sends.push(reply_msg);
    let encryptor = EncryptorState { key: key_out, next_nonce: 0, route_to_peer: msg.return_route };
    let mut spawns: Vec<(Address, WorkerState)> = Vec::new();
    spawns.push((encryptor_addr.duplicate(), WorkerState::Encryptor(encryptor)));
    let decryptor = DecryptorState { key: key_in, expected_nonce: 0, partner: encryptor_addr };
    let o = HandlerOutcome {
        state: Some(WorkerState::Decryptor(decryptor)),
        sends,
        spawns,
        stops: Vec::new(),
        fault: None,
    };
    proof {
        let rspec = responder_spec(
            st,
            sv,
            msg@,
            old(vault).secrets@,
            old(vault).counter,
            o@.spawns[0].0,
        );
        assert(old(vault).secrets@.push(Vault::derived_secret(old(vault).counter))[
        st.identity_handle as int] == old(vault).secrets@[st.identity_handle as int]);
        assert(o@.sends =~= rspec.sends);
        assert(o@.spawns =~= rspec.spawns);
        assert(o@ =~= rspec);
    }
    o
}

/// An initiator handling the peer's answer: `KeyExchangeSent` through
/// `Authenticating` to `Established`, or `Closed` with the exact
/// failure — a failed proof, or a refusal notified by the responder,
/// abandons the whole attempt, and the reserved encryptor address
/// never becomes routable. On success it becomes the channel's
/// decryptor and spawns the encryptor at the reserved address with the
/// peer's accumulated return route.
pub fn initiator_handle(
    st: InitiatorState,
    msg: TransportMessage,
    vault: &mut Vault,
) -> (o: HandlerOutcome)
    requires
        st.ephemeral_handle < old(vault).secrets@.len(),
    ensures
        *final(vault) == *old(vault),
        o@ == initiator_spec(
            InitiatorView {
                identity_handle: st.identity_handle,
                identity_pub: st.identity_pub,
                ephemeral_handle: st.ephemeral_handle,
                encryptor_addr: st.encryptor_addr@,
            },
            msg@,
            old(vault).secrets@,
        ),
        ({
            let d = dec_kex(msg@.payload);
            if dec_kex_err(msg@.payload) is Some {
                &&& o.state is None
                &&& o.sends@.len() == 0
                &&& o.spawns@.len() == 0
                &&& o.stops@.len() == 0
                &&& o.fault == Some(dec_kex_err(msg@.payload).unwrap())
            } else if !kex_verified(msg@.payload, KEX2_TAG) {
                &&& o.state is None
                &&& o.sends@.len() == 0
                &&& o.spawns@.len() == 0
                &&& o.stops@.len() == 0
                &&& o.fault == (if d matches Some(tk) && tk.0 == KEX2_TAG {
                    Some(NodeError::InvalidProof)
                } else {
                    Some(NodeError::WorkerFault)
                })
            } else {
                let kex = d.unwrap().1;
                let shared = agree_spec(old(vault).secrets@[st.ephemeral_handle as int], kex.e_pub);
                if kex.e_pub == 0 {
                    &&& o.state is None
                    &&& o.sends@.len() == 0
                    &&& o.spawns@.len() == 0
                    &&& o.stops@.len() == 0
                    &&& o.fault == Some(NodeError::KeyAgreementError)
                } else {
                    &&& o.state matches Some(WorkerState::Decryptor(dec)) && dec.key == add64(
                        shared,
                        2,
                    ) && dec.expected_nonce == 0 && dec.partner@ == st.encryptor_addr@
                    &&& o.spawns@.len() == 1
                    &&& o.spawns@[0].0@ == st.encryptor_addr@
                    &&& o.spawns@[0].1 matches WorkerState::Encryptor(e) && e.key == add64(
                        shared,
                        1,
                    ) && e.next_nonce == 0 && e.route_to_peer@ == msg@.return_route
                    &&& o.sends@.len() == 0
                    &&& o.stops@.len() == 0
                    &&& o.fault is None
                }
            }
        }),
{
    match decode_kex_err(&msg.payload) {
        Some(e) => {
            // the responder refused the handshake; the attempt is
            // abandoned with the peer's exact reason
            return stop_with(e);
        },
        None => {},
    }
    let parsed = decode_kex(&msg.payload);
    let kex = match parsed {
        Some(tk) => {
            if tk.0 != KEX2_TAG {
                return stop_with(NodeError::WorkerFault);
            }
            tk.1
        },
        None => {
            return stop_with(NodeError::WorkerFault);
        },
    };
    if !Vault::verify(kex.id_pub, kex.e_pub, kex.proof_sig) {
        return stop_with(NodeError::InvalidProof);
    }
    let shared = match vault.agree(st.ephemeral_handle, kex.e_pub) {
        Ok(s) => s,
        Err(e) => {
            return stop_with(e);
        },
    };
    let key_out = wrap_add64(shared, 1);
    let key_in = wrap_add64(shared, 2);
    let encryptor = EncryptorState {
        key: key_out,
        next_nonce: 0,
        route_to_peer: msg.return_route,
    };
    let mut spawns: Vec<(Address, WorkerState)> = Vec::new();
    spawns.push((st.encryptor_addr.duplicate(), WorkerState::Encryptor(encryptor)));
    let decryptor = DecryptorState { key: key_in, expected_nonce: 0, partner: st.encryptor_addr };
    let o = HandlerOutcome {
        state: Some(WorkerState::Decryptor(decryptor)),
        sends: Vec::new(),
        spawns,
        stops: Vec::new(),
        fault: None,
    };
    proof {
        let stv = InitiatorView {
            identity_handle: st.identity_handle,
            identity_pub: st.identity_pub,
            ephemeral_handle: st.ephemeral_handle,
            encryptor_addr: o@.spawns[0].0,
        };
        let ispec = initiator_spec(stv, msg@, old(vault).secrets@);
        assert(o@.sends =~= ispec.sends);
        assert(o@.spawns =~= ispec.spawns);
        assert(o@ =~= ispec);
    }
    o
}

/// The encrypting worker handling one outbound envelope: exactly one
/// encryption of the whole remaining envelope — remaining onward route,
/// return route and payload — under the session key at the next nonce,
/// forwarded along the route to the peer's decryptor; the nonce
/// counter advances by one. An exhausted nonce space stops the worker
/// rather than reuse a nonce.
pub fn encryptor_handle(st: EncryptorState, self_addr: &Address, msg: TransportMessage) -> (o:
    HandlerOutcome)
    ensures
        o@ == encryptor_spec(
            EncryptorView {
                key: st.key,
                next_nonce: st.next_nonce,
                route_to_peer: st.route_to_peer@,
            },
            self_addr@,
            msg@,
        ),
        st.next_nonce < u64::MAX ==> {
            &&& o.state matches Some(WorkerState::Encryptor(e)) && e.key == st.key && e.next_nonce
                == st.next_nonce + 1 && e.route_to_peer@ == st.route_to_peer@
            &&& o.sends@.len() == 1
            &&& o.sends@[0]@.onward_route == st.route_to_peer@
            &&& o.sends@[0]@.return_route == seq![self_addr@]
            &&& o.sends@[0]@.payload == encrypt_spec(st.key, st.next_nonce, enc_msg(msg@))
            &&& dec_msg(decrypt_spec(st.key, st.next_nonce, o.sends@[0]@.payload).unwrap())
                == Some(msg@)
            &&& o.spawns@.len() == 0
            &&& o.stops@.len() == 0
            &&& o.fault is None
        },
        st.next_nonce == u64::MAX ==> {
            &&& o.state is None
            &&& o.sends@.len() == 0
            &&& o.spawns@.len() == 0
            &&& o.stops@.len() == 0
            &&& o.fault == Some(NodeError::WorkerFault)
        },
{
    if st.next_nonce == u64::MAX {
        return stop_with(NodeError::WorkerFault);
    }
    let plaintext = encode_msg(&msg);
    let ciphertext = encrypt(st.key, st.next_nonce, &plaintext);
    proof {
        lemma_encrypt_decrypt_round_trip(st.key, st.next_nonce, plaintext@);
    }
    let ghost sv = self_addr@;
    let out = TransportMessage {
        onward_route: st.route_to_peer.duplicate(),
        return_route: Route::new().append(self_addr.duplicate()),
        payload: ciphertext,
    };
    proof {
        assert(out@.return_route =~= seq![sv]);
    }
    let mut sends: Vec<TransportMessage> = Vec::new();
    sends.push(out);
    let next = EncryptorState {
        key: st.key,
        next_nonce: st.next_nonce + 1,
        route_to_peer: st.route_to_peer,
    };
    let o = HandlerOutcome {
        state: Some(WorkerState::Encryptor(next)),
        sends,
        spawns: Vec::new(),
        stops: Vec::new(),
        fault: None,
    };
    proof {
        let espec = encryptor_spec(
            EncryptorView {
                key: st.key,
                next_nonce: st.next_nonce,
                route_to_peer: next.route_to_peer@,
            },
            sv,
            msg@,
        );
        assert(o@.sends =~= espec.sends);
        assert(o@ =~= espec);
    }
    o
}

/// The decrypting worker handling one inbound ciphertext: exactly one
/// decryption at the expected nonce. On success the recovered envelope
/// is forwarded with this side's encryptor prepended to its return
/// route — so replies re-enter the channel — and the expected nonce
/// advances. Authentication failure, a replayed or reordered nonce, or
/// an undecodable recovered envelope is terminal: the pair is torn
/// down and the exact error surfaced, never silently-wrong data.
pub fn decryptor_handle(st: DecryptorState, msg: TransportMessage) -> (o: HandlerOutcome)
    ensures
        o@ == decryptor_spec(
            DecryptorView {
                key: st.key,
                expected_nonce: st.expected_nonce,
                partner: st.partner@,
            },
            msg@,
        ),
        ({
            let d = decrypt_spec(st.key, st.expected_nonce, msg@.payload);
            match d {
                Err(e) => {
                    &&& o.state is None
                    &&& o.sends@.len() == 0
                    &&& o.spawns@.len() == 0
                    &&& o.stops@.len() == 1 && o.stops@[0]@ == st.partner@
                    &&& o.fault == Some(e)
                },
                Ok(pt) => match dec_msg(pt) {
                    Some(inner) => if st.expected_nonce < u64::MAX {
                        &&& o.state matches Some(WorkerState::Decryptor(dec)) && dec.key == st.key
                            && dec.expected_nonce == st.expected_nonce + 1 && dec.partner@
                            == st.partner@
                        &&& o.sends@.len() == 1
                        &&& o.sends@[0]@.onward_route == inner.onward_route
                        &&& o.sends@[0]@.return_route == seq![st.partner@] + inner.return_route
                        &&& o.sends@[0]@.payload == inner.payload
                        &&& o.spawns@.len() == 0
                        &&& o.stops@.len() == 0
                        &&& o.fault is None
                    } else {
                        &&& o.state is None
                        &&& o.sends@.len() == 0
                        &&& o.stops@.len() == 1 && o.stops@[0]@ == st.partner@
                        &&& o.fault == Some(NodeError::WorkerFault)
                    },
                    None => {
                        &&& o.state is None
                        &&& o.sends@.len() == 0
                        &&& o.spawns@.len() == 0
                        &&& o.stops@.len() == 1 && o.stops@[0]@ == st.partner@
                        &&& o.fault == Some(NodeError::WorkerFault)
                    },
                },
            }
        }),
{
    let plaintext = match decrypt(st.key, st.expected_nonce, &msg.payload) {
        Ok(pt) => pt,
        Err(e) => {
            return torn_down_with(e, st.partner);
        },
    };
    let inner = match decode_msg(&plaintext) {
        Some(m) => m,
        None => {
            return torn_down_with(NodeError::WorkerFault, st.partner);
        },
    };
    if st.expected_nonce == u64::MAX {
        return torn_down_with(NodeError::WorkerFault, st.partner);
    }
    let ghost pv = st.partner@;
    let fwd = TransportMessage {
        onward_route: inner.onward_route,
        return_route: inner.return_route.prepend(st.partner.duplicate()),
        payload: inner.payload,
    };
    let ghost fv = fwd@;
    let mut sends: Vec<TransportMessage> = Vec::new();
    sends.push(fwd);
    let next = DecryptorState {
        key: st.key,
        expected_nonce: st.expected_nonce + 1,
        partner: st.partner,
    };
    let o = HandlerOutcome {
        state: Some(WorkerState::Decryptor(next)),
        sends,
        spawns: Vec::new(),
        stops: Vec::new(),
        fault: None,
    };
    proof {
        let dspec = decryptor_spec(
            DecryptorView { key: st.key, expected_nonce: st.expected_nonce, partner: pv },
            msg@,
        );
        assert(o@.sends =~= seq![fv]);
        assert(o@.sends =~= dspec.sends);
        assert(o@ =~= dspec);
    }
    o
}

/// Mutual key exchange completes: with ephemeral secrets exchanged as
/// public keys, the pair of direction keys the initiator derives is
/// exactly the pair the responder derives — the initiator's outbound
/// key is the responder's inbound key, and vice versa.
pub proof fn lemma_session_keys_match(initiator_secret: u64, responder_secret: u64)
    ensures
        add64(agree_spec(initiator_secret, pk(responder_secret)), 1) == add64(
            agree_spec(responder_secret, pk(initiator_secret)),
            1,
        ),
        add64(agree_spec(initiator_secret, pk(responder_secret)), 2) == add64(
            agree_spec(responder_secret, pk(initiator_secret)),
            2,
        ),
{
    crate::vault::lemma_agree_symmetric(initiator_secret, responder_secret);
}

/// `payload` under `n` nested channels: layer `i` of `keys` and
/// `nonces` is the `i`-th channel the envelope passes on its way out,
/// so the first layer is the outermost on the wire. Exactly `n`
/// encryptions, by construction.
pub open spec fn wrap_layers(keys: Seq<u64>, nonces: Seq<u64>, payload: Seq<u8>) -> Seq<u8>
    recommends
        keys.len() == nonces.len(),
    decreases keys.len(),
{
    if keys.len() == 0 {
        payload
    } else {
        encrypt_spec(
            keys[0],
            nonces[0],
            wrap_layers(keys.drop_first(), nonces.drop_first(), payload),
        )
    }
}

/// Peeling `n` nested layers in mirrored order — outermost first, each
/// at its expected nonce. Exactly `n` decryptions, by construction;
/// any failing layer fails the whole unwrap.
pub open spec fn unwrap_layers(keys: Seq<u64>, nonces: Seq<u64>, wire: Seq<u8>) -> Option<Seq<u8>>
    recommends
        keys.len() == nonces.len(),
    decreases keys.len(),
{
    if keys.len() == 0 {
        Some(wire)
    } else {
        match decrypt_spec(keys[0], nonces[0], wire) {
            Ok(pt) => unwrap_layers(keys.drop_first(), nonces.drop_first(), pt),
            Err(e) => None,
        }
    }
}

/// Nesting: a payload sent through `n` sequentially nested channels
/// undergoes exactly `n` encryptions before the wire-equivalent
/// boundary — one per layer of `wrap_layers` — and the `n` decryptions
/// applied in mirrored order recover exactly the payload, however many
/// plain routing hops separate the channels.
pub proof fn lemma_nested_layers_round_trip(keys: Seq<u64>, nonces: Seq<u64>, payload: Seq<u8>)
    requires
        keys.len() == nonces.len(),
    ensures
        unwrap_layers(keys, nonces, wrap_layers(keys, nonces, payload)) == Some(payload),
    decreases keys.len(),
{
    if keys.len() > 0 {
        let inner = wrap_layers(keys.drop_first(), nonces.drop_first(), payload);
        lemma_encrypt_decrypt_round_trip(keys[0], nonces[0], inner);
        lemma_nested_layers_round_trip(keys.drop_first(), nonces.drop_first(), payload);
    }
}

} // verus!
