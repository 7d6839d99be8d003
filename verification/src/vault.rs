//! The vault: the substrate's cryptographic capability.
//!
//! Key material lives only here and in the channel workers that own a
//! session; application workers hold handles, never key bytes. The
//! primitives are symbolic stand-ins — commutative key agreement, a
//! possession proof, and an authenticated cipher whose tag detects any
//! single-bit corruption — with exact algebraic contracts. The concrete
//! constructions are outside this library's scope.

use vstd::prelude::*;
use crate::errors::NodeError;
use crate::wire::{
    byte_sum, flip_bit, lemma_byte_sum_one_diff, lemma_flip_changes_byte, lemma_u64_from_le_injective,
    lemma_u64_le_round_trip, push_u64_le, read_u64_le, u64_from_le, u64_le_bytes,
};
use vstd::arithmetic::div_mod::{lemma_add_mod_noop, lemma_fundamental_div_mod, lemma_small_mod};

verus! {

/// Offset folding a secret into its public key.
pub const PK_OFFSET: u64 = 0x9e3779b97f4a7c15;

/// Domain separator folded into possession proofs.
pub const SIG_SALT: u64 = 0x5851f42d4c957f2d;

/// Salt folded into freshly generated secrets.
pub const SECRET_SALT: u64 = 0x2545f4914f6cdd1d;

/// Addition on 64-bit words, wrapping modulo 2^64.
pub open spec fn add64(a: u64, b: u64) -> u64 {
    if a + b <= u64::MAX {
        (a + b) as u64
    } else {
        (a + b - 0x1_0000_0000_0000_0000) as u64
    }
}

/// Subtraction on 64-bit words, wrapping modulo 2^64.
pub open spec fn sub64(a: u64, b: u64) -> u64 {
    if a >= b {
        (a - b) as u64
    } else {
        (a - b + 0x1_0000_0000_0000_0000) as u64
    }
}

/// Wrapping addition, executable.
pub fn wrap_add64(a: u64, b: u64) -> (r: u64)
    ensures
        r == add64(a, b),
{
    if b <= u64::MAX - a {
        a + b
    } else {
        b - (u64::MAX - a) - 1
    }
}

/// Wrapping subtraction, executable.
pub fn wrap_sub64(a: u64, b: u64) -> (r: u64)
    ensures
        r == sub64(a, b),
{
    if a >= b {
        a - b
    } else {
        a + (u64::MAX - b) + 1
    }
}

/// Wrapping addition cancels: unequal left operands stay unequal.
pub proof fn lemma_add64_injective(a: u64, b: u64, s: u64)
    requires
        a != b,
    ensures
        add64(a, s) != add64(b, s),
{
}

/// Subtracting what was added recovers the operand.
pub proof fn lemma_add_sub64(a: u64, b: u64)
    ensures
        sub64(add64(a, b), b) == a,
{
}

/// The public key of secret `s`.
pub open spec fn pk(s: u64) -> u64 {
    add64(s, PK_OFFSET)
}

/// The shared secret agreed from own secret `s` and peer public key `p`.
pub open spec fn agree_spec(s: u64, p: u64) -> u64 {
    add64(s, sub64(p, PK_OFFSET))
}

/// Key agreement is symmetric: both endpoints derive the same secret.
pub proof fn lemma_agree_symmetric(a: u64, b: u64)
    ensures
        agree_spec(a, pk(b)) == agree_spec(b, pk(a)),
{
    lemma_add_sub64(a, PK_OFFSET);
    lemma_add_sub64(b, PK_OFFSET);
}

/// The possession proof of `data` under secret `s`.
pub open spec fn sign_spec(s: u64, data: u64) -> u64 {
    add64(add64(s, data), SIG_SALT)
}

/// Whether `sig` proves possession of the secret behind `p` over `data`.
pub open spec fn verify_ok(p: u64, data: u64, sig: u64) -> bool {
    sig == sign_spec(sub64(p, PK_OFFSET), data)
}

/// A proof made with the secret verifies against its public key, and
/// only that proof does.
pub proof fn lemma_sign_verify(s: u64, data: u64, sig: u64)
    ensures
        verify_ok(pk(s), data, sign_spec(s, data)),
        verify_ok(pk(s), data, sig) ==> sig == sign_spec(s, data),
{
    lemma_add_sub64(s, PK_OFFSET);
}

/// The byte sum truncated to a 64-bit word.
pub open spec fn sum64(p: Seq<u8>) -> u64 {
    (byte_sum(p) % 0x1_0000_0000_0000_0000) as u64
}

/// The integrity tag of a ciphertext body under `key` and `nonce`.
pub open spec fn tag_of(key: u64, nonce: u64, body: Seq<u8>) -> u64 {
    add64(add64(key, nonce), sum64(body))
}

/// One byte under the cipher's keystream.
pub open spec fn mask_byte(key: u64, b: u8) -> u8 {
    b ^ ((key & 0xff) as u8)
}

/// The whole body under the cipher's keystream.
pub open spec fn mask_bytes(key: u64, p: Seq<u8>) -> Seq<u8> {
    p.map_values(|b: u8| mask_byte(key, b))
}

/// Masking twice restores the bytes.
pub proof fn lemma_mask_involutive(key: u64, p: Seq<u8>)
    ensures
        mask_bytes(key, mask_bytes(key, p)) == p,
{
    let k = (key & 0xff) as u8;
    assert forall|i: int| 0 <= i < p.len() implies mask_bytes(key, mask_bytes(key, p))[i]
        == p[i] by {
        let b = p[i];
        assert((b ^ k) ^ k == b) by (bit_vector);
    }
    assert(mask_bytes(key, mask_bytes(key, p)) =~= p);
}

/// The ciphertext of `p` under `key` at `nonce`: integrity tag, nonce,
/// then the masked body.
pub open spec fn encrypt_spec(key: u64, nonce: u64, p: Seq<u8>) -> Seq<u8> {
    u64_le_bytes(tag_of(key, nonce, mask_bytes(key, p))) + u64_le_bytes(nonce) + mask_bytes(key, p)
}

/// Decryption of `c` under `key`, expecting `expected` as the next
/// nonce. The tag is verified first, against the nonce the ciphertext
/// itself carries, so any corruption fails authentication; only an
/// authentic ciphertext with the wrong nonce is a sequence violation.
pub open spec fn decrypt_spec(key: u64, expected: u64, c: Seq<u8>) -> Result<Seq<u8>, NodeError> {
    if c.len() < 16 {
        Err(NodeError::AuthenticationFailure)
    } else {
        let tag = u64_from_le(c.subrange(0, 8));
        let nonce = u64_from_le(c.subrange(8, 16));
        let body = c.subrange(16, c.len() as int);
        if tag != tag_of(key, nonce, body) {
            Err(NodeError::AuthenticationFailure)
        } else if nonce != expected {
            Err(NodeError::SequenceViolation)
        } else {
            Ok(mask_bytes(key, body))
        }
    }
}

/// Decrypting an authentic ciphertext at its own nonce yields exactly
/// the plaintext.
pub proof fn lemma_encrypt_decrypt_round_trip(key: u64, nonce: u64, p: Seq<u8>)
    ensures
        decrypt_spec(key, nonce, encrypt_spec(key, nonce, p)) == Ok::<Seq<u8>, NodeError>(p),
{
    let body = mask_bytes(key, p);
    let c = encrypt_spec(key, nonce, p);
    assert(c.len() == 16 + p.len());
    assert(c.subrange(0, 8) =~= u64_le_bytes(tag_of(key, nonce, body)));
    assert(c.subrange(8, 16) =~= u64_le_bytes(nonce));
    assert(c.subrange(16, c.len() as int) =~= body);
    lemma_u64_le_round_trip(tag_of(key, nonce, body));
    lemma_u64_le_round_trip(nonce);
    lemma_mask_involutive(key, p);
}

/// An authentic ciphertext replayed or reordered onto an established
/// channel — its nonce differing from the expected one — is rejected as
/// a sequence violation, never delivered.
pub proof fn lemma_replay_rejected(key: u64, nonce: u64, expected: u64, p: Seq<u8>)
    requires
        nonce != expected,
    ensures
        decrypt_spec(key, expected, encrypt_spec(key, nonce, p)) == Err::<Seq<u8>, NodeError>(
            NodeError::SequenceViolation,
        ),
{
    let body = mask_bytes(key, p);
    let c = encrypt_spec(key, nonce, p);
    assert(c.subrange(0, 8) =~= u64_le_bytes(tag_of(key, nonce, body)));
    assert(c.subrange(8, 16) =~= u64_le_bytes(nonce));
    assert(c.subrange(16, c.len() as int) =~= body);
    lemma_u64_le_round_trip(tag_of(key, nonce, body));
    lemma_u64_le_round_trip(nonce);
}

/// Truncated byte sums of strings differing in one byte differ.
proof fn lemma_sum64_one_diff(s1: Seq<u8>, s2: Seq<u8>, j: int)
    requires
        s1.len() == s2.len(),
        0 <= j < s1.len(),
        s1[j] != s2[j],
        forall|i: int| 0 <= i < s1.len() && i != j ==> s1[i] == s2[i],
    ensures
        sum64(s1) != sum64(s2),
{
    lemma_byte_sum_one_diff(s1, s2, j);
    let a = byte_sum(s1);
    let b = byte_sum(s2);
    let m = 0x1_0000_0000_0000_0000int;
    let d = a - b;
    assert(d == s1[j] - s2[j]);
    assert(0 < d < 256 || -256 < d < 0);
    lemma_fundamental_div_mod(a, m);
    lemma_fundamental_div_mod(b, m);
    if a % m == b % m {
        let q = a / m - b / m;
        assert(d == q * m);
        assert(q != 0 ==> (q >= 1 || q <= -1));
        assert(q >= 1 ==> q * 0x1_0000_0000_0000_0000int >= 0x1_0000_0000_0000_0000int)
            by (nonlinear_arith);
        assert(q <= -1 ==> q * 0x1_0000_0000_0000_0000int <= -0x1_0000_0000_0000_0000int)
            by (nonlinear_arith);
        assert(q == 0 ==> q * 0x1_0000_0000_0000_0000int == 0) by (nonlinear_arith);
        assert(false);
    }
}

/// Tamper evidence: flipping any single bit anywhere in a ciphertext —
/// tag, nonce field or body — makes decryption fail authentication;
/// corrupted data is never delivered as silently-wrong plaintext.
pub proof fn lemma_bit_flip_rejected(key: u64, nonce: u64, p: Seq<u8>, i: int, k: u8)
    requires
        0 <= i < encrypt_spec(key, nonce, p).len(),
        k < 8,
    ensures
        decrypt_spec(key, nonce, flip_bit(encrypt_spec(key, nonce, p), i, k)) == Err::<
            Seq<u8>,
            NodeError,
        >(NodeError::AuthenticationFailure),
{
    let body = mask_bytes(key, p);
    let c = encrypt_spec(key, nonce, p);
    let c2 = flip_bit(c, i, k);
    lemma_flip_changes_byte(c[i], k);
    assert(c.subrange(0, 8) =~= u64_le_bytes(tag_of(key, nonce, body)));
    assert(c.subrange(8, 16) =~= u64_le_bytes(nonce));
    assert(c.subrange(16, c.len() as int) =~= body);
    lemma_u64_le_round_trip(tag_of(key, nonce, body));
    lemma_u64_le_round_trip(nonce);
    let tag2 = u64_from_le(c2.subrange(0, 8));
    let nonce2 = u64_from_le(c2.subrange(8, 16));
    let body2 = c2.subrange(16, c2.len() as int);
    if i < 8 {
        assert(c2.subrange(8, 16) =~= c.subrange(8, 16));
        assert(body2 =~= body);
        assert(c2.subrange(0, 8)[i] != c.subrange(0, 8)[i]);
        if tag2 == tag_of(key, nonce2, body2) {
            lemma_u64_from_le_injective(c2.subrange(0, 8), c.subrange(0, 8));
        }
    } else if i < 16 {
        assert(c2.subrange(0, 8) =~= c.subrange(0, 8));
        assert(body2 =~= body);
        assert(c2.subrange(8, 16)[i - 8] != c.subrange(8, 16)[i - 8]);
        if nonce2 == nonce {
            lemma_u64_from_le_injective(c2.subrange(8, 16), c.subrange(8, 16));
        }
        assert(nonce2 != nonce);
        lemma_add64_injective(nonce2, nonce, key);
        assert(add64(key, nonce2) != add64(key, nonce));
        lemma_add64_injective(add64(key, nonce2), add64(key, nonce), sum64(body));
        assert(tag2 == tag_of(key, nonce, body));
        assert(tag_of(key, nonce2, body2) != tag_of(key, nonce, body));
    } else {
        assert(c2.subrange(0, 8) =~= c.subrange(0, 8));
        assert(c2.subrange(8, 16) =~= c.subrange(8, 16));
        assert(body2[i - 16] != body[i - 16]);
        assert(forall|j: int| 0 <= j < body.len() && j != i - 16 ==> body2[j] == body[j]);
        lemma_sum64_one_diff(body2, body, i - 16);
        lemma_add64_injective(sum64(body2), sum64(body), add64(key, nonce));
        assert(add64(add64(key, nonce), sum64(body2)) == add64(sum64(body2), add64(key, nonce)));
        assert(add64(add64(key, nonce), sum64(body)) == add64(sum64(body), add64(key, nonce)));
        assert(tag_of(key, nonce, body2) != tag_of(key, nonce, body));
        assert(tag2 == tag_of(key, nonce, body));
    }
}

/// The truncated byte sum of `s` from `from` on, computed with wrapping
/// additions.
fn byte_sum_mod(s: &Vec<u8>, from: usize) -> (r: u64)
    requires
        from <= s@.len(),
    ensures
        r == sum64(s@.skip(from as int)),
{
    let ghost m = 0x1_0000_0000_0000_0000int;
    let mut i: usize = from;
    let mut total: u64 = 0;
    while i < s.len()
        invariant
            from <= i <= s@.len(),
            total == byte_sum(s@.subrange(from as int, i as int)) % m,
            m == 0x1_0000_0000_0000_0000int,
        decreases s@.len() - i,
    {
        proof {
            let prefix = s@.subrange(from as int, i as int);
            let next = s@.subrange(from as int, i as int + 1);
            assert(next.drop_last() =~= prefix);
            assert(next.last() == s@[i as int]);
            lemma_add_mod_noop(byte_sum(prefix), s@[i as int] as int, m);
            lemma_small_mod(s@[i as int] as nat, m as nat);
        }
        total = wrap_add64(total, s[i] as u64);
        i = i + 1;
    }
    proof {
        assert(s@.subrange(from as int, s@.len() as int) =~= s@.skip(from as int));
    }
    total
}

/// Encrypts `p` under `key` at `nonce`, per [`encrypt_spec`].
pub fn encrypt(key: u64, nonce: u64, p: &Vec<u8>) -> (r: Vec<u8>)
    ensures
        r@ == encrypt_spec(key, nonce, p@),
{
    let kb: u8 = (key & 0xff) as u8;
    let mut body: Vec<u8> = Vec::new();
    let mut i: usize = 0;
    while i < p.len()
        invariant
            i <= p@.len(),
            kb == (key & 0xff) as u8,
            body@ == mask_bytes(key, p@.subrange(0, i as int)),
        decreases p@.len() - i,
    {
        body.push(p[i] ^ kb);
        proof {
            assert(body@ =~= mask_bytes(key, p@.subrange(0, i as int + 1)));
        }
        i = i + 1;
    }
    proof {
        assert(p@.subrange(0, p@.len() as int) =~= p@);
    }
    let total = byte_sum_mod(&body, 0);
    proof {
        assert(body@.skip(0) =~= body@);
    }
    let tag = wrap_add64(wrap_add64(key, nonce), total);
    let mut out: Vec<u8> = Vec::new();
    push_u64_le(&mut out, tag);
    push_u64_le(&mut out, nonce);
    crate::codec::push_bytes(&mut out, &body);
    proof {
        assert(out@ =~= encrypt_spec(key, nonce, p@));
    }
    out
}

/// Decrypts `c` under `key`, expecting `expected` as the next nonce,
/// per [`decrypt_spec`].
pub fn decrypt(key: u64, expected: u64, c: &Vec<u8>) -> (r: Result<Vec<u8>, NodeError>)
    ensures
        match r {
            Ok(p) => decrypt_spec(key, expected, c@) == Ok::<Seq<u8>, NodeError>(p@),
            Err(e) => decrypt_spec(key, expected, c@) == Err::<Seq<u8>, NodeError>(e),
        },
{
    if c.len() < 16 {
        return Err(NodeError::AuthenticationFailure);
    }
    let tag = read_u64_le(c, 0);
    let nonce = read_u64_le(c, 8);
    let total = byte_sum_mod(c, 16);
    let ghost body = c@.subrange(16, c@.len() as int);
    proof {
        assert(c@.skip(16) =~= body);
    }
    let expected_tag = wrap_add64(wrap_add64(key, nonce), total);
    if tag != expected_tag {
        return Err(NodeError::AuthenticationFailure);
    }
    if nonce != expected {
        return Err(NodeError::SequenceViolation);
    }
    let kb: u8 = (key & 0xff) as u8;
    let mut p: Vec<u8> = Vec::new();
    let mut i: usize = 16;
    while i < c.len()
        invariant
            16 <= i <= c@.len(),
            kb == (key & 0xff) as u8,
            p@ == mask_bytes(key, c@.subrange(16, i as int)),
        decreases c@.len() - i,
    {
        p.push(c[i] ^ kb);
        proof {
            assert(p@ =~= mask_bytes(key, c@.subrange(16, i as int + 1)));
        }
        i = i + 1;
    }
    proof {
        assert(p@ =~= mask_bytes(key, body));
    }
    Ok(p)
}

/// A request to the vault worker, carrying a correlation id the
/// response echoes. Key material never rides in a request: secrets are
/// named by handle.
pub enum VaultRequest {
    /// Generate an ephemeral keypair; only the handle and public key
    /// come back.
    GenerateEphemeralKeypair {
        /// Correlation id echoed by the response.
        id: u64,
    },
    /// Agree a shared secret from an owned secret and a peer public key.
    Agree {
        /// Correlation id echoed by the response.
        id: u64,
        /// Handle of the local secret.
        handle: usize,
        /// The peer's public key.
        peer_pub: u64,
    },
    /// Sign `data` with the secret behind `handle`.
    Sign {
        /// Correlation id echoed by the response.
        id: u64,
        /// Handle of the signing secret.
        handle: usize,
        /// The word to sign.
        data: u64,
    },
    /// Verify a possession proof against a public key.
    Verify {
        /// Correlation id echoed by the response.
        id: u64,
        /// The claimed public key.
        peer_pub: u64,
        /// The signed word.
        data: u64,
        /// The proof to check.
        sig: u64,
    },
}

/// The vault worker's answer, correlated to its request by `id`.
pub enum VaultResponse {
    /// A fresh keypair's handle and public key.
    Keypair {
        /// Correlation id of the request answered.
        id: u64,
        /// Handle naming the new secret.
        handle: usize,
        /// The matching public key.
        public_key: u64,
    },
    /// The agreed shared secret, or the exact agreement failure.
    Agreed {
        /// Correlation id of the request answered.
        id: u64,
        /// The shared secret, or `KeyAgreementError` on an invalid
        /// peer key.
        result: Result<u64, NodeError>,
    },
    /// A possession proof.
    Signature {
        /// Correlation id of the request answered.
        id: u64,
        /// The proof over the requested word.
        sig: u64,
    },
    /// A verification verdict.
    Verdict {
        /// Correlation id of the request answered.
        id: u64,
        /// Whether the proof verified.
        ok: bool,
    },
    /// The request named a handle the vault never issued.
    Failed {
        /// Correlation id of the request answered.
        id: u64,
        /// The fault surfaced to the requester.
        error: NodeError,
    },
}

/// The public half of an identity: the secret itself stays in the
/// vault, reachable only through the handle.
pub struct Identity {
    /// Vault handle of the identity secret.
    pub handle: usize,
    /// The identity's public key.
    pub public_key: u64,
}

/// The vault worker's private state: every secret ever generated, named
/// outside the vault only by its handle (its index), plus the counter
/// that freshens the next secret. Other workers hold handles and public
/// keys, never the secrets.
pub struct Vault {
    /// Generated secrets, indexed by handle.
    pub secrets: Vec<u64>,
    /// Freshness counter for the next secret.
    pub counter: u64,
}

impl Vault {
    /// An empty vault.
    pub fn new() -> (r: Vault)
        ensures
            r.secrets@ == Seq::<u64>::empty(),
            r.counter == 0,
    {
        let r = Vault { secrets: Vec::new(), counter: 0 };
        proof {
            assert(r.secrets@ =~= Seq::<u64>::empty());
        }
        r
    }

    /// The secret a fresh keypair derives from counter value `n`.
    pub open spec fn derived_secret(n: u64) -> u64 {
        add64(n, SECRET_SALT)
    }

    /// Generates an ephemeral keypair: the secret stays in the vault
    /// under the returned handle; only the public key leaves.
    pub fn generate_ephemeral_keypair(&mut self) -> (r: (usize, u64))
        ensures
            r.0 == old(self).secrets@.len(),
            r.1 == pk(Vault::derived_secret(old(self).counter)),
            final(self).secrets@ == old(self).secrets@.push(
                Vault::derived_secret(old(self).counter),
            ),
            final(self).counter == add64(old(self).counter, 1),
    {
        let s = wrap_add64(self.counter, SECRET_SALT);
        let handle = self.secrets.len();
        self.secrets.push(s);
        self.counter = wrap_add64(self.counter, 1);
        let p = wrap_add64(s, PK_OFFSET);
        (handle, p)
    }

    /// Agrees a shared secret from the secret behind `handle` and the
    /// peer's public key; an invalid peer key is rejected.
    pub fn agree(&self, handle: usize, peer_pub: u64) -> (r: Result<u64, NodeError>)
        requires
            handle < self.secrets@.len(),
        ensures
            peer_pub == 0 ==> r == Err::<u64, NodeError>(NodeError::KeyAgreementError),
            peer_pub != 0 ==> r == Ok::<u64, NodeError>(
                agree_spec(self.secrets@[handle as int], peer_pub),
            ),
    {
        if peer_pub == 0 {
            return Err(NodeError::KeyAgreementError);
        }
        let d = wrap_sub64(peer_pub, PK_OFFSET);
        Ok(wrap_add64(self.secrets[handle], d))
    }

    /// Signs `data` with the secret behind `handle`, a proof of
    /// possession of that secret.
    pub fn sign(&self, handle: usize, data: u64) -> (r: u64)
        requires
            handle < self.secrets@.len(),
        ensures
            r == sign_spec(self.secrets@[handle as int], data),
    {
        wrap_add64(wrap_add64(self.secrets[handle], data), SIG_SALT)
    }

    /// Verifies a possession proof against a public key.
    pub fn verify(peer_pub: u64, data: u64, sig: u64) -> (r: bool)
        ensures
            r == verify_ok(peer_pub, data, sig),
    {
        let s = wrap_sub64(peer_pub, PK_OFFSET);
        let expected = wrap_add64(wrap_add64(s, data), SIG_SALT);
        sig == expected
    }

    /// The vault worker's request/response boundary: every cryptographic
    /// operation other workers need, answered with the request's
    /// correlation id, so key material never leaves the vault by any
    /// other path. A stale handle is answered with a worker fault, never
    /// a panic.
    pub fn serve(&mut self, req: VaultRequest) -> (r: VaultResponse)
        ensures
            match req {
                VaultRequest::GenerateEphemeralKeypair { id } => {
                    &&& r matches VaultResponse::Keypair { id: rid, handle, public_key } && rid
                        == id && handle == old(self).secrets@.len() && public_key == pk(
                        Vault::derived_secret(old(self).counter),
                    )
                    &&& final(self).secrets@ == old(self).secrets@.push(
                        Vault::derived_secret(old(self).counter),
                    )
                },
                VaultRequest::Agree { id, handle, peer_pub } => *final(self) == *old(self) && (
                if handle < old(self).secrets@.len() {
                    r matches VaultResponse::Agreed { id: rid, result } && rid == id && result
                        == (if peer_pub == 0 {
                        Err::<u64, NodeError>(NodeError::KeyAgreementError)
                    } else {
                        Ok::<u64, NodeError>(agree_spec(old(self).secrets@[handle as int], peer_pub))
                    })
                } else {
                    r matches VaultResponse::Failed { id: rid, error } && rid == id && error
                        == NodeError::WorkerFault
                }),
                VaultRequest::Sign { id, handle, data } => *final(self) == *old(self) && (
                if handle < old(self).secrets@.len() {
                    r matches VaultResponse::Signature { id: rid, sig } && rid == id && sig
                        == sign_spec(old(self).secrets@[handle as int], data)
                } else {
                    r matches VaultResponse::Failed { id: rid, error } && rid == id && error
                        == NodeError::WorkerFault
                }),
                VaultRequest::Verify { id, peer_pub, data, sig } => *final(self) == *old(self) && (
                r matches VaultResponse::Verdict { id: rid, ok } && rid == id && ok == verify_ok(
                    peer_pub,
                    data,
                    sig,
                )),
            },
    {
        match req {
            VaultRequest::GenerateEphemeralKeypair { id } => {
                let (handle, public_key) = self.generate_ephemeral_keypair();
                VaultResponse::Keypair { id, handle, public_key }
            },
            VaultRequest::Agree { id, handle, peer_pub } => {
                if handle >= self.secrets.len() {
                    VaultResponse::Failed { id, error: NodeError::WorkerFault }
                } else {
                    VaultResponse::Agreed { id, result: self.agree(handle, peer_pub) }
                }
            },
            VaultRequest::Sign { id, handle, data } => {
                if handle >= self.secrets.len() {
                    VaultResponse::Failed { id, error: NodeError::WorkerFault }
                } else {
                    VaultResponse::Signature { id, sig: self.sign(handle, data) }
                }
            },
            VaultRequest::Verify { id, peer_pub, data, sig } => {
                VaultResponse::Verdict { id, ok: Vault::verify(peer_pub, data, sig) }
            },
        }
    }
}

} // verus!
