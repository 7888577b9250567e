//! Deployment-keyed hashing for cache-domain salts and prefix fingerprints.

use vstd::prelude::*;
use vstd::slice::slice_subrange;
use crate::bytes::{ascii, ascii_bytes};
use crate::endian::{le_value, read_le};

verus! {

/// The key that BLAKE3 derives from key material in a context.
pub uninterp spec fn blake3_derived_key(context: Seq<char>, material: Seq<u8>) -> Seq<u8>;

/// The BLAKE3 keyed hash of a byte string.
pub uninterp spec fn blake3_keyed_hash(key: Seq<u8>, input: Seq<u8>) -> Seq<u8>;

/// Calls `blake3::derive_key`.
///
/// Trusted: the 32-byte result is a function of the context string and the key material.
#[verifier::external_body]
fn derive_key(context: &str, material: &[u8]) -> (r: [u8; 32])
    ensures
        r@ == blake3_derived_key(context@, material@),
{
    blake3::derive_key(context, material)
}

/// Calls `blake3::keyed_hash`.
///
/// Trusted: the 32-byte result is a function of the key and the input.
#[verifier::external_body]
fn mac(key: &[u8; 32], input: &[u8]) -> (r: [u8; 32])
    ensures
        r@ == blake3_keyed_hash(key@, input@),
{
    *blake3::keyed_hash(key, input).as_bytes()
}

/// The context that separates these keys from any other use of the secret.
pub open spec fn auth_key_context() -> Seq<char> {
    "demiurge auth 2026-07-17 keyed salt/fp v1"@
}

/// The secret used when none was configured. Fit for development only.
pub open spec fn development_secret() -> Seq<u8> {
    ascii("demiurge-unkeyed-dev-only"@)
}

/// The message hashed for `data` in a `domain`: both, with a zero byte between them.
pub open spec fn framed(domain: Seq<u8>, data: Seq<u8>) -> Seq<u8> {
    domain + seq![0u8] + data
}

/// The first eight bytes of the keyed hash, little-endian.
pub open spec fn keyed_hash_of(key: Seq<u8>, domain: Seq<u8>, data: Seq<u8>) -> u64 {
    le_value(blake3_keyed_hash(key, framed(domain, data)).take(8)) as u64
}

/// Keyed hash of `data` in a `domain`.
#[must_use]
pub fn keyed_hash(key: &[u8; 32], domain: &[u8], data: &[u8]) -> (r: u64)
    ensures
        r == keyed_hash_of(key@, domain@, data@),
{
    let mut message: Vec<u8> = Vec::new();
    append_bytes(&mut message, domain);
    message.push(0);
    append_bytes(&mut message, data);
    assert(message@ =~= framed(domain@, data@));
    let digest: [u8; 32] = mac(key, message.as_slice());
    let head: &[u8] = slice_subrange(digest.as_slice(), 0, 8);
    assert(head@ =~= digest@.take(8));
    read_le(head)
}

/// Appends a byte string.
pub fn append_bytes(out: &mut Vec<u8>, bytes: &[u8])
    ensures
        final(out)@ == old(out)@ + bytes@,
{
    let ghost start = out@;
    let n: usize = bytes.len();
    for i in 0..n
        invariant
            n == bytes@.len(),
            out@ =~= start + bytes@.take(i as int),
    {
        out.push(bytes[i]);
    }
    assert(bytes@.take(n as int) =~= bytes@);
}

/// The deployment secret and the key derived from it, as the contracts see them.
pub struct AuthState {
    pub secret: Option<Seq<u8>>,
    pub key: Option<Seq<u8>>,
}

impl AuthState {
    /// The secret in use: the configured one, else that of the environment, else the one for
    /// development.
    pub open spec fn effective_secret(self, environment: Option<Seq<u8>>) -> Seq<u8> {
        match self.secret {
            Some(s) => s,
            None => match environment {
                Some(e) if e.len() > 0 => e,
                _ => development_secret(),
            },
        }
    }

    /// The state after the key was first needed.
    pub open spec fn after_use(self, environment: Option<Seq<u8>>) -> AuthState {
        match self.key {
            Some(_) => self,
            None => AuthState {
                secret: Some(self.effective_secret(environment)),
                key: Some(
                    blake3_derived_key(auth_key_context(), self.effective_secret(environment)),
                ),
            },
        }
    }

    /// The state after a secret was offered: the first one stays.
    pub open spec fn after_offer(self, secret: Seq<u8>) -> AuthState {
        match self.secret {
            Some(_) => self,
            None => AuthState { secret: Some(secret), ..self },
        }
    }

    /// A key is there only together with its secret.
    pub open spec fn valid(self) -> bool {
        self.key matches Some(k) ==> {
            &&& self.secret is Some
            &&& k == blake3_derived_key(auth_key_context(), self.secret->0)
        }
    }
}

/// The deployment secret, fixed by its first configuration or first use.
#[derive(Debug)]
pub struct AuthSecret {
    secret: Option<Vec<u8>>,
    key: Option<[u8; 32]>,
}

impl View for AuthSecret {
    type V = AuthState;

    closed spec fn view(&self) -> AuthState {
        AuthState {
            secret: match self.secret {
                Some(s) => Some(s@),
                None => None,
            },
            key: match self.key {
                Some(k) => Some(k@),
                None => None,
            },
        }
    }
}

/// The view of an optional byte string.
pub open spec fn bytes_view(bytes: Option<&[u8]>) -> Option<Seq<u8>> {
    match bytes {
        Some(b) => Some(b@),
        None => None,
    }
}

impl AuthSecret {
    /// No secret yet.
    pub fn new() -> (r: AuthSecret)
        ensures
            r@ == (AuthState { secret: None, key: None }),
            r@.valid(),
    {
        AuthSecret { secret: None, key: None }
    }

    /// The deployment key; the secret is fixed from here on. `environment` is what the process
    /// environment holds for the secret.
    pub fn auth_key(&mut self, environment: Option<&[u8]>) -> (r: [u8; 32])
        requires
            old(self)@.valid(),
        ensures
            final(self)@.valid(),
            final(self)@ == old(self)@.after_use(bytes_view(environment)),
            Some(r@) == final(self)@.key,
    {
        if let Some(k) = self.key {
            return k;
        }
        let ghost before = self@;
        let ghost wanted = before.effective_secret(bytes_view(environment));
        let secret: Vec<u8> = match self.secret.take() {
            Some(s) => s,
            None => {
                let mut chosen: Vec<u8> = Vec::new();
                match environment {
                    Some(e) if e.len() > 0 => {
                        append_bytes(&mut chosen, e);
                        assert(chosen@ =~= wanted);
                    },
                    _ => {
                        proof {
                            reveal_strlit("demiurge-unkeyed-dev-only");
                        }
                        append_bytes(&mut chosen, ascii_bytes("demiurge-unkeyed-dev-only"));
                        assert(chosen@ =~= wanted);
                    },
                }
                chosen
            },
        };
        assert(secret@ == wanted);
        let key: [u8; 32] = derive_key(
            "demiurge auth 2026-07-17 keyed salt/fp v1",
            secret.as_slice(),
        );
        self.secret = Some(secret);
        self.key = Some(key);
        key
    }
}

/// Installs the deployment secret; the first call wins, and so does a key already in use.
pub fn configure_auth_secret(state: &mut AuthSecret, secret: Vec<u8>)
    requires
        old(state)@.valid(),
    ensures
        final(state)@ == old(state)@.after_offer(secret@),
        final(state)@.valid(),
{
    if state.secret.is_none() {
        state.secret = Some(secret);
    }
}

/// Installs what the process environment holds, unless that is missing or empty.
pub fn configure_auth_secret_from_env(state: &mut AuthSecret, environment: Option<Vec<u8>>)
    requires
        old(state)@.valid(),
    ensures
        final(state)@ == match environment {
            Some(e) if e@.len() > 0 => old(state)@.after_offer(e@),
            _ => old(state)@,
        },
        final(state)@.valid(),
{
    if let Some(e) = environment {
        if e.len() > 0 {
            configure_auth_secret(state, e);
        }
    }
}

/// Offering a second secret changes nothing, nor does any secret once the key was used.
pub proof fn first_secret_wins(s: AuthState, first: Seq<u8>, second: Seq<u8>)
    requires
        s.valid(),
    ensures
        s.after_offer(first).after_offer(second) == s.after_offer(first),
        s.key is Some ==> s.after_offer(first) == s,
{
}

/// Every use of the key gives the same key, whatever the environment says later.
pub proof fn key_is_stable(s: AuthState, now: Option<Seq<u8>>, later: Option<Seq<u8>>)
    ensures
        s.after_use(now).after_use(later) == s.after_use(now),
{
}

} // verus!
