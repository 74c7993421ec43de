//! An endpoint's identity: an ed25519 key pair.

use ed25519_dalek::SigningKey;
use rand::rngs::OsRng;
use rand::RngCore;
use vstd::prelude::*;

use crate::wire::KEY_LEN;

verus! {

/// The length of a raw ed25519 secret key.
pub const SECRET_LEN: usize = 32;

/// The raw ed25519 public key of a raw secret key, as `ed25519_dalek` derives it: a function of the 32
/// secret bytes and of nothing else.
pub uninterp spec fn ed25519_public_key(secret: Seq<u8>) -> Seq<u8>;

/// `SigningKey::from_bytes`, with the public half of the key (`SigningKey::verifying_key`) read off as
/// raw bytes (`VerifyingKey::to_bytes`). The result is the public key of the secret.
#[verifier::external_body]
fn derive_public_key(secret: &[u8; SECRET_LEN]) -> (key: [u8; KEY_LEN])
    ensures
        key@ == ed25519_public_key(secret@),
{
    SigningKey::from_bytes(secret).verifying_key().to_bytes()
}

/// `OsRng::try_fill_bytes`: 32 bytes from the operating system's random source, or `None` if it has no
/// randomness to give. Any bytes may come back, so nothing is claimed of them.
#[verifier::external_body]
fn draw_secret() -> (drawn: Option<[u8; SECRET_LEN]>) {
    let mut secret = [0u8; SECRET_LEN];
    match OsRng.try_fill_bytes(&mut secret) {
        Ok(()) => Some(secret),
        Err(_) => None,
    }
}

/// An ed25519 identity. Its view is the secret it was made of.
pub struct Identity {
    secret: [u8; SECRET_LEN],
    public: [u8; KEY_LEN],
}

impl View for Identity {
    type V = Seq<u8>;

    closed spec fn view(&self) -> Seq<u8> {
        self.secret@
    }
}

impl Identity {
    /// The public half always belongs to the secret half.
    #[verifier::type_invariant]
    spec fn keys_match(self) -> bool {
        self.public@ == ed25519_public_key(self.secret@)
    }

    /// The identity of a caller-provided secret, so that a node keeps one public key across runs.
    pub fn from_secret(secret: [u8; SECRET_LEN]) -> (identity: Self)
        ensures
            identity@ == secret@,
    {
        let public = derive_public_key(&secret);
        Identity { secret, public }
    }

    /// The identity of a secret that was drawn at random, if one could be drawn.
    pub fn from_draw(drawn: Option<[u8; SECRET_LEN]>) -> (identity: Option<Self>)
        ensures
            match drawn {
                Some(secret) => identity is Some && identity->0@ == secret@,
                None => identity is None,
            },
    {
        match drawn {
            Some(secret) => Some(Self::from_secret(secret)),
            None => None,
        }
    }

    /// A fresh identity, or `None` if the operating system has no randomness to give. What becomes of
    /// each draw is what [`Identity::from_draw`] says.
    pub fn generate() -> (identity: Option<Self>)
        ensures
            identity matches Some(identity) ==> identity@.len() == SECRET_LEN,
    {
        Self::from_draw(draw_secret())
    }

    /// The secret this identity was made of.
    pub fn secret(&self) -> (secret: [u8; SECRET_LEN])
        ensures
            secret@ == self@,
    {
        self.secret
    }

    /// The public identity: a raw ed25519 public key.
    pub fn public_key(&self) -> (key: [u8; KEY_LEN])
        ensures
            key@ == ed25519_public_key(self@),
    {
        proof {
            use_type_invariant(self);
        }
        self.public
    }
}

} // verus!
