use aes_gcm::aead::{Aead, KeyInit};
use aes_gcm::{Aes256Gcm, Key, Nonce};
use rand::rngs::OsRng;
use rand::RngCore;
use vstd::prelude::*;

use crate::message::NodeId;

verus! {

/// Length in bytes of the nonce that prefixes every sealed frame.
pub const NONCE_LEN: usize = 12;

/// Length in bytes of the AES-256 key.
pub const KEY_LEN: usize = 32;

/// Length in bytes of the authentication tag that AES-GCM appends.
pub const TAG_LEN: usize = 16;

/// The longest plaintext that AES-GCM accepts (`aes_gcm::P_MAX`).
pub const MAX_PLAINTEXT_LEN: u64 = 0x10_0000_0000;

#[verifier::external_type_specification]
#[verifier::external_body]
pub struct ExAeadError(aes_gcm::Error);

/// What AES-256-GCM encryption without associated data gives for a key, a nonce
/// and a plaintext.
pub uninterp spec fn aes_gcm_seal(key: Seq<u8>, nonce: Seq<u8>, plaintext: Seq<u8>) -> Seq<u8>;

/// What AES-256-GCM decryption without associated data gives for a key, a nonce
/// and a ciphertext: `None` when the ciphertext does not authenticate.
pub uninterp spec fn aes_gcm_open(key: Seq<u8>, nonce: Seq<u8>, ciphertext: Seq<u8>) -> Option<Seq<u8>>;

/// Calls `Aead::encrypt` of `aes_gcm::Aes256Gcm` (keyed with `KeyInit::new`).
///
/// Claims, as the crate's source shows, that encryption fails exactly when the
/// plaintext is longer than `P_MAX`, that the ciphertext is the plaintext's length
/// plus the 16-byte tag, and, as the crate's documentation shows, that decrypting
/// the ciphertext with the same key and nonce gives the plaintext back.
#[verifier::external_body]
fn aes256gcm_encrypt(key: &[u8], nonce: &[u8], plaintext: &[u8]) -> (res: Result<Vec<u8>, aes_gcm::Error>)
    requires
        key@.len() == KEY_LEN,
        nonce@.len() == NONCE_LEN,
    ensures
        res is Ok <==> plaintext@.len() <= MAX_PLAINTEXT_LEN,
        res matches Ok(ct) ==> {
            &&& ct@ == aes_gcm_seal(key@, nonce@, plaintext@)
            &&& ct@.len() == plaintext@.len() + TAG_LEN
            &&& aes_gcm_open(key@, nonce@, ct@) == Some(plaintext@)
        },
{
    let cipher = Aes256Gcm::new(Key::<Aes256Gcm>::from_slice(key));
    cipher.encrypt(Nonce::from_slice(nonce), plaintext)
}

/// Calls `Aead::decrypt` of `aes_gcm::Aes256Gcm` (keyed with `KeyInit::new`).
///
/// Claims that the result is the named decryption, and, as the crate's source
/// shows, that a ciphertext shorter than the tag never decrypts.
#[verifier::external_body]
fn aes256gcm_decrypt(key: &[u8], nonce: &[u8], ciphertext: &[u8]) -> (res: Result<Vec<u8>, aes_gcm::Error>)
    requires
        key@.len() == KEY_LEN,
        nonce@.len() == NONCE_LEN,
    ensures
        match res {
            Ok(pt) => aes_gcm_open(key@, nonce@, ciphertext@) == Some(pt@),
            Err(_) => aes_gcm_open(key@, nonce@, ciphertext@) is None,
        },
        ciphertext@.len() < TAG_LEN ==> res is Err,
{
    let cipher = Aes256Gcm::new(Key::<Aes256Gcm>::from_slice(key));
    cipher.decrypt(Nonce::from_slice(nonce), ciphertext)
}

/// `n` bytes from `rand::rngs::OsRng` (`RngCore::fill_bytes`).
///
/// Only the length is claimed: the bytes come from the operating system.
#[verifier::external_body]
pub(crate) fn random_bytes(n: usize) -> (bytes: Vec<u8>)
    ensures
        bytes@.len() == n,
{
    let mut bytes = vec![0u8; n];
    OsRng.fill_bytes(&mut bytes);
    bytes
}

/// Why a frame could not be sealed or opened.
#[derive(Debug, Clone, Copy, PartialEq, Eq, Structural)]
pub enum NetError {
    /// The frame is shorter than a nonce.
    CiphertextTooShort,
    /// AES-GCM refused: the plaintext is too long, or the frame does not authenticate.
    Cipher,
}

/// What decrypting `data` with `key` gives: the first 12 bytes are the nonce, the
/// rest the ciphertext.
pub open spec fn opened(key: Seq<u8>, data: Seq<u8>) -> Option<Seq<u8>> {
    if data.len() < NONCE_LEN {
        None
    } else {
        aes_gcm_open(key, data.take(NONCE_LEN as int), data.skip(NONCE_LEN as int))
    }
}

/// `data` is a sealing of `plaintext` under `key`: a nonce followed by the
/// AES-GCM encryption of `plaintext` under that nonce.
pub open spec fn sealed(key: Seq<u8>, plaintext: Seq<u8>, data: Seq<u8>) -> bool {
    &&& data.len() == NONCE_LEN + plaintext.len() + TAG_LEN
    &&& data.skip(NONCE_LEN as int) == aes_gcm_seal(key, data.take(NONCE_LEN as int), plaintext)
}

/// A node's sealing of the frames it exchanges with its peers, with a symmetric
/// key shared by the whole cluster.
pub struct Net {
    me: NodeId,
    key: Vec<u8>,
}

impl Net {
    pub closed spec fn id(&self) -> NodeId {
        self.me
    }

    pub closed spec fn key(&self) -> Seq<u8> {
        self.key@
    }

    /// A sealer for node `me`. `key` must be 32 bytes (AES-256) for `encrypt` and
    /// `decrypt` to be usable.
    pub fn new(me: NodeId, key: Vec<u8>) -> (net: Self)
        ensures
            net.id() == me,
            net.key() == key@,
    {
        Net { me, key }
    }

    pub fn me(&self) -> (id: NodeId)
        ensures
            id == self.id(),
    {
        self.me
    }

    /// Seals `plaintext` under `nonce`: the nonce followed by the AES-256-GCM
    /// ciphertext.
    pub fn seal(&self, nonce: &[u8], plaintext: &[u8]) -> (res: Result<Vec<u8>, NetError>)
        requires
            self.key().len() == KEY_LEN,
            nonce@.len() == NONCE_LEN,
        ensures
            res is Ok <==> plaintext@.len() <= MAX_PLAINTEXT_LEN,
            res matches Err(e) ==> e == NetError::Cipher,
            res matches Ok(out) ==> {
                &&& out@ == nonce@ + aes_gcm_seal(self.key(), nonce@, plaintext@)
                &&& sealed(self.key(), plaintext@, out@)
                &&& opened(self.key(), out@) == Some(plaintext@)
            },
    {
        match aes256gcm_encrypt(self.key.as_slice(), nonce, plaintext) {
            Ok(ct) => {
                let mut out: Vec<u8> = Vec::new();
                let mut i: usize = 0;
                while i < nonce.len()
                    invariant
                        i <= nonce@.len(),
                        out@ == nonce@.take(i as int),
                    decreases nonce.len() - i,
                {
                    out.push(nonce[i]);
                    assert(nonce@.take(i + 1) =~= nonce@.take(i as int).push(nonce@[i as int]));
                    i = i + 1;
                }
                assert(nonce@.take(i as int) =~= nonce@);
                let mut ct = ct;
                let ghost ct_view = ct@;
                let ghost nonce_view = out@;
                out.append(&mut ct);
                proof {
                    assert(out@ =~= nonce_view + ct_view);
                    assert(out@.take(NONCE_LEN as int) =~= nonce_view);
                    assert(out@.skip(NONCE_LEN as int) =~= ct_view);
                }
                Ok(out)
            },
            Err(_) => Err(NetError::Cipher),
        }
    }

    /// Encrypts `plaintext` with AES-256-GCM under a fresh random nonce.
    /// The result is the 12-byte nonce followed by the ciphertext.
    pub fn encrypt(&self, plaintext: &[u8]) -> (res: Result<Vec<u8>, NetError>)
        requires
            self.key().len() == KEY_LEN,
        ensures
            res is Ok <==> plaintext@.len() <= MAX_PLAINTEXT_LEN,
            res matches Err(e) ==> e == NetError::Cipher,
            res matches Ok(out) ==> {
                &&& sealed(self.key(), plaintext@, out@)
                &&& opened(self.key(), out@) == Some(plaintext@)
            },
    {
        let nonce = random_bytes(NONCE_LEN);
        self.seal(nonce.as_slice(), plaintext)
    }

    /// Decrypts a frame made by `encrypt`: a 12-byte nonce followed by the ciphertext.
    pub fn decrypt(&self, data: &[u8]) -> (res: Result<Vec<u8>, NetError>)
        requires
            self.key().len() == KEY_LEN,
        ensures
            match res {
                Ok(pt) => opened(self.key(), data@) == Some(pt@),
                Err(NetError::CiphertextTooShort) => data@.len() < NONCE_LEN,
                Err(NetError::Cipher) => data@.len() >= NONCE_LEN && opened(self.key(), data@) is None,
            },
            data@.len() < NONCE_LEN + TAG_LEN ==> res is Err,
    {
        if data.len() < NONCE_LEN {
            return Err(NetError::CiphertextTooShort);
        }
        let (nonce, ct) = data.split_at(NONCE_LEN);
        match aes256gcm_decrypt(self.key.as_slice(), nonce, ct) {
            Ok(pt) => Ok(pt),
            Err(_) => Err(NetError::Cipher),
        }
    }
}

} // verus!
