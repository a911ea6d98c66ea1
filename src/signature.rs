use vstd::prelude::*;
use crate::err::TokenRingError;
use crate::serialize::{
    Serializable, starts_with_at, enc_byte_vec, byte_vec_fits, write_bytes, read_bytes,
    write_byte_vec, read_byte_vec, lemma_starts_with_concat, copy_bytes,
};

verus! {

/// The Ed25519 public key that belongs to a 32-byte secret key.
pub uninterp spec fn ed25519_public_of(secret: Seq<u8>) -> Seq<u8>;

/// The Ed25519 signature of `msg` under a 32-byte secret key.
pub uninterp spec fn ed25519_signature_of(secret: Seq<u8>, msg: Seq<u8>) -> Seq<u8>;

/// Ed25519 verification of `sig` over `msg` under the public key `public`.
pub uninterp spec fn ed25519_accepts(public: Seq<u8>, msg: Seq<u8>, sig: Seq<u8>) -> bool;

pub const PUBLIC_KEY_LENGTH: usize = 32;

pub const SIGNATURE_LENGTH: usize = 64;

/// Relies on `ed25519_dalek::SecretKey::generate` with the operating system's
/// random source: 32 fresh random bytes.
#[verifier::external_body]
fn random_secret_key() -> (r: Vec<u8>)
    ensures
        r@.len() == 32,
{
    ed25519_dalek::SecretKey::generate(&mut rand::rngs::OsRng).to_bytes().to_vec()
}

/// Relies on `ed25519_dalek::PublicKey::from(&SecretKey)`: the 32-byte public key of a secret key.
#[verifier::external_body]
fn derive_public_key(secret: &Vec<u8>) -> (r: Vec<u8>)
    requires
        secret@.len() == 32,
    ensures
        r@ == ed25519_public_of(secret@),
        r@.len() == 32,
{
    match ed25519_dalek::SecretKey::from_bytes(secret) {
        Ok(sk) => ed25519_dalek::PublicKey::from(&sk).to_bytes().to_vec(),
        Err(_) => Vec::new(),
    }
}

/// Relies on `ed25519_dalek::ExpandedSecretKey::sign`: a 64-byte signature that the
/// public key of the same secret key accepts over the same message.
#[verifier::external_body]
fn sign_bytes(secret: &Vec<u8>, public: &Vec<u8>, msg: &Vec<u8>) -> (r: Vec<u8>)
    requires
        secret@.len() == 32,
        public@ == ed25519_public_of(secret@),
    ensures
        r@ == ed25519_signature_of(secret@, msg@),
        r@.len() == 64,
        ed25519_accepts(ed25519_public_of(secret@), msg@, r@),
{
    match (ed25519_dalek::SecretKey::from_bytes(secret), ed25519_dalek::PublicKey::from_bytes(public)) {
        (Ok(sk), Ok(pk)) => ed25519_dalek::ExpandedSecretKey::from(&sk).sign(msg, &pk).to_bytes().to_vec(),
        _ => Vec::new(),
    }
}

/// Relies on `ed25519_dalek::PublicKey::verify` (after `PublicKey::from_bytes` and
/// `Signature::from_bytes`): whether the signature is valid; bytes that are no key or
/// no signature are rejected.
#[verifier::external_body]
fn verify_bytes(public: &Vec<u8>, msg: &Vec<u8>, sig: &Vec<u8>) -> (r: bool)
    ensures
        r == ed25519_accepts(public@, msg@, sig@),
{
    match (ed25519_dalek::PublicKey::from_bytes(public), ed25519_dalek::Signature::from_bytes(sig)) {
        (Ok(pk), Ok(s)) => ed25519_dalek::Verifier::verify(&pk, msg, &s).is_ok(),
        _ => false,
    }
}

/// An Ed25519 key pair, held as the secret key's bytes and the public key's bytes.
pub struct Keypair {
    secret: Vec<u8>,
    public: Vec<u8>,
}

impl Keypair {
    #[verifier::type_invariant]
    spec fn inv(self) -> bool {
        &&& self.secret@.len() == 32
        &&& self.public@.len() == 32
        &&& self.public@ == ed25519_public_of(self.secret@)
    }

    /// The public key.
    pub closed spec fn public_view(&self) -> Seq<u8> {
        self.public@
    }

    /// The secret key.
    pub closed spec fn secret_view(&self) -> Seq<u8> {
        self.secret@
    }

    /// The public key's bytes.
    pub fn public_key(&self) -> (r: Vec<u8>)
        ensures
            r@ == self.public_view(),
            r@ == ed25519_public_of(self.secret_view()),
            r@.len() == 32,
    {
        proof {
            use_type_invariant(self);
        }
        copy_bytes(&self.public)
    }
}

/// A fresh key pair from the operating system's random source.
pub fn generate_keypair() -> (r: Keypair)
    ensures
        r.public_view() == ed25519_public_of(r.secret_view()),
        r.secret_view().len() == 32,
{
    let secret = random_secret_key();
    let public = derive_public_key(&secret);
    Keypair { secret, public }
}

/// The abstract content of a signed envelope.
pub struct SignedView<V> {
    pub key: Seq<u8>,
    pub signature: Seq<u8>,
    pub val: V,
    pub val_bytes: Seq<u8>,
}

/// A value together with its encoding, the signer's public key and the signature
/// over exactly those bytes. The stored bytes are what is sent; an envelope whose `val`
/// was changed after signing no longer matches them and fails to encode.
#[derive(Debug, PartialEq)]
pub struct Signed<T> {
    key: Vec<u8>,
    signature: Vec<u8>,
    pub val: T,
    val_bytes: Vec<u8>,
}

impl<T: View> View for Signed<T> {
    type V = SignedView<T::V>;

    closed spec fn view(&self) -> SignedView<T::V> {
        SignedView { key: self.key@, signature: self.signature@, val: self.val@, val_bytes: self.val_bytes@ }
    }
}

/// An envelope whose signature verifies over its stored bytes.
pub open spec fn signed_accepts<V>(s: SignedView<V>) -> bool {
    ed25519_accepts(s.key, s.val_bytes, s.signature)
}

impl<T: View> Signed<T> {
    /// The signed value.
    pub fn value(&self) -> (r: &T)
        ensures
            r@ == self@.val,
    {
        &self.val
    }

    /// The signed value, taken out of the envelope.
    pub fn into_value(self) -> (r: T)
        ensures
            r@ == self@.val,
    {
        self.val
    }
}

impl<T: Serializable> Signed<T> {
    /// Encodes `val` once and signs those bytes; fails exactly when `val` has no encoding.
    pub fn new(keypair: &Keypair, val: T) -> (r: Result<Signed<T>, TokenRingError>)
        ensures
            r is Ok <==> T::wf_view(val@) && byte_vec_fits(T::encoding(val@)),
            r matches Ok(s) ==> {
                &&& s@.val == val@
                &&& s@.val_bytes == T::encoding(val@)
                &&& s@.key == keypair.public_view()
                &&& s@.signature == ed25519_signature_of(keypair.secret_view(), s@.val_bytes)
                &&& signed_accepts(s@)
                &&& Self::wf_view(s@)
            },
            r matches Err(e) ==> e is InvalidPacketHeader,
    {
        proof {
            use_type_invariant(keypair);
        }
        let mut val_bytes: Vec<u8> = Vec::new();
        val.write(&mut val_bytes)?;
        assert(val_bytes@ =~= T::encoding(val@));
        if val_bytes.len() > 65535 {
            return Err(TokenRingError::InvalidPacketHeader);
        }
        let signature = sign_bytes(&keypair.secret, &keypair.public, &val_bytes);
        Ok(Signed { key: copy_bytes(&keypair.public), signature, val, val_bytes })
    }

    /// Whether the stored signature verifies over the stored bytes under the stored key.
    pub fn verify(&self) -> (r: bool)
        ensures
            r == signed_accepts(self@),
    {
        verify_bytes(&self.key, &self.val_bytes, &self.signature)
    }
}

impl<T: Serializable> Serializable for Signed<T> {
    open spec fn wf_view(v: SignedView<T::V>) -> bool {
        &&& v.key.len() == PUBLIC_KEY_LENGTH
        &&& v.signature.len() == SIGNATURE_LENGTH
        &&& T::wf_view(v.val)
        &&& v.val_bytes == T::encoding(v.val)
        &&& byte_vec_fits(v.val_bytes)
    }

    open spec fn encoding(v: SignedView<T::V>) -> Seq<u8> {
        v.key + v.signature + enc_byte_vec(v.val_bytes)
    }

    fn write(&self, buf: &mut Vec<u8>) -> (r: Result<(), TokenRingError>) {
        let mut probe: Vec<u8> = Vec::new();
        let ok = self.val.write(&mut probe);
        if ok.is_err() || self.key.len() != PUBLIC_KEY_LENGTH || self.signature.len() != SIGNATURE_LENGTH
            || !bytes_equal(&probe, &self.val_bytes) {
            return Err(TokenRingError::InvalidPacketHeader);
        }
        assert(probe@ =~= T::encoding(self.val@));
        write_bytes(buf, self.key.as_slice());
        write_bytes(buf, self.signature.as_slice());
        write_byte_vec(buf, self.val_bytes.as_slice())?;
        assert(buf@ =~= old(buf)@ + Self::encoding(self@));
        Ok(())
    }

    fn read(buf: &[u8], pos: usize) -> (r: Result<(Signed<T>, usize), TokenRingError>) {
        let ghost b = buf@;
        proof {
            assert forall|m: SignedView<T::V>| Self::wf_view(m) && #[trigger] starts_with_at(b, pos as int, Self::encoding(m))
                implies starts_with_at(b, pos as int, m.key) && starts_with_at(b, pos + 32, m.signature)
                    && starts_with_at(b, pos + 96, enc_byte_vec(m.val_bytes)) by {
                lemma_starts_with_concat(b, pos as int, m.key + m.signature, enc_byte_vec(m.val_bytes));
                lemma_starts_with_concat(b, pos as int, m.key, m.signature);
            }
        }
        let (key, at1) = match read_bytes(buf, pos, PUBLIC_KEY_LENGTH) {
            Ok(x) => x,
            Err(e) => { return Err(e); },
        };
        let (signature, at2) = match read_bytes(buf, at1, SIGNATURE_LENGTH) {
            Ok(x) => x,
            Err(e) => { return Err(e); },
        };
        let (val_bytes, at3) = match read_byte_vec(buf, at2) {
            Ok(x) => x,
            Err(e) => { return Err(e); },
        };
        proof {
            assert forall|m: SignedView<T::V>| Self::wf_view(m) && #[trigger] starts_with_at(b, pos as int, Self::encoding(m))
                implies key@ == m.key && signature@ == m.signature && val_bytes@ == m.val_bytes
                    && starts_with_at(val_bytes@, 0, T::encoding(m.val)) by {
                assert(key@ =~= m.key);
                assert(signature@ =~= m.signature);
                assert(val_bytes@.subrange(0, val_bytes@.len() as int) =~= val_bytes@);
            }
        }
        let (val, at4) = match T::read(val_bytes.as_slice(), 0) {
            Ok(x) => x,
            Err(e) => { return Err(e); },
        };
        if at4 != val_bytes.len() {
            return Err(TokenRingError::InvalidPacketHeader);
        }
        let s = Signed { key, signature, val, val_bytes };
        proof {
            assert(s@.val_bytes.subrange(0, at4 as int) =~= s@.val_bytes);
            lemma_starts_with_concat(b, pos as int, key@, signature@);
            lemma_starts_with_concat(b, pos as int, key@ + signature@, enc_byte_vec(val_bytes@));
        }
        Ok((s, at3))
    }

    fn size(&self) -> (r: usize) {
        PUBLIC_KEY_LENGTH + SIGNATURE_LENGTH + 2 + self.val_bytes.len()
    }
}

impl Clone for Signed<crate::token::TokenHeader> {
    fn clone(&self) -> (r: Self)
        ensures
            r@ == self@,
    {
        Signed {
            key: copy_bytes(&self.key),
            signature: copy_bytes(&self.signature),
            val: self.val.clone(),
            val_bytes: copy_bytes(&self.val_bytes),
        }
    }
}

/// Byte-for-byte equality of two vectors.
pub fn bytes_equal(a: &Vec<u8>, b: &Vec<u8>) -> (r: bool)
    ensures
        r == (a@ == b@),
{
    if a.len() != b.len() {
        return false;
    }
    let mut i: usize = 0;
    while i < a.len()
        invariant
            a@.len() == b@.len(),
            i <= a@.len(),
            a@.subrange(0, i as int) == b@.subrange(0, i as int),
        decreases a@.len() - i,
    {
        if a[i] != b[i] {
            assert(a@[i as int] != b@[i as int]);
            return false;
        }
        assert(a@.subrange(0, i + 1) =~= a@.subrange(0, i as int).push(a@[i as int]));
        assert(b@.subrange(0, i + 1) =~= b@.subrange(0, i as int).push(b@[i as int]));
        i = i + 1;
    }
    assert(a@ =~= a@.subrange(0, i as int));
    assert(b@ =~= b@.subrange(0, i as int));
    true
}

} // verus!
