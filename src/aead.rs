//! TLS 1.3 record protection with the AEAD ciphers of *ring*: sealing a
//! plaintext record into an application-data record and opening it again.
use vstd::prelude::*;
use crate::bytes::copy_bytes;
use crate::cipher::{aad_of, make_tls13_aad, nonce_of, Iv, Nonce};
use crate::message::{
    lemma_last_nonzero_of_push, unpad_spec, into_tls13_unpadded_message, ContentType, Error,
    OpaqueMessage, PlainMessage, MAX_FRAGMENT_LEN, TLS12_VERSION, TLS13_VERSION,
};

verus! {

/// Length of the authentication tag of every supported cipher.
pub const TAG_LEN: usize = 16;


/// The AEAD ciphers that record protection can use.
#[derive(Clone, Copy, Debug, PartialEq, Eq, Structural)]
pub enum AeadAlgorithm {
    Aes128Gcm,
    Aes256Gcm,
    Chacha20Poly1305,
}

/// What sealing `plain` gives: ciphertext followed by the tag.
pub uninterp spec fn sealed(
    alg: AeadAlgorithm,
    key: Seq<u8>,
    nonce: Seq<u8>,
    aad: Seq<u8>,
    plain: Seq<u8>,
) -> Seq<u8>;

/// What opening `ciphertext` gives: the plaintext, or nothing when it does
/// not authenticate.
pub uninterp spec fn opened(
    alg: AeadAlgorithm,
    key: Seq<u8>,
    nonce: Seq<u8>,
    aad: Seq<u8>,
    ciphertext: Seq<u8>,
) -> Option<Seq<u8>>;

/// Relies on ring::aead::LessSafeKey::seal_in_place_append_tag (the key made
/// with UnboundKey::new, which accepts a key of the algorithm's length): the
/// buffer is encrypted in place and the 16-byte tag appended. It fails if
/// and only if the input is longer than the algorithm's limit
/// (`MAX_IN_OUT_LEN` of ring's AES-GCM and ChaCha20-Poly1305 modules).
#[verifier::external_body]
fn seal_in_place(
    alg: AeadAlgorithm,
    key: &[u8],
    nonce: &[u8; 12],
    aad: &[u8; 5],
    in_out: &mut Vec<u8>,
) -> (r: bool)
    requires
        key@.len() == alg.key_len_spec(),
    ensures
        r == (old(in_out)@.len() <= alg.seal_limit()),
        r ==> final(in_out)@ == sealed(alg, key@, nonce@, aad@, old(in_out)@),
        r ==> final(in_out)@.len() == old(in_out)@.len() + TAG_LEN,
{
    let ring_alg = match alg {
        AeadAlgorithm::Aes128Gcm => &ring::aead::AES_128_GCM,
        AeadAlgorithm::Aes256Gcm => &ring::aead::AES_256_GCM,
        AeadAlgorithm::Chacha20Poly1305 => &ring::aead::CHACHA20_POLY1305,
    };
    let k = ring::aead::LessSafeKey::new(ring::aead::UnboundKey::new(ring_alg, key).unwrap());
    let n = ring::aead::Nonce::assume_unique_for_key(*nonce);
    k.seal_in_place_append_tag(n, ring::aead::Aad::from(*aad), in_out).is_ok()
}

/// Relies on ring::aead::LessSafeKey::open_in_place (the key made with
/// UnboundKey::new): on success the plaintext, 16 bytes shorter than the
/// input, stands at the front of the buffer; a buffer shorter than a tag
/// fails; what was sealed under the same key, nonce and additional data
/// opens to what was sealed.
#[verifier::external_body]
fn open_in_place(
    alg: AeadAlgorithm,
    key: &[u8],
    nonce: &[u8; 12],
    aad: &[u8; 5],
    in_out: &mut Vec<u8>,
) -> (r: Option<usize>)
    requires
        key@.len() == alg.key_len_spec(),
    ensures
        final(in_out)@.len() == old(in_out)@.len(),
        match opened(alg, key@, nonce@, aad@, old(in_out)@) {
            Some(p) => r == Some(p.len() as usize) && final(in_out)@.subrange(0, p.len() as int) == p
                && p.len() + TAG_LEN == old(in_out)@.len(),
            None => r is None,
        },
        old(in_out)@.len() < TAG_LEN ==> r is None,
        forall|p: Seq<u8>|
            #[trigger] sealed(alg, key@, nonce@, aad@, p) == old(in_out)@ ==> r == Some(p.len() as usize)
                && final(in_out)@.subrange(0, p.len() as int) == p,
{
    let ring_alg = match alg {
        AeadAlgorithm::Aes128Gcm => &ring::aead::AES_128_GCM,
        AeadAlgorithm::Aes256Gcm => &ring::aead::AES_256_GCM,
        AeadAlgorithm::Chacha20Poly1305 => &ring::aead::CHACHA20_POLY1305,
    };
    let k = ring::aead::LessSafeKey::new(ring::aead::UnboundKey::new(ring_alg, key).unwrap());
    let n = ring::aead::Nonce::assume_unique_for_key(*nonce);
    k.open_in_place(n, ring::aead::Aad::from(*aad), in_out.as_mut_slice()).ok().map(|p| p.len())
}

impl AeadAlgorithm {
    /// Longest plaintext that one sealing accepts.
    pub open spec fn seal_limit(self) -> nat {
        match self {
            AeadAlgorithm::Chacha20Poly1305 => 274_877_906_880,
            _ => 68_719_476_704,
        }
    }

    pub open spec fn confidentiality_limit_spec(self) -> u64 {
        match self {
            AeadAlgorithm::Chacha20Poly1305 => u64::MAX,
            _ => 0x80_0000,
        }
    }

    pub open spec fn integrity_limit_spec(self) -> u64 {
        match self {
            AeadAlgorithm::Chacha20Poly1305 => 0x10_0000_0000,
            _ => 0x10_0000_0000_0000,
        }
    }

    /// How many records one key of this cipher may seal: 2^23 for AES-GCM,
    /// unbounded in practice for ChaCha20-Poly1305.
    pub fn confidentiality_limit(&self) -> (r: u64)
        ensures
            r == self.confidentiality_limit_spec(),
    {
        match self {
            AeadAlgorithm::Chacha20Poly1305 => u64::MAX,
            _ => 0x80_0000,
        }
    }

    /// How many failed openings one key of this cipher may bear: 2^52 for
    /// AES-GCM, 2^36 for ChaCha20-Poly1305.
    pub fn integrity_limit(&self) -> (r: u64)
        ensures
            r == self.integrity_limit_spec(),
    {
        match self {
            AeadAlgorithm::Chacha20Poly1305 => 0x10_0000_0000,
            _ => 0x10_0000_0000_0000,
        }
    }

    pub open spec fn key_len_spec(self) -> nat {
        match self {
            AeadAlgorithm::Aes128Gcm => 16,
            _ => 32,
        }
    }

    /// Length of this cipher's key, in bytes.
    pub fn key_len(&self) -> (r: usize)
        ensures
            r == self.key_len_spec(),
    {
        match self {
            AeadAlgorithm::Aes128Gcm => 16,
            _ => 32,
        }
    }

    /// A record sealer for one epoch.
    pub fn encrypter(&self, key: AeadKey, iv: Iv) -> (r: Tls13MessageEncrypter)
        requires
            key@.len() == self.key_len_spec(),
        ensures
            r.alg == *self,
            r.key@ == key@,
            r.iv@ == iv@,
            r.wf(),
    {
        Tls13MessageEncrypter { alg: *self, key, iv }
    }

    /// A record opener for one epoch.
    pub fn decrypter(&self, key: AeadKey, iv: Iv) -> (r: Tls13MessageDecrypter)
        requires
            key@.len() == self.key_len_spec(),
        ensures
            r.alg == *self,
            r.key@ == key@,
            r.iv@ == iv@,
            r.wf(),
    {
        Tls13MessageDecrypter { alg: *self, key, iv }
    }

    /// Hands out the key and IV of an epoch, tagged with their cipher.
    pub fn extract_keys(&self, key: AeadKey, iv: Iv) -> (r: ConnectionTrafficSecrets)
        ensures
            r == (match *self {
                AeadAlgorithm::Aes128Gcm => ConnectionTrafficSecrets::Aes128Gcm { key, iv },
                AeadAlgorithm::Aes256Gcm => ConnectionTrafficSecrets::Aes256Gcm { key, iv },
                AeadAlgorithm::Chacha20Poly1305 => ConnectionTrafficSecrets::Chacha20Poly1305 {
                    key,
                    iv,
                },
            }),
    {
        match self {
            AeadAlgorithm::Aes128Gcm => ConnectionTrafficSecrets::Aes128Gcm { key, iv },
            AeadAlgorithm::Aes256Gcm => ConnectionTrafficSecrets::Aes256Gcm { key, iv },
            AeadAlgorithm::Chacha20Poly1305 => ConnectionTrafficSecrets::Chacha20Poly1305 { key, iv },
        }
    }
}

/// Key material of one epoch.
pub struct AeadKey {
    pub bytes: Vec<u8>,
}

impl AeadKey {
    pub open spec fn view(&self) -> Seq<u8> {
        self.bytes@
    }

    pub fn new(bytes: Vec<u8>) -> (r: AeadKey)
        ensures
            r@ == bytes@,
    {
        AeadKey { bytes }
    }
}

/// The secrets of an epoch, named by the cipher they are for.
pub enum ConnectionTrafficSecrets {
    Aes128Gcm { key: AeadKey, iv: Iv },
    Aes256Gcm { key: AeadKey, iv: Iv },
    Chacha20Poly1305 { key: AeadKey, iv: Iv },
}

/// Length of the protected payload for a plaintext of `payload_len` bytes:
/// the content, its type byte and the tag.
pub open spec fn encrypted_len(payload_len: nat) -> nat {
    payload_len + 1 + TAG_LEN as nat
}

/// The protected payload of a record: the content followed by its type
/// byte, sealed under the nonce for `seq` and the header as additional data.
pub open spec fn protect_spec(
    alg: AeadAlgorithm,
    key: Seq<u8>,
    iv: Seq<u8>,
    seq: u64,
    typ: ContentType,
    payload: Seq<u8>,
) -> Seq<u8> {
    sealed(alg, key, nonce_of(iv, seq), aad_of(encrypted_len(payload.len())), payload.push(typ.byte()))
}

/// The outcome of opening a protected payload: the content type and
/// content, or the error.
pub open spec fn unprotect_spec(
    alg: AeadAlgorithm,
    key: Seq<u8>,
    iv: Seq<u8>,
    seq: u64,
    payload: Seq<u8>,
) -> Result<(ContentType, Seq<u8>), Error> {
    if payload.len() < TAG_LEN {
        Err(Error::DecryptError)
    } else {
        match opened(alg, key, nonce_of(iv, seq), aad_of(payload.len()), payload) {
            None => Err(Error::DecryptError),
            Some(inner) => unpad_spec(inner),
        }
    }
}

/// Seals records of one epoch.
pub struct Tls13MessageEncrypter {
    pub alg: AeadAlgorithm,
    pub key: AeadKey,
    pub iv: Iv,
}

impl Tls13MessageEncrypter {
    pub open spec fn wf(&self) -> bool {
        self.key@.len() == self.alg.key_len_spec() && self.iv@.len() == 12
    }

    /// Protects `payload`, a record of type `typ`, under sequence number
    /// `seq`.
    pub fn encrypt(&self, typ: ContentType, payload: &[u8], seq: u64) -> (r: Result<
        OpaqueMessage,
        Error,
    >)
        requires
            self.wf(),
            payload@.len() + 1 + TAG_LEN <= usize::MAX,
        ensures
            r is Ok <==> payload@.len() + 1 <= self.alg.seal_limit(),
            match r {
                Ok(m) => m.typ == ContentType::ApplicationData && m.version == TLS12_VERSION
                    && m.payload@ == protect_spec(self.alg, self.key@, self.iv@, seq, typ, payload@)
                    && m.payload@.len() == encrypted_len(payload@.len()),
                Err(e) => e == Error::EncryptError,
            },
    {
        let total_len = self.encrypted_payload_len(payload.len());
        let mut buf: Vec<u8> = copy_bytes(payload);
        buf.push(typ.get_u8());
        let nonce = Nonce::new(&self.iv, seq);
        let aad = make_tls13_aad(total_len);
        if seal_in_place(self.alg, self.key.bytes.as_slice(), &nonce.0, &aad, &mut buf) {
            Ok(OpaqueMessage { typ: ContentType::ApplicationData, version: TLS12_VERSION, payload: buf })
        } else {
            Err(Error::EncryptError)
        }
    }

    /// Length of the protected payload for `payload_len` bytes of content.
    pub fn encrypted_payload_len(&self, payload_len: usize) -> (r: usize)
        requires
            payload_len + 1 + TAG_LEN <= usize::MAX,
        ensures
            r == encrypted_len(payload_len as nat),
    {
        payload_len + 1 + TAG_LEN
    }
}

/// Opens records of one epoch.
pub struct Tls13MessageDecrypter {
    pub alg: AeadAlgorithm,
    pub key: AeadKey,
    pub iv: Iv,
}

impl Tls13MessageDecrypter {
    pub open spec fn wf(&self) -> bool {
        self.key@.len() == self.alg.key_len_spec() && self.iv@.len() == 12
    }

    /// Opens the protected record `msg` under sequence number `seq`.
    pub fn decrypt(&self, msg: OpaqueMessage, seq: u64) -> (r: Result<PlainMessage, Error>)
        requires
            self.wf(),
        ensures
            match r {
                Ok(m) => unprotect_spec(self.alg, self.key@, self.iv@, seq, msg.payload@) == Ok::<
                    (ContentType, Seq<u8>),
                    Error,
                >((m.typ, m.payload@)) && m.version == TLS13_VERSION,
                Err(e) => unprotect_spec(self.alg, self.key@, self.iv@, seq, msg.payload@) == Err::<
                    (ContentType, Seq<u8>),
                    Error,
                >(e),
            },
            r is Ok ==> r->Ok_0.payload@.len() + TAG_LEN + 1 <= msg.payload@.len(),
            forall|typ: ContentType, p: Seq<u8>|
                #[trigger] protect_spec(self.alg, self.key@, self.iv@, seq, typ, p) == msg.payload@
                    && msg.payload@.len() == encrypted_len(p.len()) && typ.byte() != 0 && p.len()
                    <= MAX_FRAGMENT_LEN ==> r is Ok && r->Ok_0.typ == ContentType::from_byte(
                    typ.byte(),
                ) && r->Ok_0.payload@ == p,
    {
        let ghost ct = msg.payload@;
        let mut payload = msg.payload;
        if payload.len() < TAG_LEN {
            return Err(Error::DecryptError);
        }
        let nonce = Nonce::new(&self.iv, seq);
        let aad = make_tls13_aad(payload.len());
        let ghost nonce_v = nonce.0@;
        let ghost aad_v = aad@;
        let opened_len = open_in_place(
            self.alg,
            self.key.bytes.as_slice(),
            &nonce.0,
            &aad,
            &mut payload,
        );
        let r = match opened_len {
            None => Err(Error::DecryptError),
            Some(plain_len) => {
                payload.truncate(plain_len);
                into_tls13_unpadded_message(payload)
            },
        };
        proof {
            assert forall|typ: ContentType, p: Seq<u8>|
                #[trigger] protect_spec(self.alg, self.key@, self.iv@, seq, typ, p) == ct
                    && ct.len() == encrypted_len(p.len()) && typ.byte() != 0 && p.len()
                    <= MAX_FRAGMENT_LEN implies r is Ok && r->Ok_0.typ == ContentType::from_byte(
                    typ.byte(),
                ) && r->Ok_0.payload@ == p by {
                let inner = p.push(typ.byte());
                assert(sealed(self.alg, self.key@, nonce_v, aad_v, inner) == ct);
                lemma_last_nonzero_of_push(p, typ.byte());
                assert(inner.subrange(0, p.len() as int) =~= p);
                assert(inner[p.len() as int] == typ.byte());
            }
        }
        r
    }
}

} // verus!
