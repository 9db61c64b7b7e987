//! Key derivation for record protection: HKDF extract and expand, and
//! HMAC, over *ring*'s hash functions.
use vstd::prelude::*;
use crate::bytes::copy_bytes;

verus! {

/// Longest key material an `OkmBlock` holds.
pub const OKM_MAX_LEN: usize = 64;

/// Longest key or message that HMAC accepts: *ring* panics only when the
/// bit length of what a hash absorbs (the input plus one block) overflows
/// 64 bits, that is from about 2^61 bytes on.
pub const MAX_HMAC_INPUT: u64 = 0x1FFF_FFFF_FFFF_FF00;

/// Hash functions that key derivation can use.
#[derive(Clone, Copy, Debug, PartialEq, Eq, Structural)]
pub enum HashAlgorithm {
    Sha256,
    Sha384,
}

impl HashAlgorithm {
    pub open spec fn output_len(self) -> nat {
        match self {
            HashAlgorithm::Sha256 => 32,
            HashAlgorithm::Sha384 => 48,
        }
    }

    /// Length of this hash's output, in bytes.
    pub fn len(&self) -> (r: usize)
        ensures
            r == self.output_len(),
    {
        match self {
            HashAlgorithm::Sha256 => 32,
            HashAlgorithm::Sha384 => 48,
        }
    }
}

/// The HMAC of `msg` under `key`.
pub uninterp spec fn hmac_tag(alg: HashAlgorithm, key: Seq<u8>, msg: Seq<u8>) -> Seq<u8>;

/// The first `len` bytes of HKDF-Expand of `prk` with the info string
/// `info`.
pub uninterp spec fn hkdf_expanded(alg: HashAlgorithm, prk: Seq<u8>, info: Seq<u8>, len: nat) -> Seq<u8>;

/// The info string that a list of pieces stands for: their concatenation.
pub open spec fn info_view(info: Seq<&[u8]>) -> Seq<u8> {
    info.map_values(|s: &[u8]| s@).flatten()
}

/// The info string is short enough for HMAC to absorb it together with one
/// previous output block and the counter byte.
pub open spec fn info_fits(info: Seq<&[u8]>) -> bool {
    info_view(info).len() + 2 * OKM_MAX_LEN <= MAX_HMAC_INPUT
}

/// Relies on ring::hmac::sign, with the key made by ring::hmac::Key::new:
/// the tag is as long as the hash output.
#[verifier::external_body]
fn hmac_sign_bytes(alg: HashAlgorithm, key: &[u8], msg: &[u8]) -> (r: Vec<u8>)
    requires
        key@.len() <= MAX_HMAC_INPUT,
        msg@.len() <= MAX_HMAC_INPUT,
    ensures
        r@ == hmac_tag(alg, key@, msg@),
        r@.len() == alg.output_len(),
{
    let ring_alg = match alg {
        HashAlgorithm::Sha256 => ring::hmac::HMAC_SHA256,
        HashAlgorithm::Sha384 => ring::hmac::HMAC_SHA384,
    };
    ring::hmac::sign(&ring::hmac::Key::new(ring_alg, key), msg).as_ref().to_vec()
}

/// Relies on ring::hkdf::Prk::expand and Okm::fill, with the PRK made by
/// ring::hkdf::Prk::new_less_safe: expansion fails if and only if more than
/// 255 hash outputs are asked for, before anything is written, and
/// otherwise fills the whole output. The info pieces are fed to HMAC one
/// after the other, so only their concatenation matters.
#[verifier::external_body]
fn expand_into(alg: HashAlgorithm, prk: &[u8], info: &[&[u8]], out: &mut [u8]) -> (r: bool)
    requires
        prk@.len() <= MAX_HMAC_INPUT,
        info_fits(info@),
    ensures
        final(out)@.len() == old(out)@.len(),
        r == (old(out)@.len() <= 255 * alg.output_len()),
        !r ==> final(out)@ == old(out)@,
        r ==> final(out)@ == hkdf_expanded(alg, prk@, info_view(info@), old(out)@.len()),
{
    let ring_alg = match alg {
        HashAlgorithm::Sha256 => ring::hkdf::HKDF_SHA256,
        HashAlgorithm::Sha384 => ring::hkdf::HKDF_SHA384,
    };
    let prk = ring::hkdf::Prk::new_less_safe(ring_alg, prk);
    prk.expand(info, Len(out.len())).and_then(|okm| okm.fill(out)).is_ok()
}

/// An output length handed to HKDF-Expand.
pub struct Len(pub usize);

impl ring::hkdf::KeyType for Len {
    fn len(&self) -> usize {
        self.0
    }
}

/// Key material of at most `OKM_MAX_LEN` bytes produced by expansion.
pub struct OkmBlock {
    pub bytes: Vec<u8>,
}

impl OkmBlock {
    pub open spec fn view(&self) -> Seq<u8> {
        self.bytes@
    }

    pub open spec fn wf(&self) -> bool {
        self.bytes@.len() <= OKM_MAX_LEN
    }

    pub fn new(bytes: &[u8]) -> (r: OkmBlock)
        requires
            bytes@.len() <= OKM_MAX_LEN,
        ensures
            r@ == bytes@,
            r.wf(),
    {
        OkmBlock { bytes: copy_bytes(bytes) }
    }
}

/// An HMAC tag.
pub struct Tag {
    pub bytes: Vec<u8>,
}

impl Tag {
    pub open spec fn view(&self) -> Seq<u8> {
        self.bytes@
    }
}

/// Expansion was asked for more output than HKDF can give.
#[derive(Clone, Copy, Debug, PartialEq, Eq, Structural)]
pub struct OutputLengthError;

/// `n` zero bytes.
pub open spec fn zeros(n: nat) -> Seq<u8> {
    Seq::new(n, |i: int| 0u8)
}

/// The salt that stands for a missing one: a hash output's length of zeros.
pub open spec fn salt_or_zeros(alg: HashAlgorithm, salt: Option<Seq<u8>>) -> Seq<u8> {
    match salt {
        Some(s) => s,
        None => zeros(alg.output_len()),
    }
}

pub open spec fn opt_view(salt: Option<&[u8]>) -> Option<Seq<u8>> {
    match salt {
        Some(s) => Some(s@),
        None => None,
    }
}

fn zero_bytes(n: usize) -> (r: Vec<u8>)
    ensures
        r@ == zeros(n as nat),
{
    let r: Vec<u8> = vec![0u8; n];
    assert(r@ =~= zeros(n as nat));
    r
}

/// HKDF and HMAC over one hash function.
pub struct RingHkdf {
    pub alg: HashAlgorithm,
}

impl RingHkdf {
    /// HKDF-Extract with an all-zero input key material as long as a hash
    /// output; a missing salt is zeros of that length too. The zeros go
    /// through the same extraction as a real secret does.
    pub fn extract_from_zero_ikm(&self, salt: Option<&[u8]>) -> (r: RingHkdfExpander)
        requires
            salt matches Some(s) ==> s@.len() <= MAX_HMAC_INPUT,
        ensures
            r.alg == self.alg,
            r.prk@ == hmac_tag(
                self.alg,
                salt_or_zeros(self.alg, opt_view(salt)),
                zeros(self.alg.output_len()),
            ),
            r.wf(),
    {
        let zeroes = zero_bytes(self.alg.len());
        let prk = match salt {
            Some(s) => hmac_sign_bytes(self.alg, s, zeroes.as_slice()),
            None => hmac_sign_bytes(self.alg, zeroes.as_slice(), zeroes.as_slice()),
        };
        RingHkdfExpander { alg: self.alg, prk }
    }

    /// HKDF-Extract of `secret`; a missing salt is a hash output's length
    /// of zeros.
    pub fn extract_from_secret(&self, salt: Option<&[u8]>, secret: &[u8]) -> (r: RingHkdfExpander)
        requires
            salt matches Some(s) ==> s@.len() <= MAX_HMAC_INPUT,
            secret@.len() <= MAX_HMAC_INPUT,
        ensures
            r.alg == self.alg,
            r.prk@ == hmac_tag(self.alg, salt_or_zeros(self.alg, opt_view(salt)), secret@),
            r.wf(),
    {
        let prk = match salt {
            Some(s) => hmac_sign_bytes(self.alg, s, secret),
            None => {
                let zeroes = zero_bytes(self.alg.len());
                hmac_sign_bytes(self.alg, zeroes.as_slice(), secret)
            },
        };
        RingHkdfExpander { alg: self.alg, prk }
    }

    /// An expander whose pseudorandom key is `okm` itself.
    pub fn expander_for_okm(&self, okm: &OkmBlock) -> (r: RingHkdfExpander)
        requires
            okm.wf(),
        ensures
            r.alg == self.alg,
            r.prk@ == okm@,
            r.wf(),
    {
        RingHkdfExpander { alg: self.alg, prk: okm.bytes.clone() }
    }

    /// The HMAC of `message` keyed with `key`.
    pub fn hmac_sign(&self, key: &OkmBlock, message: &[u8]) -> (r: Tag)
        requires
            key.wf(),
            message@.len() <= MAX_HMAC_INPUT,
        ensures
            r@ == hmac_tag(self.alg, key@, message@),
            r@.len() == self.alg.output_len(),
    {
        Tag { bytes: hmac_sign_bytes(self.alg, key.bytes.as_slice(), message) }
    }
}

/// HKDF-Expand from one pseudorandom key.
pub struct RingHkdfExpander {
    pub alg: HashAlgorithm,
    pub prk: Vec<u8>,
}

impl RingHkdfExpander {
    pub open spec fn wf(&self) -> bool {
        self.prk@.len() <= OKM_MAX_LEN
    }

    /// Fills `output` with expanded key material; fails, leaving `output`
    /// as it was, when it is longer than 255 hash outputs.
    pub fn expand_slice(&self, info: &[&[u8]], output: &mut [u8]) -> (r: Result<(), OutputLengthError>)
        requires
            self.wf(),
            info_fits(info@),
        ensures
            final(output)@.len() == old(output)@.len(),
            r is Err ==> final(output)@ == old(output)@,
            r is Ok <==> old(output)@.len() <= 255 * self.alg.output_len(),
            r is Ok ==> final(output)@ == hkdf_expanded(
                self.alg,
                self.prk@,
                info_view(info@),
                old(output)@.len(),
            ),
    {
        if expand_into(self.alg, self.prk.as_slice(), info, output) {
            Ok(())
        } else {
            Err(OutputLengthError)
        }
    }

    /// Expanded key material as long as one hash output.
    pub fn expand_block(&self, info: &[&[u8]]) -> (r: OkmBlock)
        requires
            self.wf(),
            info_fits(info@),
        ensures
            r@ == hkdf_expanded(self.alg, self.prk@, info_view(info@), self.alg.output_len()),
            r@.len() == self.alg.output_len(),
            r.wf(),
    {
        let mut buf: Vec<u8> = zero_bytes(self.hash_len());
        let ok = expand_into(self.alg, self.prk.as_slice(), info, buf.as_mut_slice());
        assert(ok);
        OkmBlock { bytes: buf }
    }

    /// Length of one hash output.
    pub fn hash_len(&self) -> (r: usize)
        ensures
            r == self.alg.output_len(),
    {
        self.alg.len()
    }
}

} // verus!
