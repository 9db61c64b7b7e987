//! Nonce and additional-data construction for TLS 1.3 record protection.
use vstd::prelude::*;

verus! {

/// Length of an AEAD nonce (and of a record-protection IV), in bytes.
pub const NONCE_LEN: usize = 12;

/// Length of the TLS 1.3 additional data: the record header.
pub const AAD_LEN: usize = 5;

/// Content-type byte of an application-data record.
pub const APPLICATION_DATA_BYTE: u8 = 0x17;

/// The byte `j` (0 = most significant) of `seq` written big-endian.
pub open spec fn seq_byte(seq: u64, j: int) -> u8 {
    (seq >> (((7 - j) * 8) as u64)) as u8
}

/// The per-record nonce: the IV with the sequence number, big-endian,
/// XORed into its last eight bytes.
pub open spec fn nonce_of(iv: Seq<u8>, seq: u64) -> Seq<u8> {
    Seq::new(
        NONCE_LEN as nat,
        |i: int|
            if i < 4 {
                iv[i]
            } else {
                iv[i] ^ seq_byte(seq, i - 4)
            },
    )
}

/// The TLS 1.3 additional data for a record whose protected payload is
/// `len` bytes long: the header of an application-data record.
pub open spec fn aad_of(len: nat) -> Seq<u8> {
    seq![APPLICATION_DATA_BYTE, 0x03u8, 0x03u8, ((len / 256) % 256) as u8, (len % 256) as u8]
}

/// The fixed per-epoch value that nonces are derived from.
pub struct Iv(pub [u8; 12]);

impl Iv {
    pub open spec fn view(&self) -> Seq<u8> {
        self.0@
    }

    pub fn new(value: [u8; 12]) -> (r: Iv)
        ensures
            r@ == value@,
    {
        Iv(value)
    }
}

/// A per-record nonce.
pub struct Nonce(pub [u8; 12]);

impl Nonce {
    /// Combines `iv` with the record sequence number `seq`.
    pub fn new(iv: &Iv, seq: u64) -> (r: Nonce)
        ensures
            r.0@ == nonce_of(iv@, seq),
    {
        let mut nonce: [u8; 12] = iv.0;
        let mut j: usize = 0;
        while j < 8
            invariant
                j <= 8,
                nonce@.len() == NONCE_LEN,
                iv@.len() == NONCE_LEN,
                forall|i: int| 0 <= i < 4 + j ==> nonce@[i] == #[trigger] nonce_of(iv@, seq)[i],
                forall|i: int| 4 + j <= i < NONCE_LEN ==> nonce@[i] == iv@[i],
            decreases 8 - j,
        {
            let shift: u64 = ((7 - j) * 8) as u64;
            let b: u8 = (seq >> shift) as u8;
            let cur: u8 = nonce[4 + j];
            nonce[4 + j] = cur ^ b;
            j = j + 1;
        }
        assert(nonce@ =~= nonce_of(iv@, seq));
        Nonce(nonce)
    }
}

/// The additional data for a protected record of `payload_len` bytes.
pub fn make_tls13_aad(payload_len: usize) -> (r: [u8; 5])
    ensures
        r@ == aad_of(payload_len as nat),
{
    let r: [u8; 5] = [
        APPLICATION_DATA_BYTE,
        0x03u8,
        0x03u8,
        ((payload_len / 256) % 256) as u8,
        (payload_len % 256) as u8,
    ];
    assert(r@ =~= aad_of(payload_len as nat));
    r
}

} // verus!
