//! Record content types, plaintext and protected records, and the errors
//! that record processing reports.
use vstd::prelude::*;

verus! {

/// Largest plaintext fragment a record may carry.
pub const MAX_FRAGMENT_LEN: usize = 16384;

/// The legacy version written in the header of every protected record.
pub const TLS12_VERSION: u16 = 0x0303;

/// The version given to records recovered from TLS 1.3 protection.
pub const TLS13_VERSION: u16 = 0x0304;

/// The content type of a record.
#[derive(Clone, Copy, Debug, PartialEq, Eq, Structural)]
pub enum ContentType {
    ChangeCipherSpec,
    Alert,
    Handshake,
    ApplicationData,
    Heartbeat,
    Unknown(u8),
}

impl ContentType {
    pub open spec fn byte(self) -> u8 {
        match self {
            ContentType::ChangeCipherSpec => 20,
            ContentType::Alert => 21,
            ContentType::Handshake => 22,
            ContentType::ApplicationData => 23,
            ContentType::Heartbeat => 24,
            ContentType::Unknown(b) => b,
        }
    }

    pub open spec fn from_byte(b: u8) -> ContentType {
        if b == 20 {
            ContentType::ChangeCipherSpec
        } else if b == 21 {
            ContentType::Alert
        } else if b == 22 {
            ContentType::Handshake
        } else if b == 23 {
            ContentType::ApplicationData
        } else if b == 24 {
            ContentType::Heartbeat
        } else {
            ContentType::Unknown(b)
        }
    }

    /// A value that decoding its own byte gives back: `Unknown` only holds
    /// bytes that name no known type.
    pub open spec fn is_canonical(self) -> bool {
        ContentType::from_byte(self.byte()) == self
    }

    /// The wire byte of this content type.
    pub fn get_u8(&self) -> (r: u8)
        ensures
            r == self.byte(),
    {
        match self {
            ContentType::ChangeCipherSpec => 20,
            ContentType::Alert => 21,
            ContentType::Handshake => 22,
            ContentType::ApplicationData => 23,
            ContentType::Heartbeat => 24,
            ContentType::Unknown(b) => *b,
        }
    }

    /// Decodes a wire byte.
    pub fn read_u8(b: u8) -> (r: ContentType)
        ensures
            r == ContentType::from_byte(b),
            r.is_canonical(),
    {
        if b == 20 {
            ContentType::ChangeCipherSpec
        } else if b == 21 {
            ContentType::Alert
        } else if b == 22 {
            ContentType::Handshake
        } else if b == 23 {
            ContentType::ApplicationData
        } else if b == 24 {
            ContentType::Heartbeat
        } else {
            ContentType::Unknown(b)
        }
    }
}

/// Errors of record framing and record protection.
#[derive(Clone, Copy, Debug, PartialEq, Eq, Structural)]
pub enum Error {
    /// Sealing a record failed.
    EncryptError,
    /// A record did not authenticate; the cause is deliberately not told.
    DecryptError,
    /// A decrypted record is larger than a fragment may be.
    PeerSentOversizedRecord,
    /// A decrypted record holds no content type: it is all zeros.
    IllegalTlsInnerPlaintext,
    /// A record header names no known content type.
    InvalidContentType,
    /// A record header names a version outside the TLS family.
    UnknownProtocolVersion,
    /// A record header declares a payload longer than any legal record.
    MessageTooLarge,
    /// A record other than application data declares an empty payload.
    InvalidEmptyPayload,
    /// The epoch has sealed as many records as its key may protect.
    EncryptionLimitReached,
    /// The epoch has seen as many failed decryptions as its key may bear.
    DecryptionLimitReached,
    /// No sequence number is left in the epoch.
    SequenceExhausted,
    /// A record arrived that the connection does not expect in its state.
    UnexpectedMessage,
    /// The peer sent more early data than it was allowed.
    TooMuchEarlyDataReceived,
}

/// A record in the clear.
pub struct PlainMessage {
    pub typ: ContentType,
    pub version: u16,
    pub payload: Vec<u8>,
}

/// A record as it travels on the wire, its payload possibly protected.
pub struct OpaqueMessage {
    pub typ: ContentType,
    pub version: u16,
    pub payload: Vec<u8>,
}

/// Index of the last non-zero byte of `s`, if any.
pub open spec fn last_nonzero(s: Seq<u8>) -> Option<int>
    decreases s.len(),
{
    if s.len() == 0 {
        None
    } else if s.last() != 0 {
        Some(s.len() - 1)
    } else {
        last_nonzero(s.drop_last())
    }
}

/// What a decrypted TLS 1.3 inner plaintext stands for: the content, then
/// the content-type byte, then zero padding.
pub open spec fn unpad_spec(inner: Seq<u8>) -> Result<(ContentType, Seq<u8>), Error> {
    if inner.len() > MAX_FRAGMENT_LEN + 1 {
        Err(Error::PeerSentOversizedRecord)
    } else {
        match last_nonzero(inner) {
            None => Err(Error::IllegalTlsInnerPlaintext),
            Some(k) => if k > MAX_FRAGMENT_LEN {
                Err(Error::PeerSentOversizedRecord)
            } else {
                Ok((ContentType::from_byte(inner[k]), inner.subrange(0, k)))
            },
        }
    }
}

/// A record ending in a non-zero byte has that byte as its last non-zero one.
pub proof fn lemma_last_nonzero_of_push(s: Seq<u8>, b: u8)
    requires
        b != 0,
    ensures
        last_nonzero(s.push(b)) == Some(s.len() as int),
{
    assert(s.push(b).last() == b);
}

/// Strips the zero padding of a decrypted inner plaintext and recovers its
/// content type.
pub fn into_tls13_unpadded_message(payload: Vec<u8>) -> (r: Result<PlainMessage, Error>)
    ensures
        match r {
            Ok(m) => unpad_spec(payload@) == Ok::<(ContentType, Seq<u8>), Error>((m.typ, m.payload@))
                && m.version == TLS13_VERSION && m.payload@.len() < payload@.len(),
            Err(e) => unpad_spec(payload@) == Err::<(ContentType, Seq<u8>), Error>(e),
        },
{
    if payload.len() > MAX_FRAGMENT_LEN + 1 {
        return Err(Error::PeerSentOversizedRecord);
    }
    let ghost orig = payload@;
    let mut payload = payload;
    let mut typ: u8 = 0;
    while payload.len() > 0 && typ == 0
        invariant
            payload@ == orig.subrange(0, payload@.len() as int),
            payload@.len() <= orig.len(),
            typ == 0 ==> last_nonzero(orig) == last_nonzero(payload@),
            typ != 0 ==> last_nonzero(orig) == Some(payload@.len() as int) && typ == orig[payload@.len() as int],
            typ != 0 ==> payload@.len() < orig.len(),
        decreases payload.len(),
    {
        let ghost before = payload@;
        let b = payload.pop().unwrap();
        assert(payload@ == before.drop_last());
        assert(before.last() == b);
        assert(payload@ =~= orig.subrange(0, payload@.len() as int));
        typ = b;
    }
    if typ == 0 {
        assert(last_nonzero(payload@) == None::<int>);
        return Err(Error::IllegalTlsInnerPlaintext);
    }
    if payload.len() > MAX_FRAGMENT_LEN {
        return Err(Error::PeerSentOversizedRecord);
    }
    Ok(PlainMessage { typ: ContentType::read_u8(typ), version: TLS13_VERSION, payload })
}

} // verus!
