//! Per-direction record protection state: the current epoch's sealer and
//! opener, their sequence numbers, and the limits on how much one key may
//! be used.
use vstd::prelude::*;
use crate::aead::{
    encrypted_len, protect_spec, unprotect_spec, Tls13MessageDecrypter, Tls13MessageEncrypter,
    TAG_LEN,
};
use crate::message::{ContentType, Error, OpaqueMessage, PlainMessage, TLS12_VERSION};

verus! {

/// The sequence numbers `0..n`, in order.
pub open spec fn first_seqs(n: nat) -> Seq<u64> {
    Seq::new(n, |i: int| i as u64)
}

/// Record protection for both directions of a connection.
pub struct RecordLayer {
    pub encrypter: Option<Tls13MessageEncrypter>,
    pub decrypter: Option<Tls13MessageDecrypter>,
    /// Sequence number of the next record to seal.
    pub write_seq: u64,
    /// Sequence number of the next record to open.
    pub read_seq: u64,
    /// Records the write epoch's key may seal.
    pub confidentiality_limit: u64,
    /// Failed openings the read epoch's key may bear.
    pub integrity_limit: u64,
    /// Failed openings so far in the read epoch.
    pub failed_decrypts: u64,
    /// Sequence numbers sealed under in the write epoch, in order.
    pub sealed_seqs: Ghost<Seq<u64>>,
}

impl RecordLayer {
    /// Sequence numbers sealed under are exactly `0..write_seq`, in order.
    pub open spec fn wf(&self) -> bool {
        &&& self.sealed_seqs@ == first_seqs(self.write_seq as nat)
        &&& self.write_seq <= self.confidentiality_limit
        &&& self.failed_decrypts <= self.integrity_limit
        &&& self.encrypter matches Some(e) ==> e.wf()
        &&& self.decrypter matches Some(d) ==> d.wf()
    }

    /// A record layer with no keys: records pass in the clear.
    pub fn new() -> (r: RecordLayer)
        ensures
            r.wf(),
            r.encrypter is None,
            r.decrypter is None,
            r.write_seq == 0,
            r.read_seq == 0,
    {
        let r = RecordLayer {
            encrypter: None,
            decrypter: None,
            write_seq: 0,
            read_seq: 0,
            confidentiality_limit: 0,
            integrity_limit: 0,
            failed_decrypts: 0,
            sealed_seqs: Ghost(Seq::empty()),
        };
        assert(r.sealed_seqs@ =~= first_seqs(0));
        r
    }

    /// Starts a new write epoch sealing with `enc`, at most `limit` records.
    pub fn set_message_encrypter(&mut self, enc: Tls13MessageEncrypter, limit: u64)
        requires
            old(self).wf(),
            enc.wf(),
        ensures
            final(self).wf(),
            final(self).encrypter == Some(enc),
            final(self).write_seq == 0,
            final(self).confidentiality_limit == limit,
            final(self).decrypter == old(self).decrypter,
            final(self).read_seq == old(self).read_seq,
            final(self).failed_decrypts == old(self).failed_decrypts,
            final(self).integrity_limit == old(self).integrity_limit,
    {
        self.encrypter = Some(enc);
        self.write_seq = 0;
        self.confidentiality_limit = limit;
        self.sealed_seqs = Ghost(Seq::empty());
        assert(self.sealed_seqs@ =~= first_seqs(0));
    }

    /// Starts a new read epoch opening with `dec`, bearing at most `limit`
    /// failed openings.
    pub fn set_message_decrypter(&mut self, dec: Tls13MessageDecrypter, limit: u64)
        requires
            old(self).wf(),
            dec.wf(),
        ensures
            final(self).wf(),
            final(self).decrypter == Some(dec),
            final(self).read_seq == 0,
            final(self).failed_decrypts == 0,
            final(self).integrity_limit == limit,
            final(self).encrypter == old(self).encrypter,
            final(self).write_seq == old(self).write_seq,
            final(self).sealed_seqs == old(self).sealed_seqs,
            final(self).confidentiality_limit == old(self).confidentiality_limit,
    {
        self.decrypter = Some(dec);
        self.read_seq = 0;
        self.failed_decrypts = 0;
        self.integrity_limit = limit;
    }

    /// Whether the write epoch may seal another record.
    pub open spec fn may_encrypt(&self) -> bool {
        self.write_seq < self.confidentiality_limit
    }

    /// Seals one record under the write epoch's next sequence number.
    /// Fails, changing nothing, once the epoch's limit is reached or when
    /// the payload is longer than the cipher can seal at once.
    pub fn encrypt_outgoing(&mut self, typ: ContentType, payload: &[u8]) -> (r: Result<
        OpaqueMessage,
        Error,
    >)
        requires
            old(self).wf(),
            old(self).encrypter is Some,
            payload@.len() + 1 + TAG_LEN <= usize::MAX,
        ensures
            final(self).wf(),
            final(self).encrypter == old(self).encrypter,
            final(self).decrypter == old(self).decrypter,
            final(self).read_seq == old(self).read_seq,
            final(self).failed_decrypts == old(self).failed_decrypts,
            final(self).confidentiality_limit == old(self).confidentiality_limit,
            final(self).integrity_limit == old(self).integrity_limit,
            !old(self).may_encrypt() ==> r == Err::<OpaqueMessage, Error>(
                Error::EncryptionLimitReached,
            ) && final(self).write_seq == old(self).write_seq && final(self).sealed_seqs
                == old(self).sealed_seqs,
            old(self).may_encrypt() && payload@.len() + 1 <= old(self).encrypter->Some_0.alg.seal_limit()
                ==> r is Ok && final(self).write_seq == old(self).write_seq + 1
                && final(self).sealed_seqs@ == old(self).sealed_seqs@.push(old(self).write_seq),
            old(self).may_encrypt() && payload@.len() + 1 > old(self).encrypter->Some_0.alg.seal_limit()
                ==> r == Err::<OpaqueMessage, Error>(Error::EncryptError) && final(self).write_seq
                == old(self).write_seq && final(self).sealed_seqs == old(self).sealed_seqs,
            r matches Ok(m) ==> m.typ == ContentType::ApplicationData && m.version == TLS12_VERSION && m.payload@ == ({
                let e = old(self).encrypter->Some_0;
                protect_spec(e.alg, e.key@, e.iv@, old(self).write_seq, typ, payload@)
            }) && m.payload@.len() == encrypted_len(payload@.len()),
    {
        if self.write_seq >= self.confidentiality_limit {
            return Err(Error::EncryptionLimitReached);
        }
        let seq = self.write_seq;
        let r = match &self.encrypter {
            Some(enc) => enc.encrypt(typ, payload, seq),
            None => Err(Error::EncryptError),
        };
        if r.is_ok() {
            self.write_seq = seq + 1;
            self.sealed_seqs = Ghost(self.sealed_seqs@.push(seq));
            assert(self.sealed_seqs@ =~= first_seqs(self.write_seq as nat));
        }
        r
    }

    /// Opens one record under the read epoch's next sequence number; with
    /// no read epoch the record is taken as plaintext. A failed opening is
    /// counted against the epoch's limit; once the limit is reached nothing
    /// more is opened.
    pub fn decrypt_incoming(&mut self, msg: OpaqueMessage) -> (r: Result<PlainMessage, Error>)
        requires
            old(self).wf(),
        ensures
            final(self).wf(),
            final(self).encrypter == old(self).encrypter,
            final(self).decrypter == old(self).decrypter,
            final(self).write_seq == old(self).write_seq,
            final(self).sealed_seqs == old(self).sealed_seqs,
            final(self).confidentiality_limit == old(self).confidentiality_limit,
            final(self).integrity_limit == old(self).integrity_limit,
            old(self).decrypter is None ==> r is Ok && r->Ok_0.typ == msg.typ && r->Ok_0.version
                == msg.version && r->Ok_0.payload@ == msg.payload@ && final(self).read_seq == old(
                self,
            ).read_seq && final(self).failed_decrypts == old(self).failed_decrypts,
            old(self).decrypter matches Some(d) ==> {
                let spec_r = unprotect_spec(d.alg, d.key@, d.iv@, old(self).read_seq, msg.payload@);
                if old(self).failed_decrypts >= old(self).integrity_limit {
                    r == Err::<PlainMessage, Error>(Error::DecryptionLimitReached)
                        && final(self).read_seq == old(self).read_seq
                        && final(self).failed_decrypts == old(self).failed_decrypts
                } else if old(self).read_seq == u64::MAX {
                    r == Err::<PlainMessage, Error>(Error::SequenceExhausted)
                        && final(self).read_seq == old(self).read_seq
                        && final(self).failed_decrypts == old(self).failed_decrypts
                } else {
                    match spec_r {
                        Ok((typ, payload)) => r is Ok && r->Ok_0.typ == typ && r->Ok_0.payload@
                            == payload && final(self).read_seq == old(self).read_seq + 1
                            && final(self).failed_decrypts == old(self).failed_decrypts,
                        Err(e) => r == Err::<PlainMessage, Error>(e) && final(self).read_seq
                            == old(self).read_seq && final(self).failed_decrypts == old(
                            self,
                        ).failed_decrypts + 1,
                    }
                }
            },
    {
        match &self.decrypter {
            None => Ok(PlainMessage { typ: msg.typ, version: msg.version, payload: msg.payload }),
            Some(dec) => {
                if self.failed_decrypts >= self.integrity_limit {
                    return Err(Error::DecryptionLimitReached);
                }
                if self.read_seq == u64::MAX {
                    return Err(Error::SequenceExhausted);
                }
                let r = dec.decrypt(msg, self.read_seq);
                if r.is_ok() {
                    self.read_seq = self.read_seq + 1;
                } else {
                    self.failed_decrypts = self.failed_decrypts + 1;
                }
                r
            },
        }
    }
}

/// In a well-formed record layer the write epoch has sealed under each of
/// the sequence numbers `0..write_seq` exactly once, in increasing order,
/// and under no other.
pub proof fn lemma_sequence_numbers_unique(rl: &RecordLayer)
    requires
        rl.wf(),
    ensures
        rl.sealed_seqs@.len() == rl.write_seq,
        forall|i: int| 0 <= i < rl.sealed_seqs@.len() ==> #[trigger] rl.sealed_seqs@[i] == i,
        forall|i: int, j: int|
            0 <= i < j < rl.sealed_seqs@.len() ==> #[trigger] rl.sealed_seqs@[i]
                < #[trigger] rl.sealed_seqs@[j],
{
}

} // verus!
