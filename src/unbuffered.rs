//! The buffer-driven connection: each call is handed the caller's whole
//! incoming buffer and answers with what the caller must do next and how
//! many leading bytes it may now discard. The connection never reads or
//! writes anything itself and never grows a buffer; where a destination is
//! too small it says by exactly how much.
use vstd::prelude::*;
use crate::aead::{
    encrypted_len, protect_spec, unprotect_spec, Tls13MessageDecrypter, Tls13MessageEncrypter, TAG_LEN,
};
use crate::bytes::copy_bytes;
use crate::deframer::{
    deframe, frames_whole, lemma_deframe_bytes, lemma_deframe_consumed_le, lemma_deframe_restart, lemma_deframe_step,
    lemma_frames_whole_extend, read_record, record_bytes, wire_bytes, write_record, MessageDeframer,
    RecordView, HEADER_SIZE,
};
use crate::message::{ContentType, Error, OpaqueMessage, MAX_FRAGMENT_LEN, TLS12_VERSION};
use crate::record_layer::RecordLayer;

verus! {

/// The payload of a close-notify alert: level warning, description
/// close_notify.
pub open spec fn close_notify_payload() -> Seq<u8> {
    seq![1u8, 0u8]
}

/// Writing `needed` bytes into room for `available`: the length written,
/// or by how many bytes the room falls short.
pub open spec fn size_outcome(needed: nat, available: nat) -> Result<nat, nat> {
    if available >= needed {
        Ok(needed)
    } else {
        Err((needed - available) as nat)
    }
}

/// A destination found too short by `r` bytes and grown by exactly `r`
/// bytes is large enough on the retry.
pub proof fn lemma_grow_by_shortfall(needed: nat, available: nat)
    requires
        size_outcome(needed, available) is Err,
    ensures
        size_outcome(needed, available + size_outcome(needed, available)->Err_0) == Ok::<
            nat,
            nat,
        >(needed),
{
}

/// Bytes on the wire of one sealed record with `len` bytes of content.
pub open spec fn sealed_record_len(len: nat) -> nat {
    HEADER_SIZE as nat + encrypted_len(len)
}

/// Decrypted application data, and the bytes of the incoming buffer that
/// the caller may discard once it has taken this record.
pub struct AppDataRecord {
    pub discard: usize,
    pub payload: Vec<u8>,
}

/// Sum of the discard amounts of `recs`.
pub open spec fn discard_sum(recs: Seq<AppDataRecord>) -> int
    decreases recs.len(),
{
    if recs.len() == 0 {
        0
    } else {
        discard_sum(recs.drop_last()) + recs.last().discard
    }
}

/// What the caller must do next.
pub enum ConnectionState {
    /// No complete record is buffered: read more bytes.
    NeedsMoreTlsData,
    /// A record waits to be written out with `encode_tls_data`.
    MustEncodeTlsData,
    /// Encoded records must reach the peer; then call `done_transmitting`.
    MustTransmitTlsData,
    /// Application data was decrypted.
    AppDataAvailable(Vec<AppDataRecord>),
    /// Early data was decrypted.
    EarlyDataAvailable(Vec<AppDataRecord>),
    /// Keys are in place and nothing is pending: application data may be
    /// encrypted, and more bytes may be read.
    TrafficTransit,
    /// The connection is over.
    ConnectionClosed,
}

impl ConnectionState {
    /// The data records the state hands out.
    pub open spec fn records(&self) -> Seq<AppDataRecord> {
        match self {
            ConnectionState::AppDataAvailable(v) => v@,
            ConnectionState::EarlyDataAvailable(v) => v@,
            _ => Seq::empty(),
        }
    }
}

/// The outcome of one `process_tls_records` call.
pub struct UnbufferedStatus {
    pub discard: usize,
    pub state: ConnectionState,
}

impl UnbufferedStatus {
    /// Everything the caller may discard after acting on the state.
    pub open spec fn total_discard(&self) -> int {
        self.discard + discard_sum(self.state.records())
    }
}

/// Why a record could not be encrypted into the caller's buffer.
#[derive(Clone, Copy, Debug, PartialEq, Eq, Structural)]
pub enum EncryptError {
    /// The destination is this many bytes too short.
    InsufficientSize(usize),
    /// The write epoch refused to seal.
    Record(Error),
    /// The early data would go beyond what the peer allows.
    ExceededAllowedEarlyData,
}

/// Why a pending record could not be encoded.
#[derive(Clone, Copy, Debug, PartialEq, Eq, Structural)]
pub enum EncodeError {
    /// The destination is this many bytes too short.
    InsufficientSize(usize),
    /// No record is waiting to be encoded.
    AlreadyEncoded,
    /// The write epoch refused to seal.
    Record(Error),
}

/// A record queued for encoding.
pub struct PendingRecord {
    pub typ: ContentType,
    pub payload: Vec<u8>,
}

/// The payload of the `i`-th record opened in a read epoch.
pub open spec fn opened_payload(d: Tls13MessageDecrypter, seq: int, ct: Seq<u8>) -> Seq<u8> {
    unprotect_spec(d.alg, d.key@, d.iv@, seq as u64, ct)->Ok_0.1
}

/// What sealing `data` as a record of type `typ` into `out` does: it fails,
/// changing nothing, when `out` is too short (saying by how much) or the
/// write epoch is spent; otherwise it writes the protected record at the
/// front of `out` and moves the write epoch to its next sequence number.
pub open spec fn sealed_into(
    pre: UnbufferedConnection,
    post: UnbufferedConnection,
    typ: ContentType,
    data: Seq<u8>,
    out_pre: Seq<u8>,
    out_post: Seq<u8>,
    r: Result<usize, EncryptError>,
) -> bool {
    let rl = pre.record_layer;
    match size_outcome(sealed_record_len(data.len()), out_pre.len()) {
        Err(k) => r == Err::<usize, EncryptError>(EncryptError::InsufficientSize(k as usize))
            && post == pre && out_post == out_pre,
        Ok(n) => if !rl.may_encrypt() {
            r == Err::<usize, EncryptError>(EncryptError::Record(Error::EncryptionLimitReached))
                && post == pre && out_post == out_pre
        } else {
            let e = rl.encrypter->Some_0;
            &&& r == Ok::<usize, EncryptError>(n as usize)
            &&& out_post.subrange(0, n as int) == wire_bytes(
                ContentType::ApplicationData,
                TLS12_VERSION,
                protect_spec(e.alg, e.key@, e.iv@, rl.write_seq, typ, data),
            )
            &&& post.record_layer.write_seq == rl.write_seq + 1
            &&& post.record_layer.sealed_seqs@ == rl.sealed_seqs@.push(rl.write_seq)
            &&& post.record_layer.encrypter == rl.encrypter
            &&& post.record_layer.decrypter == rl.decrypter
            &&& post.record_layer.read_seq == rl.read_seq
            &&& post.pending == pre.pending
            &&& post.must_transmit == pre.must_transmit
            &&& post.peer_closed == pre.peer_closed
            &&& post.closed == pre.closed
            &&& post.max_early_data_size == pre.max_early_data_size
            &&& post.early_data_sent == pre.early_data_sent
            &&& post.early_data_received == pre.early_data_received
            &&& post.receiving_early_data == pre.receiving_early_data
        },
    }
}

/// Length of the first record's share of `n` bytes of data.
pub open spec fn first_fragment_len(n: nat) -> nat {
    if n <= MAX_FRAGMENT_LEN {
        n
    } else {
        MAX_FRAGMENT_LEN as nat
    }
}

/// Number of records that carry `n` bytes of data.
pub open spec fn fragment_count(n: nat) -> nat
    decreases n,
{
    if n == 0 {
        0
    } else {
        1 + fragment_count((n - first_fragment_len(n)) as nat)
    }
}

/// Bytes on the wire for `n` bytes of data sealed in records of at most
/// a fragment each.
pub open spec fn fragmented_len(n: nat) -> nat
    decreases n,
{
    if n == 0 {
        0
    } else {
        sealed_record_len(first_fragment_len(n)) + fragmented_len(
            (n - first_fragment_len(n)) as nat,
        )
    }
}

/// The records that carry `data`, cut into fragments and sealed under
/// sequence numbers counting up from `seq`, as they appear on the wire.
pub open spec fn sealed_fragments(
    e: Tls13MessageEncrypter,
    seq: int,
    typ: ContentType,
    data: Seq<u8>,
) -> Seq<u8>
    decreases data.len(),
{
    if data.len() == 0 {
        Seq::empty()
    } else {
        let k = first_fragment_len(data.len()) as int;
        wire_bytes(
            ContentType::ApplicationData,
            TLS12_VERSION,
            protect_spec(e.alg, e.key@, e.iv@, seq as u64, typ, data.take(k)),
        ) + sealed_fragments(e, seq + 1, typ, data.skip(k))
    }
}

proof fn lemma_fragmented_len_bound(n: nat)
    ensures
        fragmented_len(n) <= 2 * n + HEADER_SIZE + 1 + TAG_LEN,
    decreases n,
{
    if n > 0 {
        lemma_fragmented_len_bound((n - first_fragment_len(n)) as nat);
    }
}

/// What sending `data` as records of type `typ` into `out` does: it fails,
/// changing nothing, when `out` is too short (saying by how much) or the
/// write epoch cannot seal that many records; otherwise it writes all the
/// records at the front of `out` and moves the write epoch past their
/// sequence numbers.
pub open spec fn sent_fragments(
    pre: UnbufferedConnection,
    post: UnbufferedConnection,
    typ: ContentType,
    data: Seq<u8>,
    out_pre: Seq<u8>,
    out_post: Seq<u8>,
    r: Result<usize, EncryptError>,
) -> bool {
    let rl = pre.record_layer;
    match size_outcome(fragmented_len(data.len()), out_pre.len()) {
        Err(k) => r == Err::<usize, EncryptError>(EncryptError::InsufficientSize(k as usize))
            && post == pre && out_post == out_pre,
        Ok(n) => if rl.write_seq + fragment_count(data.len()) > rl.confidentiality_limit {
            r == Err::<usize, EncryptError>(EncryptError::Record(Error::EncryptionLimitReached))
                && post == pre && out_post == out_pre
        } else {
            &&& r == Ok::<usize, EncryptError>(n as usize)
            &&& out_post.take(n as int) == sealed_fragments(
                rl.encrypter->Some_0,
                rl.write_seq as int,
                typ,
                data,
            )
            &&& post.record_layer.write_seq == rl.write_seq + fragment_count(data.len())
            &&& post.record_layer.encrypter == rl.encrypter
            &&& post.record_layer.decrypter == rl.decrypter
            &&& post.record_layer.read_seq == rl.read_seq
            &&& post.pending == pre.pending
            &&& post.must_transmit == pre.must_transmit
            &&& post.peer_closed == pre.peer_closed
            &&& post.closed == pre.closed
            &&& post.max_early_data_size == pre.max_early_data_size
            &&& post.early_data_sent == pre.early_data_sent
            &&& post.early_data_received == pre.early_data_received
            &&& post.receiving_early_data == pre.receiving_early_data
        },
    }
}

/// The outcome of opening the `i`-th record of a batch once the `i` before
/// it were opened: first the read epoch's limits, then the cipher.
pub open spec fn open_at(c0: UnbufferedConnection, recs: Seq<RecordView>, i: int) -> Result<
    (ContentType, Seq<u8>),
    Error,
> {
    let rl = c0.record_layer;
    let d = rl.decrypter->Some_0;
    if rl.failed_decrypts >= rl.integrity_limit {
        Err(Error::DecryptionLimitReached)
    } else if rl.read_seq + i == u64::MAX {
        Err(Error::SequenceExhausted)
    } else {
        unprotect_spec(d.alg, d.key@, d.iv@, (rl.read_seq + i) as u64, recs[i].2)
    }
}

/// Bytes of data in the first `n` records of a batch once opened.
pub open spec fn data_len_sum(c0: UnbufferedConnection, recs: Seq<RecordView>, n: int) -> int
    decreases n,
{
    if n <= 0 {
        0
    } else {
        data_len_sum(c0, recs, n - 1) + open_at(c0, recs, n - 1)->Ok_0.1.len()
    }
}

/// The `i`-th record of a batch opens to application data that stays
/// within the early-data allowance when early data is being received.
pub open spec fn opens_as_data(c0: UnbufferedConnection, recs: Seq<RecordView>, i: int) -> bool {
    &&& open_at(c0, recs, i) is Ok
    &&& open_at(c0, recs, i)->Ok_0.0 == ContentType::ApplicationData
    &&& c0.receiving_early_data ==> c0.early_data_received + data_len_sum(c0, recs, i + 1)
        <= c0.max_early_data_size
}

/// The first `n` records of a batch all open as data.
pub open spec fn good_prefix(c0: UnbufferedConnection, recs: Seq<RecordView>, n: int) -> bool
    decreases n,
{
    if n <= 0 {
        true
    } else {
        good_prefix(c0, recs, n - 1) && opens_as_data(c0, recs, n - 1)
    }
}

/// An opened record is a close-notify alert.
pub open spec fn is_close_notify(o: (ContentType, Seq<u8>)) -> bool {
    o.0 == ContentType::Alert && o.1 == close_notify_payload()
}

proof fn lemma_good_prefix_mono(c0: UnbufferedConnection, recs: Seq<RecordView>, n: int, m: int)
    requires
        good_prefix(c0, recs, n),
        0 <= m <= n,
    ensures
        good_prefix(c0, recs, m),
        m < n ==> opens_as_data(c0, recs, m),
    decreases n,
{
    if m < n {
        lemma_good_prefix_mono(c0, recs, n - 1, m);
    }
}

/// A batch whose first `j` records open as data and whose `j`-th does
/// not stops there: no other record is the first to fail, and the batch
/// is not all data.
proof fn lemma_stops_at(c0: UnbufferedConnection, recs: Seq<RecordView>, j: int)
    requires
        0 <= j < recs.len(),
        good_prefix(c0, recs, j),
        !opens_as_data(c0, recs, j),
    ensures
        forall|i: int|
            0 <= i < recs.len() && #[trigger] good_prefix(c0, recs, i) && !opens_as_data(c0, recs, i)
                ==> i == j,
        !good_prefix(c0, recs, recs.len() as int),
{
    assert forall|i: int|
        0 <= i < recs.len() && #[trigger] good_prefix(c0, recs, i) && !opens_as_data(c0, recs, i)
            implies i == j by {
        if i < j {
            lemma_good_prefix_mono(c0, recs, j, i);
        }
        if i > j {
            lemma_good_prefix_mono(c0, recs, i, j);
        }
    }
    if good_prefix(c0, recs, recs.len() as int) {
        lemma_good_prefix_mono(c0, recs, recs.len() as int, j);
    }
}

/// When all `n` records of a batch open as data, none is the first to
/// fail.
proof fn lemma_all_good(c0: UnbufferedConnection, recs: Seq<RecordView>, n: int)
    requires
        n == recs.len(),
        good_prefix(c0, recs, n),
    ensures
        forall|i: int|
            0 <= i < recs.len() && #[trigger] good_prefix(c0, recs, i) ==> opens_as_data(
                c0,
                recs,
                i,
            ),
{
    assert forall|i: int| 0 <= i < recs.len() && #[trigger] good_prefix(c0, recs, i) implies opens_as_data(
        c0,
        recs,
        i,
    ) by {
        lemma_good_prefix_mono(c0, recs, n, i);
    }
}

/// A connection whose record protection is in place.
pub struct UnbufferedConnection {
    pub record_layer: RecordLayer,
    pub pending: Vec<PendingRecord>,
    pub must_transmit: bool,
    pub peer_closed: bool,
    pub closed: bool,
    pub max_early_data_size: usize,
    pub early_data_sent: usize,
    pub early_data_received: usize,
    /// Data records now arriving are early data.
    pub receiving_early_data: bool,
}

impl UnbufferedConnection {
    pub open spec fn wf(&self) -> bool {
        &&& self.record_layer.wf()
        &&& self.record_layer.encrypter is Some
        &&& self.record_layer.decrypter is Some
        &&& forall|i: int|
            0 <= i < self.pending@.len() ==> #[trigger] self.pending@[i].payload@.len()
                <= MAX_FRAGMENT_LEN
        &&& self.early_data_sent <= self.max_early_data_size
        &&& self.early_data_received <= self.max_early_data_size
    }

    /// A connection over `record_layer`, allowing at most
    /// `max_early_data_size` bytes of early data in each direction.
    pub fn new(record_layer: RecordLayer, max_early_data_size: usize, receiving_early_data: bool) -> (r:
        UnbufferedConnection)
        requires
            record_layer.wf(),
            record_layer.encrypter is Some,
            record_layer.decrypter is Some,
        ensures
            r.wf(),
            r.record_layer == record_layer,
            r.pending@.len() == 0,
            !r.must_transmit && !r.peer_closed && !r.closed,
            r.max_early_data_size == max_early_data_size,
            r.early_data_sent == 0 && r.early_data_received == 0,
            r.receiving_early_data == receiving_early_data,
    {
        UnbufferedConnection {
            record_layer,
            pending: Vec::new(),
            must_transmit: false,
            peer_closed: false,
            closed: false,
            max_early_data_size,
            early_data_sent: 0,
            early_data_received: 0,
            receiving_early_data,
        }
    }

    /// Seals `data` as one record of type `typ` into the front of `out`.
    fn seal_into(&mut self, typ: ContentType, data: &[u8], out: &mut [u8]) -> (r: Result<
        usize,
        EncryptError,
    >)
        requires
            old(self).wf(),
            data@.len() <= MAX_FRAGMENT_LEN,
        ensures
            final(self).wf(),
            final(out)@.len() == old(out)@.len(),
            sealed_into(*old(self), *final(self), typ, data@, old(out)@, final(out)@, r),
    {
        let needed = HEADER_SIZE + data.len() + 1 + TAG_LEN;
        if out.len() < needed {
            return Err(EncryptError::InsufficientSize(needed - out.len()));
        }
        if self.record_layer.write_seq >= self.record_layer.confidentiality_limit {
            return Err(EncryptError::Record(Error::EncryptionLimitReached));
        }
        match self.record_layer.encrypt_outgoing(typ, data) {
            Ok(m) => {
                let n = write_record(m.typ, m.version, m.payload.as_slice(), out, 0);
                Ok(n)
            },
            Err(e) => Err(EncryptError::Record(e)),
        }
    }
    /// Seals `data` as records of type `typ`, a fragment each, into the
    /// front of `out`.
    fn seal_fragments(&mut self, typ: ContentType, data: &[u8], out: &mut [u8]) -> (r: Result<
        usize,
        EncryptError,
    >)
        requires
            old(self).wf(),
            2 * data@.len() + HEADER_SIZE + 1 + TAG_LEN <= usize::MAX,
        ensures
            final(self).wf(),
            final(out)@.len() == old(out)@.len(),
            sent_fragments(*old(self), *final(self), typ, data@, old(out)@, final(out)@, r),
    {
        let len = data.len();
        proof {
            lemma_fragmented_len_bound(len as nat);
        }
        let mut needed: usize = 0;
        let mut count: u64 = 0;
        let mut rem: usize = len;
        while rem > 0
            invariant
                rem <= len,
                needed + fragmented_len(rem as nat) == fragmented_len(len as nat),
                count + fragment_count(rem as nat) == fragment_count(len as nat),
                fragmented_len(len as nat) <= usize::MAX,
                count <= len - rem,
            decreases rem,
        {
            let k: usize = if rem <= MAX_FRAGMENT_LEN {
                rem
            } else {
                MAX_FRAGMENT_LEN
            };
            needed = needed + HEADER_SIZE + k + 1 + TAG_LEN;
            count = count + 1;
            rem = rem - k;
        }
        if out.len() < needed {
            return Err(EncryptError::InsufficientSize(needed - out.len()));
        }
        if count > self.record_layer.confidentiality_limit - self.record_layer.write_seq {
            return Err(EncryptError::Record(Error::EncryptionLimitReached));
        }
        let ghost pre = *self;
        let ghost out_pre = out@;
        let ghost e = self.record_layer.encrypter->Some_0;
        let ghost seq0 = self.record_layer.write_seq as int;
        let mut i: usize = 0;
        let mut w: usize = 0;
        assert(data@.skip(0) =~= data@);
        assert(out@.take(0) + sealed_fragments(e, seq0, typ, data@) =~= sealed_fragments(
            e,
            seq0,
            typ,
            data@,
        ));
        while i < len
            invariant
                self.wf(),
                i <= len == data@.len(),
                out@.len() == out_pre.len(),
                out_pre.len() >= needed,
                needed == fragmented_len(len as nat),
                w + fragmented_len((len - i) as nat) == needed,
                self.record_layer.write_seq + fragment_count((len - i) as nat)
                    <= self.record_layer.confidentiality_limit,
                self.record_layer.write_seq + fragment_count((len - i) as nat) == seq0
                    + fragment_count(len as nat),
                out@.take(w as int) + sealed_fragments(
                    e,
                    self.record_layer.write_seq as int,
                    typ,
                    data@.skip(i as int),
                ) == sealed_fragments(e, seq0, typ, data@),
                self.record_layer.encrypter == pre.record_layer.encrypter,
                self.record_layer.encrypter == Some(e),
                self.record_layer.decrypter == pre.record_layer.decrypter,
                self.record_layer.read_seq == pre.record_layer.read_seq,
                self.pending == pre.pending,
                self.must_transmit == pre.must_transmit,
                self.peer_closed == pre.peer_closed,
                self.closed == pre.closed,
                self.max_early_data_size == pre.max_early_data_size,
                self.early_data_sent == pre.early_data_sent,
                self.early_data_received == pre.early_data_received,
                self.receiving_early_data == pre.receiving_early_data,
            decreases len - i,
        {
            let k: usize = if len - i <= MAX_FRAGMENT_LEN {
                len - i
            } else {
                MAX_FRAGMENT_LEN
            };
            let ghost rest = data@.skip(i as int);
            let ghost seq = self.record_layer.write_seq as int;
            let piece = vstd::slice::slice_subrange(data, i, i + k);
            assert(piece@ =~= rest.take(k as int));
            assert(rest.skip(k as int) =~= data@.skip((i + k) as int));
            let m = match self.record_layer.encrypt_outgoing(typ, piece) {
                Ok(m) => m,
                Err(e) => {
                    return Err(EncryptError::Record(e));
                },
            };
            let ghost out_before = out@;
            let n = write_record(m.typ, m.version, m.payload.as_slice(), out, w);
            proof {
                let wire = wire_bytes(m.typ, m.version, m.payload@);
                assert(out@.take(w + n) =~= out_before.take(w as int) + wire);
                assert(out@.take(w + n) + sealed_fragments(e, seq + 1, typ, data@.skip((i + k) as int))
                    =~= out_before.take(w as int) + sealed_fragments(e, seq, typ, rest));
            }
            w = w + n;
            i = i + k;
        }
        assert(data@.skip(len as int).len() == 0);
        assert(out@.take(w as int) =~= sealed_fragments(e, seq0, typ, data@));
        Ok(w)
    }

    /// Encrypts `data` as application data into the front of `out`, in
    /// records of at most a fragment each; on success returns the bytes
    /// written. Either every record is written or nothing changes.
    pub fn encrypt_app_data(&mut self, data: &[u8], out: &mut [u8]) -> (r: Result<usize, EncryptError>)
        requires
            old(self).wf(),
            2 * data@.len() + HEADER_SIZE + 1 + TAG_LEN <= usize::MAX,
        ensures
            final(self).wf(),
            final(out)@.len() == old(out)@.len(),
            sent_fragments(
                *old(self),
                *final(self),
                ContentType::ApplicationData,
                data@,
                old(out)@,
                final(out)@,
                r,
            ),
    {
        self.seal_fragments(ContentType::ApplicationData, data, out)
    }

    /// Encrypts `data` as early data into the front of `out`. Early data
    /// beyond the allowed maximum is refused, and nothing changes.
    pub fn encrypt_early_data(&mut self, data: &[u8], out: &mut [u8]) -> (r: Result<usize, EncryptError>)
        requires
            old(self).wf(),
            2 * data@.len() + HEADER_SIZE + 1 + TAG_LEN <= usize::MAX,
        ensures
            final(self).wf(),
            final(out)@.len() == old(out)@.len(),
            old(self).early_data_sent + data@.len() > old(self).max_early_data_size ==> r
                == Err::<usize, EncryptError>(EncryptError::ExceededAllowedEarlyData)
                && *final(self) == *old(self) && final(out)@ == old(out)@,
            old(self).early_data_sent + data@.len() <= old(self).max_early_data_size ==> {
                let mid = UnbufferedConnection {
                    early_data_sent: old(self).early_data_sent,
                    ..*final(self)
                };
                &&& sent_fragments(
                    *old(self),
                    mid,
                    ContentType::ApplicationData,
                    data@,
                    old(out)@,
                    final(out)@,
                    r,
                )
                &&& final(self).early_data_sent == if r is Ok {
                    old(self).early_data_sent + data@.len()
                } else {
                    old(self).early_data_sent as int
                }
            },
    {
        if data.len() > self.max_early_data_size - self.early_data_sent {
            return Err(EncryptError::ExceededAllowedEarlyData);
        }
        let r = self.seal_fragments(ContentType::ApplicationData, data, out);
        if r.is_ok() {
            self.early_data_sent = self.early_data_sent + data.len();
        }
        r
    }

    /// Queues a close-notify alert; it goes out through the encode and
    /// transmit states like any other record.
    pub fn queue_close_notify(&mut self)
        requires
            old(self).wf(),
        ensures
            final(self).wf(),
            final(self).pending@.len() == old(self).pending@.len() + 1,
            forall|i: int|
                0 <= i < old(self).pending@.len() ==> final(self).pending@[i] == old(
                    self,
                ).pending@[i],
            final(self).pending@.last().typ == ContentType::Alert,
            final(self).pending@.last().payload@ == close_notify_payload(),
            final(self).record_layer == old(self).record_layer,
            final(self).must_transmit == old(self).must_transmit,
            final(self).closed == old(self).closed,
            final(self).peer_closed == old(self).peer_closed,
    {
        let payload: Vec<u8> = vec![1u8, 0u8];
        assert(payload@ =~= close_notify_payload());
        self.pending.push(PendingRecord { typ: ContentType::Alert, payload });
    }

    /// Writes the first queued record into the front of `out`. When the
    /// last queued record is written, transmission becomes due. When `out`
    /// is too short nothing changes and the shortfall is returned; growing
    /// `out` by it makes the same call succeed.
    pub fn encode_tls_data(&mut self, out: &mut [u8]) -> (r: Result<usize, EncodeError>)
        requires
            old(self).wf(),
        ensures
            final(self).wf(),
            old(self).pending@.len() == 0 ==> r == Err::<usize, EncodeError>(
                EncodeError::AlreadyEncoded,
            ) && *final(self) == *old(self) && final(out)@ == old(out)@,
            old(self).pending@.len() > 0 ==> {
                let p = old(self).pending@[0];
                let rl = old(self).record_layer;
                match size_outcome(sealed_record_len(p.payload@.len()), old(out)@.len()) {
                    Err(k) => r == Err::<usize, EncodeError>(EncodeError::InsufficientSize(
                        k as usize,
                    )) && *final(self) == *old(self) && final(out)@ == old(out)@,
                    Ok(n) => if !rl.may_encrypt() {
                        r == Err::<usize, EncodeError>(
                            EncodeError::Record(Error::EncryptionLimitReached),
                        ) && *final(self) == *old(self) && final(out)@ == old(out)@
                    } else {
                        let e = rl.encrypter->Some_0;
                        &&& r == Ok::<usize, EncodeError>(n as usize)
                        &&& final(out)@.subrange(0, n as int) == wire_bytes(
                            ContentType::ApplicationData,
                            TLS12_VERSION,
                            protect_spec(e.alg, e.key@, e.iv@, rl.write_seq, p.typ, p.payload@),
                        )
                        &&& final(self).record_layer.write_seq == rl.write_seq + 1
                        &&& final(self).pending@ == old(self).pending@.drop_first()
                        &&& final(self).must_transmit == (old(self).must_transmit
                            || old(self).pending@.len() == 1)
                        &&& final(self).closed == old(self).closed
                        &&& final(self).peer_closed == old(self).peer_closed
                    },
                }
            },
    {
        if self.pending.len() == 0 {
            return Err(EncodeError::AlreadyEncoded);
        }
        let typ = self.pending[0].typ;
        let payload = copy_bytes(self.pending[0].payload.as_slice());
        match self.seal_into(typ, payload.as_slice(), out) {
            Ok(n) => {
                self.pending.remove(0);
                assert(self.pending@ =~= old(self).pending@.drop_first());
                if self.pending.len() == 0 {
                    self.must_transmit = true;
                }
                Ok(n)
            },
            Err(EncryptError::InsufficientSize(k)) => Err(EncodeError::InsufficientSize(k)),
            Err(EncryptError::Record(e)) => Err(EncodeError::Record(e)),
            Err(EncryptError::ExceededAllowedEarlyData) => Err(EncodeError::Record(Error::EncryptError)),
        }
    }

    /// The caller has sent everything that was encoded.
    pub fn done_transmitting(&mut self)
        requires
            old(self).wf(),
        ensures
            final(self).wf(),
            *final(self) == (UnbufferedConnection { must_transmit: false, ..*old(self) }),
    {
        self.must_transmit = false;
    }

    /// Data records from now on are ordinary application data.
    pub fn end_early_data(&mut self)
        requires
            old(self).wf(),
        ensures
            final(self).wf(),
            *final(self) == (UnbufferedConnection { receiving_early_data: false, ..*old(self) }),
    {
        self.receiving_early_data = false;
    }
    /// Handles the records at the front of `incoming`, the caller's whole
    /// buffer of received bytes, and says what the caller must do next.
    /// What the status allows to be discarded, together with what its data
    /// records allow, is exactly a run of whole, valid records at the front
    /// of `incoming`; each of them was opened once, in order, under the read
    /// epoch's next sequence numbers.
    pub fn process_tls_records(&mut self, incoming: &[u8]) -> (r: Result<UnbufferedStatus, Error>)
        requires
            old(self).wf(),
        ensures
            final(self).wf(),
            old(self).closed ==> r is Ok && r->Ok_0.discard == 0
                && r->Ok_0.state is ConnectionClosed && *final(self) == *old(self),
            !old(self).closed && old(self).pending@.len() > 0 ==> r is Ok && r->Ok_0.discard == 0
                && r->Ok_0.state is MustEncodeTlsData && *final(self) == *old(self),
            !old(self).closed && old(self).pending@.len() == 0 && old(self).must_transmit ==> r is Ok
                && r->Ok_0.discard == 0 && r->Ok_0.state is MustTransmitTlsData && *final(self)
                == *old(self),
            !old(self).closed && old(self).pending@.len() == 0 && !old(self).must_transmit
                && old(self).peer_closed ==> r is Ok && r->Ok_0.discard == 0
                && r->Ok_0.state is ConnectionClosed && final(self).closed,
            r is Err ==> !old(self).closed && old(self).pending@.len() == 0
                && !old(self).must_transmit && !old(self).peer_closed,
            r matches Ok(st) ==> {
                let total = st.total_discard();
                let recs = deframe(incoming@.take(total)).0;
                let d = old(self).record_layer.decrypter->Some_0;
                &&& 0 <= total <= incoming@.len()
                &&& frames_whole(incoming@, total as nat)
                &&& final(self).record_layer.read_seq == old(self).record_layer.read_seq + recs.len()
                &&& st.state.records().len() == recs.len() || (recs.len() == st.state.records().len()
                    + 1 && (final(self).peer_closed || final(self).closed))
                &&& forall|i: int|
                    0 <= i < st.state.records().len() ==> (#[trigger] st.state.records()[i]).payload@
                        == opened_payload(d, old(self).record_layer.read_seq + i, recs[i].2)
                &&& st.state is EarlyDataAvailable ==> old(self).receiving_early_data
                &&& st.state is AppDataAvailable ==> !old(self).receiving_early_data
                &&& (st.state is TrafficTransit || st.state is NeedsMoreTlsData) ==> total == 0
                    && deframe(incoming@).0.len() == 0 && deframe(incoming@).2 is None
            },
            ({
                let c0 = *old(self);
                let all = deframe(incoming@);
                let recs = all.0;
                !c0.closed && c0.pending@.len() == 0 && !c0.must_transmit && !c0.peer_closed ==> {
                    &&& forall|i: int|
                        0 <= i < recs.len() && #[trigger] good_prefix(c0, recs, i) && !opens_as_data(
                            c0,
                            recs,
                            i,
                        ) ==> match open_at(c0, recs, i) {
                            Err(e) => r is Err && r->Err_0 == e,
                            Ok(o) => if o.0 == ContentType::ApplicationData {
                                r is Err && r->Err_0 == Error::TooMuchEarlyDataReceived
                            } else if is_close_notify(o) {
                                &&& r is Ok
                                &&& r->Ok_0.state.records().len() == i
                                &&& r->Ok_0.total_discard() == record_bytes(recs.take(i + 1))
                                &&& final(self).peer_closed || final(self).closed
                            } else {
                                r is Err && r->Err_0 == Error::UnexpectedMessage
                            },
                        }
                    &&& good_prefix(c0, recs, recs.len() as int) ==> match all.2 {
                        Some(e) => r is Err && r->Err_0 == e,
                        None => r is Ok && r->Ok_0.state.records().len() == recs.len()
                            && r->Ok_0.total_discard() == all.1,
                    }
                }
            }),
    {
        if self.closed {
            return Ok(UnbufferedStatus { discard: 0, state: ConnectionState::ConnectionClosed });
        }
        if self.pending.len() > 0 {
            return Ok(UnbufferedStatus { discard: 0, state: ConnectionState::MustEncodeTlsData });
        }
        if self.must_transmit {
            return Ok(UnbufferedStatus { discard: 0, state: ConnectionState::MustTransmitTlsData });
        }
        assert(incoming@.take(0) =~= Seq::<u8>::empty());
        assert(deframe(incoming@.take(0)).1 == 0);
        if self.peer_closed {
            self.closed = true;
            return Ok(UnbufferedStatus { discard: 0, state: ConnectionState::ConnectionClosed });
        }
        let ghost d = self.record_layer.decrypter->Some_0;
        let ghost seq0 = self.record_layer.read_seq;
        let mut dfm = MessageDeframer::new();
        let mut records: Vec<AppDataRecord> = Vec::new();
        loop
            invariant
                self.wf(),
                !old(self).closed && old(self).pending@.len() == 0 && !old(self).must_transmit,
                !old(self).peer_closed,
                !self.closed && !self.peer_closed,
                self.pending == old(self).pending,
                !self.must_transmit,
                self.receiving_early_data == old(self).receiving_early_data,
                self.record_layer.decrypter == old(self).record_layer.decrypter,
                d == old(self).record_layer.decrypter->Some_0,
                seq0 == old(self).record_layer.read_seq,
                dfm.consumed <= incoming@.len(),
                frames_whole(incoming@, dfm.consumed as nat),
                records@.len() == deframe(incoming@.take(dfm.consumed as int)).0.len(),
                self.record_layer.read_seq == seq0 + records@.len(),
                self.record_layer.failed_decrypts == old(self).record_layer.failed_decrypts,
                self.record_layer.integrity_limit == old(self).record_layer.integrity_limit,
                self.max_early_data_size == old(self).max_early_data_size,
                good_prefix(*old(self), deframe(incoming@).0, records@.len() as int),
                old(self).receiving_early_data ==> self.early_data_received == old(
                    self,
                ).early_data_received + data_len_sum(
                    *old(self),
                    deframe(incoming@).0,
                    records@.len() as int,
                ),
                discard_sum(records@) == dfm.consumed,
                forall|i: int|
                    0 <= i < records@.len() ==> (#[trigger] records@[i]).payload@ == opened_payload(
                        d,
                        seq0 + i,
                        deframe(incoming@.take(dfm.consumed as int)).0[i].2,
                    ),
            ensures
                read_record(incoming@.skip(dfm.consumed as int)) == Ok::<
                    Option<(ContentType, u16, nat)>,
                    Error,
                >(None),
            decreases incoming@.len() - dfm.consumed,
        {
            let c = dfm.consumed;
            let ghost before = deframe(incoming@.take(c as int)).0;
            let ghost c0 = *old(self);
            let ghost recs = deframe(incoming@).0;
            let ghost j = records@.len() as int;
            proof {
                lemma_deframe_restart(incoming@, c as nat);
                lemma_deframe_step(incoming@, c as int);
                lemma_deframe_consumed_le(incoming@.take(c as int));
            }
            match dfm.pop(incoming) {
                Err(e) => {
                    proof {
                        assert(recs =~= before);
                        lemma_all_good(c0, recs, j);
                    }
                    return Err(e);
                },
                Ok(None) => {
                    break;
                },
                Ok(Some(span)) => {
                    proof {
                        lemma_frames_whole_extend(incoming@, c as nat);
                    }
                    let ghost after = deframe(incoming@.take(dfm.consumed as int)).0;
                    let body = vstd::slice::slice_subrange(incoming, span.start, span.start + span.len);
                    let payload = copy_bytes(body);
                    let msg = OpaqueMessage { typ: span.typ, version: span.version, payload };
                    let ghost rest = deframe(incoming@.skip(c as int));
                    proof {
                        assert(recs[j] == after[j]);
                        assert(recs.take(j + 1) =~= after);
                        assert(body@ == recs[j].2);
                    }
                    let plain = match self.record_layer.decrypt_incoming(msg) {
                        Ok(m) => m,
                        Err(e) => {
                            proof {
                                lemma_stops_at(c0, recs, j);
                            }
                            return Err(e);
                        },
                    };
                    assert(open_at(c0, recs, j) == Ok::<(ContentType, Seq<u8>), Error>(
                        (plain.typ, plain.payload@),
                    ));
                    if plain.typ == ContentType::ApplicationData {
                        if self.receiving_early_data {
                            if plain.payload.len() > self.max_early_data_size
                                - self.early_data_received {
                                proof {
                                    lemma_stops_at(c0, recs, j);
                                }
                                return Err(Error::TooMuchEarlyDataReceived);
                            }
                            self.early_data_received = self.early_data_received
                                + plain.payload.len();
                        }
                        let ghost old_records = records@;
                        records.push(
                            AppDataRecord { discard: dfm.consumed - c, payload: plain.payload },
                        );
                        proof {
                            assert(records@.drop_last() =~= old_records);
                            assert forall|i: int| 0 <= i < records@.len() implies (
                            #[trigger] records@[i]).payload@ == opened_payload(
                                d,
                                seq0 + i,
                                after[i].2,
                            ) by {
                                if i < old_records.len() {
                                    assert(records@[i] == old_records[i]);
                                    assert(after[i] == before[i]);
                                }
                            }
                        }
                    } else if plain.typ == ContentType::Alert && plain.payload.len() == 2
                        && plain.payload[0] == 1 && plain.payload[1] == 0 {
                        self.peer_closed = true;
                        let ghost total = dfm.consumed as int;
                        proof {
                            assert(plain.payload@ =~= close_notify_payload());
                            lemma_stops_at(c0, recs, j);
                            lemma_deframe_bytes(incoming@.take(total));
                        }
                        proof {
                            assert forall|i: int| 0 <= i < records@.len() implies (
                            #[trigger] records@[i]).payload@ == opened_payload(
                                d,
                                seq0 + i,
                                deframe(incoming@.take(total)).0[i].2,
                            ) by {
                                assert(after[i] == before[i]);
                            }
                        }
                        let extra = dfm.consumed - c;
                        if records.len() == 0 {
                            self.closed = true;
                            return Ok(
                                UnbufferedStatus {
                                    discard: extra,
                                    state: ConnectionState::ConnectionClosed,
                                },
                            );
                        }
                        let state = if self.receiving_early_data {
                            ConnectionState::EarlyDataAvailable(records)
                        } else {
                            ConnectionState::AppDataAvailable(records)
                        };
                        return Ok(UnbufferedStatus { discard: extra, state });
                    } else {
                        proof {
                            lemma_stops_at(c0, recs, j);
                        }
                        return Err(Error::UnexpectedMessage);
                    }
                },
            }
        }
        proof {
            lemma_deframe_restart(incoming@, dfm.consumed as nat);
            assert(deframe(incoming@).0 =~= deframe(incoming@.take(dfm.consumed as int)).0);
            lemma_all_good(*old(self), deframe(incoming@).0, records@.len() as int);
        }
        if records.len() == 0 {
            assert(dfm.consumed == 0) by {
                if dfm.consumed > 0 {
                    let t = incoming@.take(dfm.consumed as int);
                    assert(deframe(t).1 > 0);
                }
            }
            assert(incoming@.skip(0) =~= incoming@);
            assert(deframe(incoming@).0.len() == 0);
            let state = if self.receiving_early_data {
                ConnectionState::NeedsMoreTlsData
            } else {
                ConnectionState::TrafficTransit
            };
            return Ok(UnbufferedStatus { discard: 0, state });
        }
        let state = if self.receiving_early_data {
            ConnectionState::EarlyDataAvailable(records)
        } else {
            ConnectionState::AppDataAvailable(records)
        };
        Ok(UnbufferedStatus { discard: 0, state })
    }
}

} // verus!
