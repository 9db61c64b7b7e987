//! Splitting a byte stream into TLS records. Records are handed out as
//! spans of the caller's buffer; nothing is copied.
use vstd::prelude::*;
use crate::message::{ContentType, Error};

verus! {

/// Length of a record header: type, version and payload length.
pub const HEADER_SIZE: usize = 5;

/// Longest payload that a record on the wire may declare.
pub const MAX_PAYLOAD: usize = 18432;

/// What a record is to the framing layer: its type, version and payload.
pub type RecordView = (ContentType, u16, Seq<u8>);

/// A record found in a buffer: its header fields, and where its payload
/// stands in the buffer that was searched.
#[derive(Clone, Copy, Debug, PartialEq, Eq, Structural)]
pub struct RecordSpan {
    pub typ: ContentType,
    pub version: u16,
    pub start: usize,
    pub len: usize,
}

impl RecordSpan {
    /// The record this span marks in `buf`.
    pub open spec fn record_in(self, buf: Seq<u8>) -> RecordView {
        (self.typ, self.version, buf.subrange(self.start as int, self.start + self.len))
    }

    /// Offset just past the record's payload.
    pub open spec fn end(self) -> nat {
        (self.start + self.len) as nat
    }
}

/// The big-endian 16-bit value of two bytes.
pub open spec fn u16_of(hi: u8, lo: u8) -> u16 {
    (hi as nat * 256 + lo as nat) as u16
}

/// Reads the record at the front of `s`: its type, version and payload
/// length once the whole record is there, nothing while it is incomplete,
/// or the framing error that its header shows.
pub open spec fn read_record(s: Seq<u8>) -> Result<Option<(ContentType, u16, nat)>, Error> {
    if s.len() < HEADER_SIZE {
        Ok(None)
    } else {
        let typ = ContentType::from_byte(s[0]);
        let len = s[3] as nat * 256 + s[4] as nat;
        if typ is Unknown {
            Err(Error::InvalidContentType)
        } else if s[1] != 3 {
            Err(Error::UnknownProtocolVersion)
        } else if len > MAX_PAYLOAD {
            Err(Error::MessageTooLarge)
        } else if len == 0 && typ != ContentType::ApplicationData {
            Err(Error::InvalidEmptyPayload)
        } else if s.len() < HEADER_SIZE + len {
            Ok(None)
        } else {
            Ok(Some((typ, u16_of(s[1], s[2]), len)))
        }
    }
}

/// Every complete record at the front of `s`, in order; the number of bytes
/// they span; and the framing error that stopped the search, if any.
pub open spec fn deframe(s: Seq<u8>) -> (Seq<RecordView>, nat, Option<Error>)
    decreases s.len(),
{
    match read_record(s) {
        Err(e) => (Seq::empty(), 0, Some(e)),
        Ok(None) => (Seq::empty(), 0, None),
        Ok(Some((typ, version, len))) => {
            let n = HEADER_SIZE + len;
            let rest = deframe(s.skip(n as int));
            (
                seq![(typ, version, s.subrange(HEADER_SIZE as int, n as int))] + rest.0,
                (n + rest.1) as nat,
                rest.2,
            )
        },
    }
}

/// What a header says depends on the header alone; a complete record stays
/// complete, with the same payload, however many bytes follow it.
proof fn lemma_read_record_prefix(p: Seq<u8>, s: Seq<u8>)
    requires
        p.len() <= s.len(),
        p == s.subrange(0, p.len() as int),
    ensures
        read_record(p) is Err ==> read_record(s) == read_record(p),
        read_record(p) matches Ok(Some((t, v, len))) ==> read_record(s) == read_record(p)
            && p.subrange(HEADER_SIZE as int, HEADER_SIZE + len) == s.subrange(
            HEADER_SIZE as int,
            HEADER_SIZE + len,
        ),
{
    if p.len() >= HEADER_SIZE {
        assert(p[0] == s[0] && p[1] == s[1] && p[2] == s[2] && p[3] == s[3] && p[4] == s[4]);
        if let Ok(Some((t, v, len))) = read_record(p) {
            assert(p.subrange(HEADER_SIZE as int, HEADER_SIZE + len) =~= s.subrange(
                HEADER_SIZE as int,
                HEADER_SIZE + len,
            ));
        }
    }
}

/// Bytes on the wire of the records `rs`: each header and payload.
pub open spec fn record_bytes(rs: Seq<RecordView>) -> nat
    decreases rs.len(),
{
    if rs.len() == 0 {
        0
    } else {
        HEADER_SIZE as nat + rs[0].2.len() + record_bytes(rs.drop_first())
    }
}

/// What deframing consumes is exactly the wire bytes of the records it
/// finds.
pub proof fn lemma_deframe_bytes(s: Seq<u8>)
    ensures
        deframe(s).1 == record_bytes(deframe(s).0),
    decreases s.len(),
{
    if let Ok(Some((t, v, len))) = read_record(s) {
        let n = (HEADER_SIZE + len) as int;
        lemma_deframe_bytes(s.skip(n));
        let rest = deframe(s.skip(n)).0;
        let all = deframe(s).0;
        assert(all.drop_first() =~= rest);
        assert(all[0].2.len() == len);
    }
}

/// Deframing consumes no more than the bytes it is given.
pub proof fn lemma_deframe_consumed_le(s: Seq<u8>)
    ensures
        deframe(s).1 <= s.len(),
    decreases s.len(),
{
    if let Ok(Some((t, v, len))) = read_record(s) {
        lemma_deframe_consumed_le(s.skip(HEADER_SIZE + len));
    }
}

/// Deframing restarts cleanly: deframing a first chunk of a stream,
/// discarding what it consumed and deframing the rest of the stream gives
/// the same records, consumed bytes and error as deframing the whole stream
/// at once. A framing error in the first chunk is the error of the whole.
pub proof fn lemma_deframe_restart(s: Seq<u8>, k: nat)
    requires
        k <= s.len(),
    ensures
        ({
            let first = deframe(s.take(k as int));
            let rest = deframe(s.skip(first.1 as int));
            &&& first.2 is None ==> deframe(s) == (first.0 + rest.0, first.1 + rest.1, rest.2)
            &&& first.2 is Some ==> deframe(s) == first
        }),
    decreases s.len(),
{
    let p = s.take(k as int);
    lemma_read_record_prefix(p, s);
    match read_record(p) {
        Err(e) => {},
        Ok(None) => {
            assert(s.skip(0) =~= s);
            assert(Seq::<RecordView>::empty() + deframe(s).0 =~= deframe(s).0);
        },
        Ok(Some((t, v, len))) => {
            let n = (HEADER_SIZE + len) as int;
            let s2 = s.skip(n);
            assert(p.skip(n) =~= s2.take(k - n));
            lemma_deframe_restart(s2, (k - n) as nat);
            let first2 = deframe(s2.take(k - n));
            lemma_deframe_consumed_le(s2.take(k - n));
            assert(s.skip(n + first2.1) =~= s2.skip(first2.1 as int));
            let head = seq![(t, v, s.subrange(HEADER_SIZE as int, n))];
            let rest = deframe(s2.skip(first2.1 as int));
            assert(head + first2.0 + rest.0 =~= head + (first2.0 + rest.0));
        },
    }
}

/// Deframing from offset `c` of `s`, one step: the record found there, then
/// deframing from just past it.
pub proof fn lemma_deframe_step(s: Seq<u8>, c: int)
    requires
        0 <= c <= s.len(),
    ensures
        read_record(s.skip(c)) matches Ok(Some((t, v, len))) ==> {
            let n = c + HEADER_SIZE + len;
            &&& n <= s.len()
            &&& deframe(s.skip(c)) == (
                seq![(t, v, s.subrange(c + HEADER_SIZE, n))] + deframe(s.skip(n)).0,
                (HEADER_SIZE + len + deframe(s.skip(n)).1) as nat,
                deframe(s.skip(n)).2,
            )
        },
{
    if let Ok(Some((t, v, len))) = read_record(s.skip(c)) {
        let n = c + HEADER_SIZE + len;
        assert(s.skip(c).skip(HEADER_SIZE + len) =~= s.skip(n));
        assert(s.skip(c).subrange(HEADER_SIZE as int, HEADER_SIZE + len) =~= s.subrange(
            c + HEADER_SIZE,
            n,
        ));
    }
}

/// Reads the header of the record that starts at `start` in `buf`.
pub fn read_record_at(buf: &[u8], start: usize) -> (r: Result<Option<RecordSpan>, Error>)
    requires
        start <= buf@.len(),
    ensures
        match read_record(buf@.skip(start as int)) {
            Err(e) => r == Err::<Option<RecordSpan>, Error>(e),
            Ok(None) => r == Ok::<Option<RecordSpan>, Error>(None),
            Ok(Some((typ, version, len))) => r == Ok::<Option<RecordSpan>, Error>(
                Some(RecordSpan { typ, version, start: (start + HEADER_SIZE) as usize, len: len as usize }),
            ),
        },
        r is Ok && r->Ok_0 is Some ==> r->Ok_0->Some_0.end() <= buf@.len(),
{
    let ghost s = buf@.skip(start as int);
    if buf.len() - start < HEADER_SIZE {
        return Ok(None);
    }
    assert(s[0] == buf@[start as int] && s[1] == buf@[start + 1] && s[2] == buf@[start + 2]);
    assert(s[3] == buf@[start + 3] && s[4] == buf@[start + 4]);
    let typ = ContentType::read_u8(buf[start]);
    let hi: u8 = buf[start + 1];
    let lo: u8 = buf[start + 2];
    let len: usize = (buf[start + 3] as usize) * 256 + (buf[start + 4] as usize);
    if let ContentType::Unknown(_) = typ {
        return Err(Error::InvalidContentType);
    }
    if hi != 3 {
        return Err(Error::UnknownProtocolVersion);
    }
    if len > MAX_PAYLOAD {
        return Err(Error::MessageTooLarge);
    }
    if len == 0 && typ != ContentType::ApplicationData {
        return Err(Error::InvalidEmptyPayload);
    }
    if buf.len() - start < HEADER_SIZE + len {
        return Ok(None);
    }
    let version: u16 = (hi as u16) * 256 + (lo as u16);
    Ok(Some(RecordSpan { typ, version, start: start + HEADER_SIZE, len }))
}

/// Finds records one at a time in a buffer, remembering how far into the
/// buffer it has read.
pub struct MessageDeframer {
    /// Bytes at the front of the buffer taken by records already handed out.
    pub consumed: usize,
}

impl MessageDeframer {
    pub fn new() -> (r: MessageDeframer)
        ensures
            r.consumed == 0,
    {
        MessageDeframer { consumed: 0 }
    }

    /// The next complete record of `buf`, if one is there.
    pub fn pop(&mut self, buf: &[u8]) -> (r: Result<Option<RecordSpan>, Error>)
        requires
            old(self).consumed <= buf@.len(),
        ensures
            final(self).consumed <= buf@.len(),
            match read_record(buf@.skip(old(self).consumed as int)) {
                Err(e) => r == Err::<Option<RecordSpan>, Error>(e) && final(self).consumed
                    == old(self).consumed,
                Ok(None) => r == Ok::<Option<RecordSpan>, Error>(None) && final(self).consumed
                    == old(self).consumed,
                Ok(Some((typ, version, len))) => r == Ok::<Option<RecordSpan>, Error>(
                    Some(
                        RecordSpan {
                            typ,
                            version,
                            start: (old(self).consumed + HEADER_SIZE) as usize,
                            len: len as usize,
                        },
                    ),
                ) && final(self).consumed == old(self).consumed + HEADER_SIZE + len,
            },
    {
        proof {
            lemma_deframe_step(buf@, self.consumed as int);
        }
        let buf_len = buf.len();
        let r = read_record_at(buf, self.consumed);
        match r {
            Ok(Some(span)) => {
                self.consumed = span.start + span.len;
            },
            _ => {},
        }
        r
    }
}

/// Every complete record of `buf`, the number of bytes they span (what the
/// caller may discard), and the framing error that stopped the search.
pub fn deframe_all(buf: &[u8]) -> (r: (Vec<RecordSpan>, usize, Option<Error>))
    ensures
        r.0@.map_values(|sp: RecordSpan| sp.record_in(buf@)) == deframe(buf@).0,
        r.1 == deframe(buf@).1,
        r.2 == deframe(buf@).2,
        forall|i: int| 0 <= i < r.0@.len() ==> #[trigger] r.0@[i].end() <= buf@.len(),
{
    let mut dfm = MessageDeframer::new();
    let mut spans: Vec<RecordSpan> = Vec::new();
    assert(buf@.skip(0) =~= buf@);
    loop
        invariant
            dfm.consumed <= buf@.len(),
            forall|i: int| 0 <= i < spans@.len() ==> #[trigger] spans@[i].end() <= buf@.len(),
            deframe(buf@).0 == spans@.map_values(|sp: RecordSpan| sp.record_in(buf@)) + deframe(
                buf@.skip(dfm.consumed as int),
            ).0,
            deframe(buf@).1 == dfm.consumed + deframe(buf@.skip(dfm.consumed as int)).1,
            deframe(buf@).2 == deframe(buf@.skip(dfm.consumed as int)).2,
        decreases buf@.len() - dfm.consumed,
    {
        let ghost c = dfm.consumed as int;
        proof {
            lemma_deframe_step(buf@, c);
        }
        match dfm.pop(buf) {
            Err(e) => {
                return (spans, dfm.consumed, Some(e));
            },
            Ok(None) => {
                return (spans, dfm.consumed, None);
            },
            Ok(Some(span)) => {
                let ghost old_spans = spans@;
                spans.push(span);
                proof {
                    let f = |sp: RecordSpan| sp.record_in(buf@);
                    assert(spans@.map_values(f) =~= old_spans.map_values(f).push(span.record_in(buf@)));
                    assert(deframe(buf@).0 =~= spans@.map_values(f) + deframe(
                        buf@.skip(dfm.consumed as int),
                    ).0);
                }
            },
        }
    }
}

/// The first `n` bytes of `s` are whole, valid records and nothing else.
pub open spec fn frames_whole(s: Seq<u8>, n: nat) -> bool {
    n <= s.len() && deframe(s.take(n as int)).1 == n && deframe(s.take(n as int)).2 is None
}

/// A complete record right after whole records makes the span whole again,
/// one record longer.
pub proof fn lemma_frames_whole_extend(s: Seq<u8>, c: nat)
    requires
        frames_whole(s, c),
        read_record(s.skip(c as int)) is Ok,
        read_record(s.skip(c as int))->Ok_0 is Some,
    ensures
        ({
            let (t, v, len) = read_record(s.skip(c as int))->Ok_0->Some_0;
            let n = c + HEADER_SIZE + len;
            &&& frames_whole(s, n as nat)
            &&& deframe(s.take(n)).0 == deframe(s.take(c as int)).0.push(
                (t, v, s.subrange(c + HEADER_SIZE, n)),
            )
        }),
{
    let (t, v, len) = read_record(s.skip(c as int))->Ok_0->Some_0;
    let n = (c + HEADER_SIZE + len) as int;
    lemma_deframe_step(s, c as int);
    let w = s.take(n);
    assert(w.take(c as int) =~= s.take(c as int));
    lemma_deframe_restart(w, c);
    let tail = w.skip(c as int);
    assert(tail =~= s.skip(c as int).take(HEADER_SIZE + len));
    assert(tail[0] == s.skip(c as int)[0] && tail[1] == s.skip(c as int)[1]);
    assert(tail[2] == s.skip(c as int)[2] && tail[3] == s.skip(c as int)[3]);
    assert(tail[4] == s.skip(c as int)[4]);
    assert(read_record(tail) == read_record(s.skip(c as int)));
    let e = tail.skip(HEADER_SIZE + len);
    assert(e.len() == 0);
    assert(read_record(e) == Ok::<Option<(ContentType, u16, nat)>, Error>(None));
    assert(deframe(e) == (Seq::<RecordView>::empty(), 0nat, None::<Error>));
    assert(deframe(tail) == (
        seq![(t, v, tail.subrange(HEADER_SIZE as int, HEADER_SIZE + len))] + deframe(e).0,
        (HEADER_SIZE + len + deframe(e).1) as nat,
        deframe(e).2,
    ));
    assert(tail.subrange(HEADER_SIZE as int, HEADER_SIZE + len) =~= s.subrange(c + HEADER_SIZE, n));
    assert(deframe(tail).0 =~= seq![(t, v, s.subrange(c + HEADER_SIZE, n))]);
}

/// Discards add up: discarding a run of whole records, then a run of whole
/// records of what remains, discards a run of whole records of the stream,
/// namely the first run's records followed by the second's.
pub proof fn lemma_frames_whole_compose(s: Seq<u8>, a: nat, b: nat)
    requires
        frames_whole(s, a),
        frames_whole(s.skip(a as int), b),
    ensures
        frames_whole(s, a + b),
        deframe(s.take((a + b) as int)).0 == deframe(s.take(a as int)).0 + deframe(
            s.skip(a as int).take(b as int),
        ).0,
{
    let w = s.take((a + b) as int);
    assert(w.take(a as int) =~= s.take(a as int));
    assert(w.skip(a as int) =~= s.skip(a as int).take(b as int));
    lemma_deframe_restart(w, a);
}

/// The bytes of a record on the wire: header, then payload.
pub open spec fn wire_bytes(typ: ContentType, version: u16, payload: Seq<u8>) -> Seq<u8> {
    seq![
        typ.byte(),
        (version / 256) as u8,
        (version % 256) as u8,
        (payload.len() / 256) as u8,
        (payload.len() % 256) as u8,
    ] + payload
}

/// Writes a record into `out` starting at offset `at`; returns its length
/// on the wire. Bytes outside the record are left as they were.
pub fn write_record(typ: ContentType, version: u16, payload: &[u8], out: &mut [u8], at: usize) -> (r:
    usize)
    requires
        payload@.len() <= 0xffff,
        old(out)@.len() >= at + HEADER_SIZE + payload@.len(),
    ensures
        r == HEADER_SIZE + payload@.len(),
        final(out)@.len() == old(out)@.len(),
        final(out)@.subrange(at as int, at + r) == wire_bytes(typ, version, payload@),
        final(out)@.take(at as int) == old(out)@.take(at as int),
        final(out)@.subrange(at + r, final(out)@.len() as int) == old(out)@.subrange(
            at + r,
            old(out)@.len() as int,
        ),
{
    let len = payload.len();
    let out_len = out.len();
    out[at] = typ.get_u8();
    out[at + 1] = (version / 256) as u8;
    out[at + 2] = (version % 256) as u8;
    out[at + 3] = (len / 256) as u8;
    out[at + 4] = (len % 256) as u8;
    let mut i: usize = 0;
    while i < len
        invariant
            i <= len == payload@.len(),
            out@.len() == old(out)@.len(),
            out@.len() == out_len,
            out@.len() >= at + HEADER_SIZE + len,
            out@[at as int] == typ.byte(),
            out@[at + 1] == (version / 256) as u8,
            out@[at + 2] == (version % 256) as u8,
            out@[at + 3] == (len / 256) as u8,
            out@[at + 4] == (len % 256) as u8,
            forall|j: int| 0 <= j < i ==> out@[at + HEADER_SIZE + j] == payload@[j],
            forall|j: int| 0 <= j < at ==> out@[j] == old(out)@[j],
            forall|j: int| at + HEADER_SIZE + len <= j < out@.len() ==> out@[j] == old(out)@[j],
        decreases len - i,
    {
        out[at + HEADER_SIZE + i] = payload[i];
        i = i + 1;
    }
    let end = at + HEADER_SIZE + len;
    assert(out@.subrange(at as int, end as int) =~= wire_bytes(typ, version, payload@));
    assert(out@.take(at as int) =~= old(out)@.take(at as int));
    assert(out@.subrange(end as int, out@.len() as int) =~= old(out)@.subrange(
        end as int,
        old(out)@.len() as int,
    ));
    HEADER_SIZE + len
}

} // verus!
