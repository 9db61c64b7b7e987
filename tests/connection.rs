use tls_record::aead::{AeadAlgorithm, AeadKey};
use tls_record::cipher::Iv;
use tls_record::message::Error;
use tls_record::record_layer::RecordLayer;
use tls_record::unbuffered::{
    ConnectionState, EncodeError, EncryptError, UnbufferedConnection, UnbufferedStatus,
};

const REQUEST: &[u8] = b"GET / HTTP/1.1\r\nHost: example.com\r\nConnection: close\r\nAccept-Encoding: identity\r\n\r\n";
const RESPONSE: &[u8] = b"HTTP/1.1 200 OK\r\nContent-Length: 5\r\n\r\nhello";

fn layer(alg: AeadAlgorithm, write_seed: u8, read_seed: u8) -> RecordLayer {
    let key = |seed: u8| AeadKey::new(vec![seed; alg.key_len()]);
    let mut rl = RecordLayer::new();
    rl.set_message_encrypter(alg.encrypter(key(write_seed), Iv::new([write_seed; 12])), 1 << 20);
    rl.set_message_decrypter(alg.decrypter(key(read_seed), Iv::new([read_seed; 12])), 1 << 20);
    rl
}

fn peers(max_early: usize, server_early: bool) -> (UnbufferedConnection, UnbufferedConnection) {
    let alg = AeadAlgorithm::Aes128Gcm;
    (
        UnbufferedConnection::new(layer(alg, 1, 2), max_early, false),
        UnbufferedConnection::new(layer(alg, 2, 1), max_early, server_early),
    )
}

/// Caller-side incoming buffer: storage plus the used length.
struct Incoming {
    buf: Vec<u8>,
    used: usize,
}

impl Incoming {
    fn new() -> Self {
        Incoming { buf: vec![0u8; 1 << 16], used: 0 }
    }

    fn push(&mut self, bytes: &[u8]) {
        self.buf[self.used..self.used + bytes.len()].copy_from_slice(bytes);
        self.used += bytes.len();
    }

    fn discard(&mut self, n: usize) {
        self.buf.copy_within(n..self.used, 0);
        self.used -= n;
    }
}

fn data_records(st: &UnbufferedStatus) -> Vec<(usize, Vec<u8>)> {
    match &st.state {
        ConnectionState::AppDataAvailable(v) | ConnectionState::EarlyDataAvailable(v) => {
            v.iter().map(|r| (r.discard, r.payload.clone())).collect()
        }
        _ => vec![],
    }
}

#[test]
fn request_arrives_as_application_data() {
    let (mut client, mut server) = peers(0, false);
    let mut out = vec![0u8; 1024];
    let n = client.encrypt_app_data(REQUEST, &mut out).unwrap();
    assert_eq!(n, 5 + REQUEST.len() + 1 + 16);
    let mut incoming = Incoming::new();
    incoming.push(&out[..n]);
    let st = server.process_tls_records(&incoming.buf[..incoming.used]).unwrap();
    assert!(matches!(st.state, ConnectionState::AppDataAvailable(_)));
    let recs = data_records(&st);
    assert_eq!(recs.len(), 1);
    assert_eq!(recs[0].1, REQUEST.to_vec());
    let total: usize = st.discard + recs.iter().map(|r| r.0).sum::<usize>();
    assert_eq!(total, n);
    incoming.discard(total);
    assert_eq!(incoming.used, 0);
    let st = server.process_tls_records(&incoming.buf[..incoming.used]).unwrap();
    assert!(matches!(st.state, ConnectionState::TrafficTransit));
    assert_eq!(st.discard, 0);
}

#[test]
fn close_notify_after_response_closes_client() {
    let (mut client, mut server) = peers(0, false);
    let mut outgoing = vec![0u8; 16];
    let mut out_used = 0;
    let shortfall = match server.encrypt_app_data(RESPONSE, &mut outgoing[out_used..]) {
        Err(EncryptError::InsufficientSize(k)) => k,
        other => panic!("expected a shortfall, got {:?}", other),
    };
    outgoing.resize(outgoing.len() + shortfall, 0);
    out_used += server.encrypt_app_data(RESPONSE, &mut outgoing[out_used..]).unwrap();
    server.queue_close_notify();
    let st = server.process_tls_records(&[]).unwrap();
    assert!(matches!(st.state, ConnectionState::MustEncodeTlsData));
    let shortfall = match server.encode_tls_data(&mut outgoing[out_used..]) {
        Err(EncodeError::InsufficientSize(k)) => k,
        other => panic!("expected a shortfall, got {:?}", other),
    };
    assert_eq!(shortfall, 5 + 2 + 1 + 16);
    outgoing.resize(outgoing.len() + shortfall, 0);
    out_used += server.encode_tls_data(&mut outgoing[out_used..]).unwrap();
    let st = server.process_tls_records(&[]).unwrap();
    assert!(matches!(st.state, ConnectionState::MustTransmitTlsData));

    let mut incoming = Incoming::new();
    incoming.push(&outgoing[..out_used]);
    out_used = 0;
    server.done_transmitting();

    let mut closed = false;
    let mut received = Vec::new();
    for _ in 0..4 {
        let st = client.process_tls_records(&incoming.buf[..incoming.used]).unwrap();
        let recs = data_records(&st);
        let mut discard = st.discard;
        for (d, payload) in recs {
            discard += d;
            received.extend(payload);
        }
        incoming.discard(discard);
        if matches!(st.state, ConnectionState::ConnectionClosed) {
            closed = true;
            break;
        }
    }
    assert!(closed);
    assert_eq!(received, RESPONSE.to_vec());
    assert_eq!(incoming.used, 0);
    assert_eq!(out_used, 0);
    let st = client.process_tls_records(&[]).unwrap();
    assert!(matches!(st.state, ConnectionState::ConnectionClosed));
}

#[test]
fn early_data_within_limit_is_delivered() {
    let (mut client, mut server) = peers(128, true);
    let mut out = vec![0u8; 512];
    let n = client.encrypt_early_data(b"hello", &mut out).unwrap();
    let st = server.process_tls_records(&out[..n]).unwrap();
    assert!(matches!(st.state, ConnectionState::EarlyDataAvailable(_)));
    assert_eq!(data_records(&st), vec![(n, b"hello".to_vec())]);
    assert_eq!(
        client.encrypt_early_data(&[0u8; 200], &mut out),
        Err(EncryptError::ExceededAllowedEarlyData)
    );
    assert_eq!(client.early_data_sent, 5);
    let st = server.process_tls_records(&[]).unwrap();
    assert!(matches!(st.state, ConnectionState::NeedsMoreTlsData));
    server.end_early_data();
    let st = server.process_tls_records(&[]).unwrap();
    assert!(matches!(st.state, ConnectionState::TrafficTransit));
}

#[test]
fn too_much_early_data_received_is_fatal() {
    let alg = AeadAlgorithm::Aes128Gcm;
    let mut client = UnbufferedConnection::new(layer(alg, 1, 2), 1000, false);
    let mut server = UnbufferedConnection::new(layer(alg, 2, 1), 128, true);
    let mut out = vec![0u8; 512];
    let n = client.encrypt_early_data(&[9u8; 200], &mut out).unwrap();
    assert_eq!(
        server.process_tls_records(&out[..n]).err(),
        Some(Error::TooMuchEarlyDataReceived)
    );
}

#[test]
fn several_records_in_one_call_sum_their_discards() {
    let (mut client, mut server) = peers(0, false);
    let mut out = vec![0u8; 4096];
    let mut used = 0;
    for part in [b"one".as_slice(), b"two", b"three"] {
        used += client.encrypt_app_data(part, &mut out[used..]).unwrap();
    }
    let partial = used + 3;
    out[used..partial].copy_from_slice(&[23, 3, 3]);
    let st = server.process_tls_records(&out[..partial]).unwrap();
    let recs = data_records(&st);
    assert_eq!(
        recs.iter().map(|r| r.1.clone()).collect::<Vec<_>>(),
        vec![b"one".to_vec(), b"two".to_vec(), b"three".to_vec()]
    );
    assert_eq!(st.discard + recs.iter().map(|r| r.0).sum::<usize>(), used);
    assert_eq!(server.record_layer.read_seq, 3);
}

#[test]
fn undecryptable_record_is_fatal() {
    let (mut client, mut server) = peers(0, false);
    let mut out = vec![0u8; 256];
    let n = client.encrypt_app_data(b"payload", &mut out).unwrap();
    out[n - 1] ^= 0x80;
    assert_eq!(server.process_tls_records(&out[..n]).err(), Some(Error::DecryptError));
}

#[test]
fn framing_error_is_fatal() {
    let (_, mut server) = peers(0, false);
    assert_eq!(
        server.process_tls_records(&[99, 3, 3, 0, 1, 0]).err(),
        Some(Error::InvalidContentType)
    );
}

#[test]
fn encode_with_nothing_queued() {
    let (mut client, _) = peers(0, false);
    let mut out = vec![0u8; 64];
    assert_eq!(client.encode_tls_data(&mut out), Err(EncodeError::AlreadyEncoded));
}

#[test]
fn exact_shortfall_then_success() {
    let (mut client, _) = peers(0, false);
    for avail in [0usize, 1, 5, 20, 5 + 10 + 17 - 1] {
        let mut out = vec![0u8; avail];
        let r = client.encrypt_app_data(&[1u8; 10], &mut out);
        assert_eq!(r, Err(EncryptError::InsufficientSize(5 + 10 + 17 - avail)));
        out.resize(5 + 10 + 17, 0);
        assert_eq!(client.encrypt_app_data(&[1u8; 10], &mut out), Ok(5 + 10 + 17));
    }
}

#[test]
fn large_data_is_split_into_fragments() {
    let (mut client, mut server) = peers(0, false);
    let data: Vec<u8> = (0..40000u32).map(|i| (i % 253) as u8).collect();
    let needed = 40000 + 3 * (5 + 1 + 16);
    let mut out = vec![0u8; needed - 1];
    assert_eq!(client.encrypt_app_data(&data, &mut out), Err(EncryptError::InsufficientSize(1)));
    assert_eq!(client.record_layer.write_seq, 0);
    out.resize(needed, 0);
    assert_eq!(client.encrypt_app_data(&data, &mut out), Ok(needed));
    assert_eq!(client.record_layer.write_seq, 3);
    let st = server.process_tls_records(&out).unwrap();
    let recs = data_records(&st);
    assert_eq!(recs.len(), 3);
    assert_eq!(recs[0].1.len(), 16384);
    assert_eq!(recs[1].1.len(), 16384);
    assert_eq!(recs[2].1.len(), 40000 - 2 * 16384);
    let joined: Vec<u8> = recs.iter().flat_map(|r| r.1.clone()).collect();
    assert_eq!(joined, data);
    assert_eq!(st.discard + recs.iter().map(|r| r.0).sum::<usize>(), needed);
}

#[test]
fn empty_data_writes_nothing() {
    let (mut client, _) = peers(0, false);
    let mut out = vec![0u8; 0];
    assert_eq!(client.encrypt_app_data(&[], &mut out), Ok(0));
    assert_eq!(client.record_layer.write_seq, 0);
}

#[test]
fn write_epoch_limit_refuses_whole_send() {
    let alg = AeadAlgorithm::Chacha20Poly1305;
    let key = AeadKey::new(vec![3u8; alg.key_len()]);
    let mut rl = RecordLayer::new();
    rl.set_message_encrypter(alg.encrypter(key, Iv::new([3u8; 12])), 2);
    rl.set_message_decrypter(alg.decrypter(AeadKey::new(vec![4u8; 32]), Iv::new([4u8; 12])), 2);
    let mut conn = UnbufferedConnection::new(rl, 0, false);
    let mut out = vec![0u8; 60000];
    assert_eq!(
        conn.encrypt_app_data(&vec![1u8; 40000], &mut out),
        Err(EncryptError::Record(Error::EncryptionLimitReached))
    );
    assert_eq!(conn.record_layer.write_seq, 0);
    assert!(conn.encrypt_app_data(&vec![1u8; 20000], &mut out).is_ok());
    assert_eq!(conn.record_layer.write_seq, 2);
}

#[test]
fn close_notify_ends_the_batch() {
    let (mut client, mut server) = peers(0, false);
    let mut out = vec![0u8; 1024];
    let mut used = client.encrypt_app_data(b"a", &mut out).unwrap();
    client.queue_close_notify();
    used += client.encode_tls_data(&mut out[used..]).unwrap();
    let before_trailer = used;
    used += client.encrypt_app_data(b"b", &mut out[used..]).unwrap();
    let st = server.process_tls_records(&out[..used]).unwrap();
    let recs = data_records(&st);
    assert_eq!(recs.iter().map(|r| r.1.clone()).collect::<Vec<_>>(), vec![b"a".to_vec()]);
    assert_eq!(st.discard + recs.iter().map(|r| r.0).sum::<usize>(), before_trailer);
    assert!(server.peer_closed);
    let st = server.process_tls_records(&out[before_trailer..used]).unwrap();
    assert!(matches!(st.state, ConnectionState::ConnectionClosed));
}
