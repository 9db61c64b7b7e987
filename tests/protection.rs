use tls_record::aead::{AeadAlgorithm, AeadKey, Tls13MessageDecrypter, Tls13MessageEncrypter};
use tls_record::cipher::{make_tls13_aad, Iv, Nonce};
use tls_record::message::{
    into_tls13_unpadded_message, ContentType, Error, OpaqueMessage, MAX_FRAGMENT_LEN,
    TLS12_VERSION, TLS13_VERSION,
};
use tls_record::record_layer::RecordLayer;

const ALGS: [AeadAlgorithm; 3] = [
    AeadAlgorithm::Aes128Gcm,
    AeadAlgorithm::Aes256Gcm,
    AeadAlgorithm::Chacha20Poly1305,
];

fn key_for(alg: AeadAlgorithm, seed: u8) -> AeadKey {
    let len = alg.key_len();
    AeadKey::new((0..len).map(|i| seed.wrapping_add(i as u8)).collect())
}

fn iv_for(seed: u8) -> Iv {
    let mut v = [0u8; 12];
    for (i, b) in v.iter_mut().enumerate() {
        *b = seed.wrapping_mul(3).wrapping_add(i as u8);
    }
    Iv::new(v)
}

fn pair(alg: AeadAlgorithm) -> (Tls13MessageEncrypter, Tls13MessageDecrypter) {
    (
        alg.encrypter(key_for(alg, 7), iv_for(9)),
        alg.decrypter(key_for(alg, 7), iv_for(9)),
    )
}

fn opaque(payload: Vec<u8>) -> OpaqueMessage {
    OpaqueMessage { typ: ContentType::ApplicationData, version: TLS12_VERSION, payload }
}

#[test]
fn nonce_xors_big_endian_sequence_into_iv() {
    let iv = Iv::new([0x10, 0x11, 0x12, 0x13, 0, 0, 0, 0, 0xff, 0xff, 0xff, 0xff]);
    let n = Nonce::new(&iv, 0x0102_0304_0506_0708);
    assert_eq!(n.0, [0x10, 0x11, 0x12, 0x13, 1, 2, 3, 4, 0xfa, 0xf9, 0xf8, 0xf7]);
    let zero = Nonce::new(&iv, 0);
    assert_eq!(zero.0, iv.0);
}

#[test]
fn aad_is_the_application_data_header() {
    assert_eq!(make_tls13_aad(0x1234), [0x17, 0x03, 0x03, 0x12, 0x34]);
    assert_eq!(make_tls13_aad(17), [0x17, 0x03, 0x03, 0x00, 0x11]);
}

#[test]
fn key_lengths_per_cipher() {
    assert_eq!(AeadAlgorithm::Aes128Gcm.key_len(), 16);
    assert_eq!(AeadAlgorithm::Aes256Gcm.key_len(), 32);
    assert_eq!(AeadAlgorithm::Chacha20Poly1305.key_len(), 32);
}

#[test]
fn content_type_bytes_round_trip() {
    for b in 0..=255u8 {
        assert_eq!(ContentType::read_u8(b).get_u8(), b);
    }
    assert_eq!(ContentType::read_u8(23), ContentType::ApplicationData);
    assert_eq!(ContentType::read_u8(99), ContentType::Unknown(99));
}

#[test]
fn unpadding_strips_zeros_and_takes_type() {
    let m = into_tls13_unpadded_message(vec![b'h', b'i', 0, 23, 0, 0, 0]).unwrap();
    assert_eq!(m.typ, ContentType::ApplicationData);
    assert_eq!(m.payload, vec![b'h', b'i', 0]);
    assert_eq!(m.version, TLS13_VERSION);
    assert_eq!(
        into_tls13_unpadded_message(vec![0, 0, 0]).err(),
        Some(Error::IllegalTlsInnerPlaintext)
    );
    assert_eq!(into_tls13_unpadded_message(vec![]).err(), Some(Error::IllegalTlsInnerPlaintext));
    let mut big = vec![1u8; MAX_FRAGMENT_LEN + 1];
    big.push(23);
    assert_eq!(into_tls13_unpadded_message(big).err(), Some(Error::PeerSentOversizedRecord));
    let mut padded = vec![1u8; MAX_FRAGMENT_LEN + 1];
    padded.push(0);
    assert_eq!(into_tls13_unpadded_message(padded).err(), Some(Error::PeerSentOversizedRecord));
}

#[test]
fn round_trip_every_cipher_and_size() {
    for alg in ALGS {
        let (enc, dec) = pair(alg);
        for len in [0usize, 1, 15, 16, 17, 1000, MAX_FRAGMENT_LEN] {
            let plain: Vec<u8> = (0..len).map(|i| (i % 251) as u8).collect();
            let sealed = enc.encrypt(ContentType::ApplicationData, &plain, 5).unwrap();
            assert_eq!(sealed.typ, ContentType::ApplicationData);
            assert_eq!(sealed.version, TLS12_VERSION);
            assert_eq!(sealed.payload.len(), len + 1 + 16);
            assert_eq!(sealed.payload.len(), enc.encrypted_payload_len(len));
            if len >= 16 {
                assert_ne!(&sealed.payload[..len], &plain[..]);
            }
            let opened = dec.decrypt(opaque(sealed.payload), 5).unwrap();
            assert_eq!(opened.typ, ContentType::ApplicationData);
            assert_eq!(opened.payload, plain);
        }
    }
}

#[test]
fn round_trip_keeps_inner_content_type() {
    let (enc, dec) = pair(AeadAlgorithm::Aes128Gcm);
    let sealed = enc.encrypt(ContentType::Handshake, &[0, 0, 1], 0).unwrap();
    assert_eq!(sealed.typ, ContentType::ApplicationData);
    let opened = dec.decrypt(opaque(sealed.payload), 0).unwrap();
    assert_eq!(opened.typ, ContentType::Handshake);
    assert_eq!(opened.payload, vec![0, 0, 1]);
}

#[test]
fn wrong_sequence_or_key_fails_to_open() {
    let (enc, dec) = pair(AeadAlgorithm::Chacha20Poly1305);
    let sealed = enc.encrypt(ContentType::ApplicationData, b"data", 3).unwrap();
    assert_eq!(dec.decrypt(opaque(sealed.payload.clone()), 4).err(), Some(Error::DecryptError));
    let other = AeadAlgorithm::Chacha20Poly1305
        .decrypter(key_for(AeadAlgorithm::Chacha20Poly1305, 8), iv_for(9));
    assert_eq!(other.decrypt(opaque(sealed.payload), 3).err(), Some(Error::DecryptError));
}

#[test]
fn short_record_fails_to_open() {
    let (_, dec) = pair(AeadAlgorithm::Aes256Gcm);
    assert_eq!(dec.decrypt(opaque(vec![0u8; 15]), 0).err(), Some(Error::DecryptError));
    assert_eq!(dec.decrypt(opaque(vec![]), 0).err(), Some(Error::DecryptError));
}

#[test]
fn flipping_any_bit_is_detected() {
    for alg in ALGS {
        let (enc, dec) = pair(alg);
        let sealed = enc.encrypt(ContentType::ApplicationData, b"attack at dawn", 1).unwrap();
        for byte in 0..sealed.payload.len() {
            for bit in 0..8 {
                let mut tampered = sealed.payload.clone();
                tampered[byte] ^= 1 << bit;
                assert_eq!(dec.decrypt(opaque(tampered), 1).err(), Some(Error::DecryptError));
            }
        }
    }
}

#[test]
fn successive_records_use_successive_sequence_numbers() {
    let alg = AeadAlgorithm::Aes128Gcm;
    let mut rl = RecordLayer::new();
    let (enc, _) = pair(alg);
    rl.set_message_encrypter(enc, 1000);
    let (_, dec) = pair(alg);
    let mut sealed = Vec::new();
    for i in 0..4u8 {
        assert_eq!(rl.write_seq, i as u64);
        sealed.push(rl.encrypt_outgoing(ContentType::ApplicationData, &[i]).unwrap());
    }
    for (i, m) in sealed.iter().enumerate() {
        let opened = dec.decrypt(opaque(m.payload.clone()), i as u64).unwrap();
        assert_eq!(opened.payload, vec![i as u8]);
    }
    let mut reader = RecordLayer::new();
    reader.set_message_decrypter(dec, 10);
    for (i, m) in sealed.into_iter().enumerate() {
        assert_eq!(reader.read_seq, i as u64);
        assert_eq!(reader.decrypt_incoming(m).unwrap().payload, vec![i as u8]);
    }
}

#[test]
fn confidentiality_limit_stops_sealing() {
    let mut rl = RecordLayer::new();
    rl.set_message_encrypter(pair(AeadAlgorithm::Aes256Gcm).0, 2);
    assert!(rl.encrypt_outgoing(ContentType::ApplicationData, b"a").is_ok());
    assert!(rl.encrypt_outgoing(ContentType::ApplicationData, b"b").is_ok());
    assert_eq!(
        rl.encrypt_outgoing(ContentType::ApplicationData, b"c").err(),
        Some(Error::EncryptionLimitReached)
    );
    assert_eq!(rl.write_seq, 2);
}

#[test]
fn integrity_limit_stops_opening() {
    let mut rl = RecordLayer::new();
    rl.set_message_decrypter(pair(AeadAlgorithm::Aes128Gcm).1, 1);
    assert_eq!(rl.decrypt_incoming(opaque(vec![0u8; 40])).err(), Some(Error::DecryptError));
    assert_eq!(rl.failed_decrypts, 1);
    let good = pair(AeadAlgorithm::Aes128Gcm).0.encrypt(ContentType::ApplicationData, b"x", 0).unwrap();
    assert_eq!(rl.decrypt_incoming(good).err(), Some(Error::DecryptionLimitReached));
    assert_eq!(rl.read_seq, 0);
}

#[test]
fn no_read_epoch_passes_records_through() {
    let mut rl = RecordLayer::new();
    let m = OpaqueMessage { typ: ContentType::Handshake, version: 0x0301, payload: vec![1, 2, 3] };
    let p = rl.decrypt_incoming(m).unwrap();
    assert_eq!(p.typ, ContentType::Handshake);
    assert_eq!(p.version, 0x0301);
    assert_eq!(p.payload, vec![1, 2, 3]);
}

#[test]
fn unknown_type_with_known_byte_comes_back_decoded() {
    let (enc, dec) = pair(AeadAlgorithm::Aes256Gcm);
    let sealed = enc.encrypt(ContentType::Unknown(22), b"abc", 2).unwrap();
    let opened = dec.decrypt(opaque(sealed.payload), 2).unwrap();
    assert_eq!(opened.typ, ContentType::Handshake);
    assert_eq!(opened.payload, b"abc".to_vec());
}

#[test]
fn per_cipher_usage_limits() {
    assert_eq!(AeadAlgorithm::Aes128Gcm.confidentiality_limit(), 1 << 23);
    assert_eq!(AeadAlgorithm::Aes256Gcm.confidentiality_limit(), 1 << 23);
    assert_eq!(AeadAlgorithm::Chacha20Poly1305.confidentiality_limit(), u64::MAX);
    assert_eq!(AeadAlgorithm::Aes128Gcm.integrity_limit(), 1 << 52);
    assert_eq!(AeadAlgorithm::Aes256Gcm.integrity_limit(), 1 << 52);
    assert_eq!(AeadAlgorithm::Chacha20Poly1305.integrity_limit(), 1 << 36);
}

#[test]
fn opened_payload_is_at_least_seventeen_bytes_shorter() {
    let (enc, dec) = pair(AeadAlgorithm::Chacha20Poly1305);
    for len in [0usize, 5, 300] {
        let sealed = enc.encrypt(ContentType::ApplicationData, &vec![4u8; len], 9).unwrap();
        let ct_len = sealed.payload.len();
        let opened = dec.decrypt(opaque(sealed.payload), 9).unwrap();
        assert!(opened.payload.len() + 17 <= ct_len);
    }
}
