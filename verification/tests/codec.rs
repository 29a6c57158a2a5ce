use crio::container::{check_header, header_bytes, FORMAT_VERSION, MAGIC};
use crio::error::DatabaseError;
use crio::message::Message;
use crio::record::{decode_record_at, encode_record, DecodeOutcome};
use crio::storable::Storable;

fn sample_messages() -> Vec<Message> {
    let test1 = Message {
        id: 1,
        text: b"Hello there, you suck".to_vec(),
    };
    let test2 = Message {
        id: 2,
        text: b"No you".to_vec(),
    };
    let test3 = Message {
        id: 3,
        text: b"You both suck".to_vec(),
    };
    vec![test1, test2, test3]
}

fn frames_of(messages: &[Message]) -> Vec<u8> {
    let mut buf: Vec<u8> = Vec::new();
    for message in messages {
        let payload = message.encode();
        let frame = encode_record(&payload).unwrap();
        buf.extend_from_slice(&frame);
    }
    buf
}

fn read_all(buf: &Vec<u8>) -> Vec<Message> {
    let mut result: Vec<Message> = Vec::new();
    let mut off: usize = 0;
    loop {
        match decode_record_at(buf, off) {
            DecodeOutcome::Truncated => break,
            DecodeOutcome::Valid { payload, next } => {
                result.push(Message::decode(&payload).unwrap());
                off = next;
            }
            DecodeOutcome::Mismatch { .. } => panic!("unexpected checksum mismatch"),
        }
    }
    result
}

#[test]
fn binary_vec_conversion() {
    let test_messages = sample_messages();
    let binary = frames_of(&test_messages);
    let vec: Vec<Message> = read_all(&binary);
    assert_eq!(test_messages, vec);
}

#[test]
fn checksum_matches_published_check_value() {
    // The CRC-32/ISO-HDLC digest of "123456789" is 0xcbf43926; the first
    // four frame bytes store it little-endian.
    let payload = b"123456789".to_vec();
    let frame = encode_record(&payload).unwrap();
    assert_eq!(&frame[0..4], &[0x26, 0x39, 0xf4, 0xcb]);
}

#[test]
fn record_frame_layout() {
    let payload = vec![7u8, 8, 9];
    let frame = encode_record(&payload).unwrap();
    assert_eq!(frame.len(), 8 + 3);
    // length field, little-endian
    assert_eq!(&frame[4..8], &[3, 0, 0, 0]);
    // payload verbatim
    assert_eq!(&frame[8..], &[7, 8, 9]);
}

#[test]
fn decode_reports_truncation_as_clean_end() {
    let payload = vec![1u8, 2, 3, 4];
    let frame = encode_record(&payload).unwrap();
    // at the very end of the stream
    assert!(matches!(
        decode_record_at(&frame, frame.len()),
        DecodeOutcome::Truncated
    ));
    // inside the frame header
    let mut cut = frame.clone();
    cut.truncate(6);
    assert!(matches!(decode_record_at(&cut, 0), DecodeOutcome::Truncated));
    // inside the payload
    let mut cut = frame.clone();
    cut.truncate(10);
    assert!(matches!(decode_record_at(&cut, 0), DecodeOutcome::Truncated));
}

#[test]
fn decode_reports_mismatch_with_payload() {
    let payload = vec![1u8, 2, 3, 4];
    let mut frame = encode_record(&payload).unwrap();
    frame[9] ^= 0xff; // corrupt one payload byte
    match decode_record_at(&frame, 0) {
        DecodeOutcome::Mismatch {
            saved,
            expected,
            payload: recovered,
            next,
        } => {
            assert_eq!(recovered, vec![1u8, 0xfd, 3, 4]);
            assert_eq!(next, frame.len());
            assert_ne!(saved, expected);
            // the stored checksum is the digest of the original payload
            let original = encode_record(&payload).unwrap();
            let stored = [original[0], original[1], original[2], original[3]];
            assert_eq!(saved.to_le_bytes(), stored);
            // the recomputed digest is that of the corrupted payload
            let reframed = encode_record(&recovered).unwrap();
            let recomputed = [reframed[0], reframed[1], reframed[2], reframed[3]];
            assert_eq!(expected.to_le_bytes(), recomputed);
        }
        _ => panic!("expected a checksum mismatch"),
    }
}

#[test]
fn header_round_trip_and_rejection() {
    let header = header_bytes();
    assert_eq!(header.len(), 8);
    assert_eq!(check_header(&header), Ok(()));
    assert_eq!(u32::from_le_bytes([header[0], header[1], header[2], header[3]]), MAGIC);
    assert_eq!(u32::from_le_bytes([header[4], header[5], header[6], header[7]]), FORMAT_VERSION);

    // wrong magic is told apart from a wrong version
    let mut bad_magic = header.clone();
    bad_magic[0] ^= 0xff;
    assert_eq!(check_header(&bad_magic), Err(DatabaseError::BadMagic));

    let mut bad_version = header.clone();
    bad_version[4] = 0x2a;
    assert_eq!(
        check_header(&bad_version),
        Err(DatabaseError::UnsupportedVersion { found: 0x2a })
    );

    // too short to hold a header at all
    let short = vec![0u8; 5];
    assert_eq!(check_header(&short), Err(DatabaseError::BadMagic));
}

#[test]
fn message_codec_round_trip() {
    let message = Message {
        id: 0xdead_beef_0123_4567,
        text: b"payload".to_vec(),
    };
    let bytes = message.encode();
    assert_eq!(bytes.len(), 8 + 7);
    let back = Message::decode(&bytes).unwrap();
    assert_eq!(message, back);
    // fewer than eight bytes cannot hold the identifier
    assert!(Message::decode(&vec![1u8, 2, 3]).is_none());
}
