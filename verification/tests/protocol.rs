use mpv_stt_server::protocol::{
    CipherError, CompressionFormat, Envelope, Message, ProtocolError,
};
use serde::ser::{Serialize, SerializeStructVariant, Serializer};

fn plain(message: &Message) -> Vec<u8> {
    match message.encode(false).unwrap() {
        Envelope::Plain(bytes) => bytes,
        Envelope::ToEncrypt(_) => panic!("encrypted"),
    }
}

fn token() -> [u8; 32] {
    let mut token = [0u8; 32];
    for (i, byte) in token.iter_mut().enumerate() {
        *byte = i as u8 + 100;
    }
    token
}

fn audio_chunk() -> Message {
    Message::AudioChunk {
        request_id: u64::MAX,
        chunk_index: 300,
        total_chunks: u32::MAX,
        duration_ms: 1_000_000,
        data: (0..=255).collect(),
        auth_token: token(),
        compression: CompressionFormat::Opus,
    }
}

fn cancel() -> Message {
    Message::Cancel { request_id: 300, auth_token: token() }
}

fn result() -> Message {
    Message::Result { request_id: 5, chunk_index: 1, total_chunks: 2, data: vec![9; 200] }
}

fn error() -> Message {
    Message::Error { request_id: 0, message: "取消 é".to_string() }
}

/// A message as serde's derive would hand it to a serializer.
struct Derived<'a>(&'a Message);

struct DerivedFormat;

impl Serialize for DerivedFormat {
    fn serialize<S: Serializer>(&self, serializer: S) -> Result<S::Ok, S::Error> {
        serializer.serialize_unit_variant("CompressionFormat", 0, "Opus")
    }
}

impl Serialize for Derived<'_> {
    fn serialize<S: Serializer>(&self, serializer: S) -> Result<S::Ok, S::Error> {
        match self.0 {
            Message::AudioChunk {
                request_id,
                chunk_index,
                total_chunks,
                duration_ms,
                data,
                auth_token,
                compression: CompressionFormat::Opus,
            } => {
                let mut v = serializer.serialize_struct_variant("Message", 0, "AudioChunk", 7)?;
                v.serialize_field("request_id", request_id)?;
                v.serialize_field("chunk_index", chunk_index)?;
                v.serialize_field("total_chunks", total_chunks)?;
                v.serialize_field("duration_ms", duration_ms)?;
                v.serialize_field("data", data)?;
                v.serialize_field("auth_token", auth_token)?;
                v.serialize_field("compression", &DerivedFormat)?;
                v.end()
            }
            Message::Cancel { request_id, auth_token } => {
                let mut v = serializer.serialize_struct_variant("Message", 1, "Cancel", 2)?;
                v.serialize_field("request_id", request_id)?;
                v.serialize_field("auth_token", auth_token)?;
                v.end()
            }
            Message::Result { request_id, chunk_index, total_chunks, data } => {
                let mut v = serializer.serialize_struct_variant("Message", 2, "Result", 4)?;
                v.serialize_field("request_id", request_id)?;
                v.serialize_field("chunk_index", chunk_index)?;
                v.serialize_field("total_chunks", total_chunks)?;
                v.serialize_field("data", data)?;
                v.end()
            }
            Message::Error { request_id, message } => {
                let mut v = serializer.serialize_struct_variant("Message", 3, "Error", 2)?;
                v.serialize_field("request_id", request_id)?;
                v.serialize_field("message", message)?;
                v.end()
            }
        }
    }
}

fn same(a: &Message, b: &Message) -> bool {
    format!("{:?}", a) == format!("{:?}", b)
}

#[test]
fn bytes_are_those_of_postcard() {
    for message in [audio_chunk(), cancel(), result(), error()] {
        assert_eq!(plain(&message), postcard::to_allocvec(&Derived(&message)).unwrap());
    }
}

#[test]
fn cancel_has_exact_bytes() {
    let mut expected = vec![1u8, 0xac, 0x02];
    expected.extend_from_slice(&token());
    assert_eq!(plain(&cancel()), expected);
}

#[test]
fn audio_chunk_has_exact_bytes() {
    let message = Message::AudioChunk {
        request_id: 1,
        chunk_index: 127,
        total_chunks: 128,
        duration_ms: 16384,
        data: vec![7, 8],
        auth_token: [5; 32],
        compression: CompressionFormat::Opus,
    };
    let mut expected = vec![0u8, 1, 127, 0x80, 0x01, 0x80, 0x80, 0x01, 2, 7, 8];
    expected.extend_from_slice(&[5; 32]);
    expected.push(0);
    assert_eq!(plain(&message), expected);
}

#[test]
fn result_has_exact_bytes() {
    let message = Message::Result { request_id: 2, chunk_index: 0, total_chunks: 1, data: vec![] };
    assert_eq!(plain(&message), vec![2, 2, 0, 1, 0]);
}

#[test]
fn error_has_exact_bytes() {
    let message = Message::Error { request_id: 3, message: "né".to_string() };
    assert_eq!(plain(&message), vec![3, 3, 3, b'n', 0xc3, 0xa9]);
}

#[test]
fn decode_gives_back_what_encode_was_given() {
    for message in [audio_chunk(), cancel(), result(), error()] {
        let decoded = Message::decode(&plain(&message), None).unwrap();
        assert!(same(&decoded, &message));
    }
}

#[test]
fn encrypted_messages_go_through_the_cipher() {
    let bytes = match cancel().encode(true).unwrap() {
        Envelope::ToEncrypt(bytes) => bytes,
        Envelope::Plain(_) => panic!("plain"),
    };
    assert_eq!(bytes, plain(&cancel()));
    let decoded = Message::decode(&[0xff, 0xff], Some(Ok(bytes))).unwrap();
    assert!(same(&decoded, &cancel()));
}

#[test]
fn failed_decryption_is_reported() {
    let res = Message::decode(&plain(&cancel()), Some(Err(CipherError)));
    assert_eq!(res.err(), Some(ProtocolError::Decrypt));
}

#[test]
fn bytes_behind_a_message_do_not_matter() {
    let mut bytes = plain(&error());
    bytes.extend_from_slice(&[1, 2, 3]);
    assert!(same(&Message::decode(&bytes, None).unwrap(), &error()));
}

#[test]
fn truncated_messages_are_refused() {
    for message in [audio_chunk(), cancel(), result(), error()] {
        let bytes = plain(&message);
        for n in 0..bytes.len() {
            assert_eq!(
                Message::decode(&bytes[..n], None).err(),
                Some(ProtocolError::Decode)
            );
        }
    }
}

#[test]
fn unknown_kind_is_refused() {
    assert_eq!(Message::decode(&[4, 1, 1, 1], None).err(), Some(ProtocolError::Decode));
}

#[test]
fn unknown_compression_is_refused() {
    let mut bytes = plain(&audio_chunk());
    let last = bytes.len() - 1;
    bytes[last] = 1;
    assert_eq!(Message::decode(&bytes, None).err(), Some(ProtocolError::Decode));
}

#[test]
fn invalid_text_is_refused() {
    assert_eq!(Message::decode(&[3, 0, 1, 0xff], None).err(), Some(ProtocolError::Decode));
}

#[test]
fn numbers_may_be_padded_but_not_too_long() {
    // The request number 0 in two bytes.
    let padded = Message::decode(&[3, 0x80, 0x00, 0], None).unwrap();
    assert_eq!(padded.request_id(), 0);
    // The largest request number, and one bit more.
    let mut largest = vec![3, 0xff, 0xff, 0xff, 0xff, 0xff, 0xff, 0xff, 0xff, 0xff, 0x01, 0];
    assert_eq!(Message::decode(&largest, None).unwrap().request_id(), u64::MAX);
    largest[10] = 0x02;
    assert_eq!(Message::decode(&largest, None).err(), Some(ProtocolError::Decode));
    // Eleven bytes.
    let eleven = [3, 0x80, 0x80, 0x80, 0x80, 0x80, 0x80, 0x80, 0x80, 0x80, 0x80, 0x00, 0];
    assert_eq!(Message::decode(&eleven, None).err(), Some(ProtocolError::Decode));
    // A kind of more than 32 bits.
    let wide = [0x83, 0x80, 0x80, 0x80, 0x10, 0, 0];
    assert_eq!(Message::decode(&wide, None).err(), Some(ProtocolError::Decode));
}

#[test]
fn oversized_length_is_refused() {
    let bytes = [2, 0, 0, 1, 0xff, 0xff, 0xff, 0xff, 0x0f, 1, 2, 3];
    assert_eq!(Message::decode(&bytes, None).err(), Some(ProtocolError::Decode));
}

#[test]
fn every_message_names_its_request() {
    assert_eq!(audio_chunk().request_id(), u64::MAX);
    assert_eq!(cancel().request_id(), 300);
    assert_eq!(result().request_id(), 5);
    assert_eq!(error().request_id(), 0);
}

#[test]
fn only_requests_carry_a_token() {
    assert_eq!(audio_chunk().auth_token(), Some(&token()));
    assert_eq!(cancel().auth_token(), Some(&token()));
    assert_eq!(result().auth_token(), None);
    assert_eq!(error().auth_token(), None);
}
