//! The messages that client and server exchange, and their bytes on the wire.

use crate::chunks::{join, law_join_keeps_every_byte};
use crate::wire::{
    block, get_block, get_text, get_token, get_u32, get_u64, law_numbers_are_read_as_spelled,
    law_numbers_are_written_shortest, lemma_token_read_back, put_block, put_text, put_token, put_varint,
    spells, take_block, take_text, take_token, take_varint, text, varint, TOKEN_LEN,
};
use vstd::arithmetic::power2::pow2;
use vstd::prelude::*;
use vstd::utf8::{decode_utf8, encode_utf8, valid_utf8};

verus! {

/// How the audio of a request is compressed.
#[derive(Debug, Clone, Copy, PartialEq, Eq, Structural)]
pub enum CompressionFormat {
    Opus,
}

/// A message of the UDP protocol.
#[derive(Debug, Clone)]
pub enum Message {
    /// A piece of the audio of a request.
    AudioChunk {
        request_id: u64,
        chunk_index: u32,
        total_chunks: u32,
        duration_ms: u64,
        data: Vec<u8>,
        auth_token: [u8; 32],
        compression: CompressionFormat,
    },
    /// The client gives up a request.
    Cancel { request_id: u64, auth_token: [u8; 32] },
    /// A piece of the transcript of a request, in SRT format.
    Result { request_id: u64, chunk_index: u32, total_chunks: u32, data: Vec<u8> },
    /// A request failed or was refused.
    Error { request_id: u64, message: String },
}

/// A message as mathematics: byte vectors are sequences of bytes, text is characters.
#[verifier::ext_equal]
pub enum MessageView {
    AudioChunk {
        request_id: u64,
        chunk_index: u32,
        total_chunks: u32,
        duration_ms: u64,
        data: Seq<u8>,
        auth_token: Seq<u8>,
        compression: CompressionFormat,
    },
    Cancel { request_id: u64, auth_token: Seq<u8> },
    Result { request_id: u64, chunk_index: u32, total_chunks: u32, data: Seq<u8> },
    Error { request_id: u64, message: Seq<char> },
}

impl View for Message {
    type V = MessageView;

    open spec fn view(&self) -> MessageView {
        match *self {
            Message::AudioChunk {
                request_id,
                chunk_index,
                total_chunks,
                duration_ms,
                data,
                auth_token,
                compression,
            } => MessageView::AudioChunk {
                request_id,
                chunk_index,
                total_chunks,
                duration_ms,
                data: data@,
                auth_token: auth_token@,
                compression,
            },
            Message::Cancel { request_id, auth_token } => MessageView::Cancel {
                request_id,
                auth_token: auth_token@,
            },
            Message::Result { request_id, chunk_index, total_chunks, data } => MessageView::Result {
                request_id,
                chunk_index,
                total_chunks,
                data: data@,
            },
            Message::Error { request_id, message } => MessageView::Error {
                request_id,
                message: message@,
            },
        }
    }
}

impl MessageView {
    /// The request that the message belongs to.
    pub open spec fn request(self) -> u64 {
        match self {
            MessageView::AudioChunk { request_id, .. } => request_id,
            MessageView::Cancel { request_id, .. } => request_id,
            MessageView::Result { request_id, .. } => request_id,
            MessageView::Error { request_id, .. } => request_id,
        }
    }

    /// The token that proves the sender's right to ask; only requests carry one.
    pub open spec fn token(self) -> Option<Seq<u8>> {
        match self {
            MessageView::AudioChunk { auth_token, .. } => Some(auth_token),
            MessageView::Cancel { auth_token, .. } => Some(auth_token),
            _ => None,
        }
    }

    /// A token has its fixed number of bytes, and lengths fit in memory.
    pub open spec fn valid(self) -> bool {
        match self {
            MessageView::AudioChunk { data, auth_token, .. } => {
                &&& data.len() <= usize::MAX
                &&& auth_token.len() == TOKEN_LEN
            },
            MessageView::Cancel { auth_token, .. } => auth_token.len() == TOKEN_LEN,
            MessageView::Result { data, .. } => data.len() <= usize::MAX,
            MessageView::Error { message, .. } => encode_utf8(message).len() <= usize::MAX,
        }
    }

    /// The bytes of the message: the number of its kind, then its fields in order.
    pub open spec fn wire(self) -> Seq<u8> {
        match self {
            MessageView::AudioChunk {
                request_id,
                chunk_index,
                total_chunks,
                duration_ms,
                data,
                auth_token,
                compression,
            } => varint(0) + varint(request_id as nat) + varint(chunk_index as nat) + varint(
                total_chunks as nat,
            ) + varint(duration_ms as nat) + block(data) + auth_token + varint(
                compression_number(compression),
            ),
            MessageView::Cancel { request_id, auth_token } => varint(1) + varint(request_id as nat)
                + auth_token,
            MessageView::Result { request_id, chunk_index, total_chunks, data } => varint(2)
                + varint(request_id as nat) + varint(chunk_index as nat) + varint(
                total_chunks as nat,
            ) + block(data),
            MessageView::Error { request_id, message } => varint(3) + varint(request_id as nat)
                + text(message),
        }
    }

    /// The message at the front of `s`; bytes behind it do not matter.
    pub open spec fn parse(s: Seq<u8>) -> Option<MessageView> {
        match take_varint(s, 32) {
            Some((kind, rest)) => if kind == 0 {
                parse_audio_chunk(rest)
            } else if kind == 1 {
                parse_cancel(rest)
            } else if kind == 2 {
                parse_result(rest)
            } else if kind == 3 {
                parse_error(rest)
            } else {
                None
            },
            None => None,
        }
    }
}

/// The number that stands for a compression format on the wire.
pub open spec fn compression_number(compression: CompressionFormat) -> nat {
    match compression {
        CompressionFormat::Opus => 0,
    }
}

/// The fields of an audio chunk at the front of `s`.
pub open spec fn parse_audio_chunk(s: Seq<u8>) -> Option<MessageView> {
    if let Some((request_id, s)) = take_varint(s, 64) {
        if let Some((chunk_index, s)) = take_varint(s, 32) {
            if let Some((total_chunks, s)) = take_varint(s, 32) {
                if let Some((duration_ms, s)) = take_varint(s, 64) {
                    if let Some((data, s)) = take_block(s) {
                        if let Some((auth_token, s)) = take_token(s) {
                            if let Some((format, s)) = take_varint(s, 32) {
                                if format == 0 {
                                    Some(
                                        MessageView::AudioChunk {
                                            request_id: request_id as u64,
                                            chunk_index: chunk_index as u32,
                                            total_chunks: total_chunks as u32,
                                            duration_ms: duration_ms as u64,
                                            data,
                                            auth_token,
                                            compression: CompressionFormat::Opus,
                                        },
                                    )
                                } else {
                                    None
                                }
                            } else {
                                None
                            }
                        } else {
                            None
                        }
                    } else {
                        None
                    }
                } else {
                    None
                }
            } else {
                None
            }
        } else {
            None
        }
    } else {
        None
    }
}

/// The fields of a cancellation at the front of `s`.
pub open spec fn parse_cancel(s: Seq<u8>) -> Option<MessageView> {
    if let Some((request_id, s)) = take_varint(s, 64) {
        if let Some((auth_token, s)) = take_token(s) {
            Some(MessageView::Cancel { request_id: request_id as u64, auth_token })
        } else {
            None
        }
    } else {
        None
    }
}

/// The fields of a piece of transcript at the front of `s`.
pub open spec fn parse_result(s: Seq<u8>) -> Option<MessageView> {
    if let Some((request_id, s)) = take_varint(s, 64) {
        if let Some((chunk_index, s)) = take_varint(s, 32) {
            if let Some((total_chunks, s)) = take_varint(s, 32) {
                if let Some((data, s)) = take_block(s) {
                    Some(
                        MessageView::Result {
                            request_id: request_id as u64,
                            chunk_index: chunk_index as u32,
                            total_chunks: total_chunks as u32,
                            data,
                        },
                    )
                } else {
                    None
                }
            } else {
                None
            }
        } else {
            None
        }
    } else {
        None
    }
}

/// The fields of an error at the front of `s`.
pub open spec fn parse_error(s: Seq<u8>) -> Option<MessageView> {
    if let Some((request_id, s)) = take_varint(s, 64) {
        if let Some((message, s)) = take_text(s) {
            Some(MessageView::Error { request_id: request_id as u64, message })
        } else {
            None
        }
    } else {
        None
    }
}

/// Work for a worker: audio to be transcribed.
#[derive(Debug)]
pub struct TranscriptionJob {
    pub request_id: u64,
    pub audio_data: Vec<u8>,
    pub duration_ms: u64,
}

/// What a worker made of a job.
#[derive(Debug)]
pub enum JobResult {
    Success { request_id: u64, srt_data: Vec<u8> },
    Error { request_id: u64, message: String },
}

/// A worker's result as mathematics.
#[verifier::ext_equal]
pub enum JobResultView {
    Success { request_id: u64, srt_data: Seq<u8> },
    Error { request_id: u64, message: Seq<char> },
}

impl View for JobResult {
    type V = JobResultView;

    open spec fn view(&self) -> JobResultView {
        match *self {
            JobResult::Success { request_id, srt_data } => JobResultView::Success {
                request_id,
                srt_data: srt_data@,
            },
            JobResult::Error { request_id, message } => JobResultView::Error {
                request_id,
                message: message@,
            },
        }
    }
}

impl JobResultView {
    /// The request that the result belongs to.
    pub open spec fn request(self) -> u64 {
        match self {
            JobResultView::Success { request_id, .. } => request_id,
            JobResultView::Error { request_id, .. } => request_id,
        }
    }
}

/// Why a message could not be written or read.
#[derive(Debug, Clone, Copy, PartialEq, Eq, Structural)]
pub enum ProtocolError {
    /// The message could not be serialised.
    Encode,
    /// The datagram could not be decrypted.
    Decrypt,
    /// The bytes are not those of a message.
    Decode,
}

/// The cipher refused its input.
#[derive(Debug, Clone, Copy, PartialEq, Eq, Structural)]
pub struct CipherError;

/// A serialised message on its way out.
#[derive(Debug)]
pub enum Envelope {
    /// The datagram itself.
    Plain(Vec<u8>),
    /// What the cipher turns into the datagram.
    ToEncrypt(Vec<u8>),
}

/// A decryption's outcome as mathematics; `None` where there is no key.
pub open spec fn decryption_view(decryption: Option<Result<Vec<u8>, CipherError>>) -> Option<
    Result<Seq<u8>, CipherError>,
> {
    match decryption {
        Some(Ok(plain)) => Some(Ok(plain@)),
        Some(Err(e)) => Some(Err(e)),
        None => None,
    }
}

/// What a datagram says. With a key, what counts is what the cipher made of the datagram.
pub open spec fn decoded(
    data: Seq<u8>,
    decryption: Option<Result<Seq<u8>, CipherError>>,
) -> Result<MessageView, ProtocolError> {
    match decryption {
        Some(Err(_)) => Err(ProtocolError::Decrypt),
        Some(Ok(plain)) => match MessageView::parse(plain) {
            Some(message) => Ok(message),
            None => Err(ProtocolError::Decode),
        },
        None => match MessageView::parse(data) {
            Some(message) => Ok(message),
            None => Err(ProtocolError::Decode),
        },
    }
}

fn push_varint(out: &mut Vec<u8>, v: u64) -> (res: Result<(), ProtocolError>)
    ensures
        res is Ok,
        final(out)@ == old(out)@ + varint(v as nat),
{
    match put_varint(v) {
        Ok(mut bytes) => {
            out.append(&mut bytes);
            Ok(())
        },
        Err(_) => Err(ProtocolError::Encode),
    }
}

fn push_block(out: &mut Vec<u8>, data: &[u8]) -> (res: Result<(), ProtocolError>)
    ensures
        res is Ok,
        final(out)@ == old(out)@ + block(data@),
{
    match put_block(data) {
        Ok(mut bytes) => {
            out.append(&mut bytes);
            Ok(())
        },
        Err(_) => Err(ProtocolError::Encode),
    }
}

fn push_text(out: &mut Vec<u8>, chars: &str) -> (res: Result<(), ProtocolError>)
    ensures
        res is Ok,
        final(out)@ == old(out)@ + text(chars@),
{
    match put_text(chars) {
        Ok(mut bytes) => {
            out.append(&mut bytes);
            Ok(())
        },
        Err(_) => Err(ProtocolError::Encode),
    }
}

fn push_token(out: &mut Vec<u8>, token: &[u8; 32]) -> (res: Result<(), ProtocolError>)
    ensures
        res is Ok,
        final(out)@ == old(out)@ + token@,
{
    match put_token(token) {
        Ok(mut bytes) => {
            out.append(&mut bytes);
            Ok(())
        },
        Err(_) => Err(ProtocolError::Encode),
    }
}

impl Message {
    /// The request that the message belongs to.
    pub fn request_id(&self) -> (id: u64)
        ensures
            id == self@.request(),
    {
        match self {
            Message::AudioChunk { request_id, .. }
            | Message::Cancel { request_id, .. }
            | Message::Result { request_id, .. }
            | Message::Error { request_id, .. } => *request_id,
        }
    }

    /// The token of a request; answers carry none.
    pub fn auth_token(&self) -> (token: Option<&[u8; 32]>)
        ensures
            match token {
                Some(bytes) => self@.token() == Some(bytes@),
                None => self@.token() is None,
            },
    {
        match self {
            Message::AudioChunk { auth_token, .. } | Message::Cancel { auth_token, .. } => Some(
                auth_token,
            ),
            _ => None,
        }
    }

    /// The serialised message.
    fn to_bytes(&self) -> (res: Result<Vec<u8>, ProtocolError>)
        ensures
            res is Ok,
            res->Ok_0@ == self@.wire(),
    {
        let mut out: Vec<u8> = Vec::new();
        match self {
            Message::AudioChunk {
                request_id,
                chunk_index,
                total_chunks,
                duration_ms,
                data,
                auth_token,
                compression,
            } => {
                push_varint(&mut out, 0)?;
                push_varint(&mut out, *request_id)?;
                push_varint(&mut out, *chunk_index as u64)?;
                push_varint(&mut out, *total_chunks as u64)?;
                push_varint(&mut out, *duration_ms)?;
                push_block(&mut out, data.as_slice())?;
                push_token(&mut out, auth_token)?;
                match compression {
                    CompressionFormat::Opus => push_varint(&mut out, 0)?,
                }
            },
            Message::Cancel { request_id, auth_token } => {
                push_varint(&mut out, 1)?;
                push_varint(&mut out, *request_id)?;
                push_token(&mut out, auth_token)?;
            },
            Message::Result { request_id, chunk_index, total_chunks, data } => {
                push_varint(&mut out, 2)?;
                push_varint(&mut out, *request_id)?;
                push_varint(&mut out, *chunk_index as u64)?;
                push_varint(&mut out, *total_chunks as u64)?;
                push_block(&mut out, data.as_slice())?;
            },
            Message::Error { request_id, message } => {
                push_varint(&mut out, 3)?;
                push_varint(&mut out, *request_id)?;
                push_text(&mut out, message.as_str())?;
            },
        }
        assert(out@ =~= self@.wire());
        Ok(out)
    }

    /// Serialises the message. With `encrypted`, the bytes are for the cipher; without, they are
    /// the datagram. Serialising never fails.
    pub fn encode(&self, encrypted: bool) -> (res: Result<Envelope, ProtocolError>)
        ensures
            match res {
                Ok(Envelope::Plain(bytes)) => !encrypted && bytes@ == self@.wire(),
                Ok(Envelope::ToEncrypt(bytes)) => encrypted && bytes@ == self@.wire(),
                Err(_) => false,
            },
    {
        let serialized = self.to_bytes()?;
        if encrypted {
            Ok(Envelope::ToEncrypt(serialized))
        } else {
            Ok(Envelope::Plain(serialized))
        }
    }

    /// Reads the fields of an audio chunk.
    fn read_audio_chunk(s: &[u8]) -> (res: Option<Message>)
        ensures
            match res {
                Some(m) => parse_audio_chunk(s@) == Some(m@),
                None => parse_audio_chunk(s@) is None,
            },
    {
        let (request_id, s) = get_u64(s).ok()?;
        let (chunk_index, s) = get_u32(s).ok()?;
        let (total_chunks, s) = get_u32(s).ok()?;
        let (duration_ms, s) = get_u64(s).ok()?;
        let (data, s) = get_block(s).ok()?;
        let (auth_token, s) = get_token(s).ok()?;
        let (format, _) = get_u32(s).ok()?;
        if format == 0 {
            Some(
                Message::AudioChunk {
                    request_id,
                    chunk_index,
                    total_chunks,
                    duration_ms,
                    data,
                    auth_token,
                    compression: CompressionFormat::Opus,
                },
            )
        } else {
            None
        }
    }

    /// Reads the fields of a cancellation.
    fn read_cancel(s: &[u8]) -> (res: Option<Message>)
        ensures
            match res {
                Some(m) => parse_cancel(s@) == Some(m@),
                None => parse_cancel(s@) is None,
            },
    {
        let (request_id, s) = get_u64(s).ok()?;
        let (auth_token, _) = get_token(s).ok()?;
        Some(Message::Cancel { request_id, auth_token })
    }

    /// Reads the fields of a piece of transcript.
    fn read_result(s: &[u8]) -> (res: Option<Message>)
        ensures
            match res {
                Some(m) => parse_result(s@) == Some(m@),
                None => parse_result(s@) is None,
            },
    {
        let (request_id, s) = get_u64(s).ok()?;
        let (chunk_index, s) = get_u32(s).ok()?;
        let (total_chunks, s) = get_u32(s).ok()?;
        let (data, _) = get_block(s).ok()?;
        Some(Message::Result { request_id, chunk_index, total_chunks, data })
    }

    /// Reads the fields of an error.
    fn read_error(s: &[u8]) -> (res: Option<Message>)
        ensures
            match res {
                Some(m) => parse_error(s@) == Some(m@),
                None => parse_error(s@) is None,
            },
    {
        let (request_id, s) = get_u64(s).ok()?;
        let (message, _) = get_text(s).ok()?;
        Some(Message::Error { request_id, message })
    }

    /// Reads the message at the front of `s`.
    fn from_bytes(s: &[u8]) -> (res: Option<Message>)
        ensures
            match res {
                Some(m) => MessageView::parse(s@) == Some(m@),
                None => MessageView::parse(s@) is None,
            },
    {
        let (kind, s) = get_u32(s).ok()?;
        match kind {
            0 => Message::read_audio_chunk(s),
            1 => Message::read_cancel(s),
            2 => Message::read_result(s),
            3 => Message::read_error(s),
            _ => None,
        }
    }

    /// Reads the message in a datagram. `decryption` is what the cipher made of `data`, or `None`
    /// where there is no key.
    pub fn decode(data: &[u8], decryption: Option<Result<Vec<u8>, CipherError>>) -> (res: Result<
        Message,
        ProtocolError,
    >)
        ensures
            match res {
                Ok(m) => decoded(data@, decryption_view(decryption)) == Ok::<_, ProtocolError>(m@),
                Err(e) => decoded(data@, decryption_view(decryption)) == Err::<MessageView, _>(e),
            },
    {
        let message = match decryption {
            Some(Err(_)) => {
                return Err(ProtocolError::Decrypt);
            },
            Some(Ok(plain)) => Message::from_bytes(plain.as_slice()),
            None => Message::from_bytes(data),
        };
        match message {
            Some(m) => Ok(m),
            None => Err(ProtocolError::Decode),
        }
    }
}

/// Reading gives back what was written: every message is found at the front of its own bytes,
/// whatever follows them.
pub proof fn law_decode_inverts_encode(message: MessageView, rest: Seq<u8>)
    requires
        message.valid(),
    ensures
        MessageView::parse(message.wire() + rest) == Some(message),
{
    lemma_written_fields(message);
    lemma_written_join(message);
    law_message_is_read_as_spelled(written_fields(message), message, rest);
}

/// Two messages with the same bytes are the same message.
pub proof fn law_bytes_tell_messages_apart(one: MessageView, other: MessageView)
    requires
        one.valid(),
        other.valid(),
        one.wire() == other.wire(),
    ensures
        one == other,
{
    law_decode_inverts_encode(one, Seq::empty());
    law_decode_inverts_encode(other, Seq::empty());
}

/// A datagram that carries a message, encrypted or not, is read as that message, provided that the
/// cipher gives back what it was given.
pub proof fn law_datagram_is_read_back(message: MessageView, sealed: Seq<u8>)
    requires
        message.valid(),
    ensures
        decoded(message.wire(), None) == Ok::<_, ProtocolError>(message),
        decoded(sealed, Some(Ok(message.wire()))) == Ok::<_, ProtocolError>(message),
{
    law_decode_inverts_encode(message, Seq::empty());
    assert(message.wire() + Seq::<u8>::empty() =~= message.wire());
}

/// `e` spells the number of bytes in `data`.
pub open spec fn spells_length(e: Seq<u8>, data: Seq<u8>) -> bool {
    spells(e, data.len(), usize::BITS as nat)
}

/// `fields` are the bytes of the fields of `message`, in order and each on its own: first the
/// number of the message's kind, and in front of data and text their length.
pub open spec fn spells_message(fields: Seq<Seq<u8>>, message: MessageView) -> bool {
    match message {
        MessageView::AudioChunk {
            request_id,
            chunk_index,
            total_chunks,
            duration_ms,
            data,
            auth_token,
            compression,
        } => {
            &&& fields.len() == 9
            &&& spells(fields[0], 0, 32)
            &&& spells(fields[1], request_id as nat, 64)
            &&& spells(fields[2], chunk_index as nat, 32)
            &&& spells(fields[3], total_chunks as nat, 32)
            &&& spells(fields[4], duration_ms as nat, 64)
            &&& spells_length(fields[5], data)
            &&& fields[6] == data
            &&& fields[7] == auth_token
            &&& auth_token.len() == 32
            &&& compression is Opus
            &&& spells(fields[8], 0, 32)
        },
        MessageView::Cancel { request_id, auth_token } => {
            &&& fields.len() == 3
            &&& spells(fields[0], 1, 32)
            &&& spells(fields[1], request_id as nat, 64)
            &&& fields[2] == auth_token
            &&& auth_token.len() == 32
        },
        MessageView::Result { request_id, chunk_index, total_chunks, data } => {
            &&& fields.len() == 6
            &&& spells(fields[0], 2, 32)
            &&& spells(fields[1], request_id as nat, 64)
            &&& spells(fields[2], chunk_index as nat, 32)
            &&& spells(fields[3], total_chunks as nat, 32)
            &&& spells_length(fields[4], data)
            &&& fields[5] == data
        },
        MessageView::Error { request_id, message: chars } => {
            &&& fields.len() == 4
            &&& spells(fields[0], 3, 32)
            &&& spells(fields[1], request_id as nat, 64)
            &&& spells_length(fields[2], fields[3])
            &&& valid_utf8(fields[3])
            &&& decode_utf8(fields[3]) == chars
        },
    }
}

/// The front of a joined list is its first part.
proof fn lemma_join_from_front(parts: Seq<Seq<u8>>, rest: Seq<u8>)
    requires
        parts.len() > 0,
    ensures
        join(parts) + rest == parts[0] + (join(parts.skip(1)) + rest),
{
    law_join_keeps_every_byte(parts[0], seq![parts[0]], parts.skip(1));
    assert(parts =~= seq![parts[0]] + parts.skip(1));
    assert(join(parts) + rest =~= parts[0] + (join(parts.skip(1)) + rest));
}

/// A joined list begins with its first part, then its second, and so on.
spec fn from_field(fields: Seq<Seq<u8>>, k: int, rest: Seq<u8>) -> Seq<u8> {
    join(fields.skip(k)) + rest
}

proof fn lemma_from_field(fields: Seq<Seq<u8>>, rest: Seq<u8>)
    ensures
        from_field(fields, 0, rest) == join(fields) + rest,
        forall|k: int|
            0 <= k < fields.len() ==> #[trigger] from_field(fields, k, rest) == fields[k]
                + from_field(fields, k + 1, rest),
        from_field(fields, fields.len() as int, rest) == rest,
{
    assert(fields.skip(0) =~= fields);
    assert forall|k: int| 0 <= k < fields.len() implies #[trigger] from_field(fields, k, rest)
        == fields[k] + from_field(fields, k + 1, rest) by {
        lemma_join_from_front(fields.skip(k), rest);
        assert(fields.skip(k).skip(1) =~= fields.skip(k + 1));
        assert(fields.skip(k)[0] == fields[k]);
    }
    assert(fields.skip(fields.len() as int) =~= Seq::<Seq<u8>>::empty());
    assert(join(fields.skip(fields.len() as int)) + rest =~= rest);
}

/// Data behind its length is read.
proof fn lemma_spelled_block_is_read(e: Seq<u8>, data: Seq<u8>, rest: Seq<u8>)
    requires
        spells_length(e, data),
    ensures
        take_block(e + (data + rest)) == Some((data, rest)),
{
    law_numbers_are_read_as_spelled(e, data.len(), usize::BITS as nat, data + rest);
    assert((data + rest).take(data.len() as int) =~= data);
    assert((data + rest).skip(data.len() as int) =~= rest);
}

/// A message is read from any bytes that spell its fields in order, whatever follows them.
pub proof fn law_message_is_read_as_spelled(
    fields: Seq<Seq<u8>>,
    message: MessageView,
    rest: Seq<u8>,
)
    requires
        spells_message(fields, message),
    ensures
        MessageView::parse(join(fields) + rest) == Some(message),
{
    lemma_from_field(fields, rest);
    let s0 = from_field(fields, 0, rest);
    let s1 = from_field(fields, 1, rest);
    let s2 = from_field(fields, 2, rest);
    let s3 = from_field(fields, 3, rest);
    let s4 = from_field(fields, 4, rest);
    match message {
        MessageView::AudioChunk {
            request_id,
            chunk_index,
            total_chunks,
            duration_ms,
            data,
            auth_token,
            ..
        } => {
            let s5 = from_field(fields, 5, rest);
            let s6 = from_field(fields, 6, rest);
            let s7 = from_field(fields, 7, rest);
            let s8 = from_field(fields, 8, rest);
            law_numbers_are_read_as_spelled(fields[0], 0, 32, s1);
            law_numbers_are_read_as_spelled(fields[1], request_id as nat, 64, s2);
            law_numbers_are_read_as_spelled(fields[2], chunk_index as nat, 32, s3);
            law_numbers_are_read_as_spelled(fields[3], total_chunks as nat, 32, s4);
            law_numbers_are_read_as_spelled(fields[4], duration_ms as nat, 64, s5);
            lemma_spelled_block_is_read(fields[5], data, s7);
            lemma_token_read_back(auth_token, s8);
            law_numbers_are_read_as_spelled(fields[8], 0, 32, rest);
        },
        MessageView::Cancel { request_id, auth_token } => {
            law_numbers_are_read_as_spelled(fields[0], 1, 32, s1);
            law_numbers_are_read_as_spelled(fields[1], request_id as nat, 64, s2);
            lemma_token_read_back(auth_token, rest);
        },
        MessageView::Result { request_id, chunk_index, total_chunks, data } => {
            law_numbers_are_read_as_spelled(fields[0], 2, 32, s1);
            law_numbers_are_read_as_spelled(fields[1], request_id as nat, 64, s2);
            law_numbers_are_read_as_spelled(fields[2], chunk_index as nat, 32, s3);
            law_numbers_are_read_as_spelled(fields[3], total_chunks as nat, 32, s4);
            lemma_spelled_block_is_read(fields[4], data, rest);
        },
        MessageView::Error { request_id, .. } => {
            law_numbers_are_read_as_spelled(fields[0], 3, 32, s1);
            law_numbers_are_read_as_spelled(fields[1], request_id as nat, 64, s2);
            lemma_spelled_block_is_read(fields[2], fields[3], rest);
        },
    }
}

/// The bytes that a number was read from, and what is left of them.
proof fn lemma_split_number(s: Seq<u8>, bits: nat) -> (e: Seq<u8>)
    requires
        take_varint(s, bits) is Some,
    ensures
        spells(e, take_varint(s, bits)->Some_0.0, bits),
        s == e + take_varint(s, bits)->Some_0.1,
{
    law_numbers_are_read_as_spelled(s, 0, bits, Seq::empty());
    let left = take_varint(s, bits)->Some_0.1;
    let e = s.take(s.len() - left.len());
    assert(s =~= e + left);
    e
}

/// The bytes that a length was read from; behind them stand the data and what is left.
proof fn lemma_split_block(s: Seq<u8>) -> (e: Seq<u8>)
    requires
        take_block(s) is Some,
    ensures
        spells_length(e, take_block(s)->Some_0.0),
        s == e + (take_block(s)->Some_0.0 + take_block(s)->Some_0.1),
{
    let e = lemma_split_number(s, usize::BITS as nat);
    let (n, after) = take_varint(s, usize::BITS as nat)->0;
    assert(after =~= after.take(n as int) + after.skip(n as int));
    e
}

/// A number below `pow2(32)` or `pow2(64)` survives its way into a machine word.
proof fn lemma_word_limits()
    ensures
        pow2(32) == 0x1_0000_0000,
        pow2(64) == 0x1_0000_0000_0000_0000,
{
    vstd::arithmetic::power2::lemma2_to64();
    vstd::arithmetic::power2::lemma2_to64_rest();
}

/// Where the data of an audio chunk begin, given what follows the number of its kind.
spec fn at_data(s: Seq<u8>) -> Seq<u8> {
    let s2 = take_varint(s, 64)->Some_0.1;
    let s3 = take_varint(s2, 32)->Some_0.1;
    let s4 = take_varint(s3, 32)->Some_0.1;
    take_varint(s4, 64)->Some_0.1
}

/// What the numbers in front of the data of an audio chunk were read from.
proof fn lemma_split_chunk_numbers(s: Seq<u8>) -> (e: (Seq<u8>, Seq<u8>, Seq<u8>, Seq<u8>))
    requires
        parse_audio_chunk(s) is Some,
    ensures
        ({
            let m = parse_audio_chunk(s)->0;
            &&& spells(e.0, m->AudioChunk_request_id as nat, 64)
            &&& spells(e.1, m->AudioChunk_chunk_index as nat, 32)
            &&& spells(e.2, m->AudioChunk_total_chunks as nat, 32)
            &&& spells(e.3, m->AudioChunk_duration_ms as nat, 64)
            &&& s == e.0 + (e.1 + (e.2 + (e.3 + at_data(s))))
        }),
{
    lemma_word_limits();
    let e1 = lemma_split_number(s, 64);
    let s2 = take_varint(s, 64)->Some_0.1;
    let e2 = lemma_split_number(s2, 32);
    let s3 = take_varint(s2, 32)->Some_0.1;
    let e3 = lemma_split_number(s3, 32);
    let s4 = take_varint(s3, 32)->Some_0.1;
    let e4 = lemma_split_number(s4, 64);
    (e1, e2, e3, e4)
}

/// What the data, the token and the format of an audio chunk were read from.
proof fn lemma_split_chunk_data(s: Seq<u8>) -> (e: (Seq<u8>, Seq<u8>, Seq<u8>))
    requires
        parse_audio_chunk(s) is Some,
    ensures
        ({
            let m = parse_audio_chunk(s)->0;
            &&& spells_length(e.0, m->AudioChunk_data)
            &&& m->AudioChunk_auth_token.len() == 32
            &&& m->AudioChunk_compression is Opus
            &&& spells(e.1, 0, 32)
            &&& at_data(s) == e.0 + (m->AudioChunk_data + (m->AudioChunk_auth_token + (e.1 + e.2)))
        }),
{
    let s5 = at_data(s);
    let e5 = lemma_split_block(s5);
    let (data, s7) = take_block(s5)->0;
    let (token, s8) = take_token(s7)->0;
    assert(s7 =~= token + s8);
    let e8 = lemma_split_number(s8, 32);
    (e5, e8, take_varint(s8, 32)->Some_0.1)
}

/// What the fields of an audio chunk were read from.
proof fn lemma_split_audio_chunk(s: Seq<u8>, e0: Seq<u8>) -> (res: (Seq<Seq<u8>>, Seq<u8>))
    requires
        parse_audio_chunk(s) is Some,
        spells(e0, 0, 32),
    ensures
        spells_message(res.0, parse_audio_chunk(s)->0),
        e0 + s == join(res.0) + res.1,
{
    let message = parse_audio_chunk(s)->0;
    let (e1, e2, e3, e4) = lemma_split_chunk_numbers(s);
    let (e5, e8, rest) = lemma_split_chunk_data(s);
    let fields = seq![
        e0,
        e1,
        e2,
        e3,
        e4,
        e5,
        message->AudioChunk_data,
        message->AudioChunk_auth_token,
        e8,
    ];
    lemma_flatten(fields, rest);
    assert(message is AudioChunk);
    (fields, rest)
}

/// What the fields of a cancellation were read from.
proof fn lemma_split_cancel(s: Seq<u8>, e0: Seq<u8>) -> (res: (Seq<Seq<u8>>, Seq<u8>))
    requires
        parse_cancel(s) is Some,
        spells(e0, 1, 32),
    ensures
        spells_message(res.0, parse_cancel(s)->0),
        e0 + s == join(res.0) + res.1,
{
    lemma_word_limits();
    let e1 = lemma_split_number(s, 64);
    let s2 = take_varint(s, 64)->Some_0.1;
    let (token, rest) = take_token(s2)->0;
    assert(s2 =~= token + rest);
    let fields = seq![e0, e1, token];
    lemma_flatten(fields, rest);
    (fields, rest)
}

/// What the fields of a piece of transcript were read from.
proof fn lemma_split_result(s: Seq<u8>, e0: Seq<u8>) -> (res: (Seq<Seq<u8>>, Seq<u8>))
    requires
        parse_result(s) is Some,
        spells(e0, 2, 32),
    ensures
        spells_message(res.0, parse_result(s)->0),
        e0 + s == join(res.0) + res.1,
{
    lemma_word_limits();
    let e1 = lemma_split_number(s, 64);
    let s2 = take_varint(s, 64)->Some_0.1;
    let e2 = lemma_split_number(s2, 32);
    let s3 = take_varint(s2, 32)->Some_0.1;
    let e3 = lemma_split_number(s3, 32);
    let s4 = take_varint(s3, 32)->Some_0.1;
    let e4 = lemma_split_block(s4);
    let (data, rest) = take_block(s4)->0;
    let fields = seq![e0, e1, e2, e3, e4, data];
    lemma_flatten(fields, rest);
    (fields, rest)
}

/// What the fields of an error were read from.
proof fn lemma_split_error(s: Seq<u8>, e0: Seq<u8>) -> (res: (Seq<Seq<u8>>, Seq<u8>))
    requires
        parse_error(s) is Some,
        spells(e0, 3, 32),
    ensures
        spells_message(res.0, parse_error(s)->0),
        e0 + s == join(res.0) + res.1,
{
    lemma_word_limits();
    let e1 = lemma_split_number(s, 64);
    let s2 = take_varint(s, 64)->Some_0.1;
    let e2 = lemma_split_block(s2);
    let (bytes, rest) = take_block(s2)->0;
    let fields = seq![e0, e1, e2, bytes];
    lemma_flatten(fields, rest);
    (fields, rest)
}

/// A message is read from nothing but bytes that spell its fields in order: these stand at the
/// front of what it was read from.
pub proof fn law_read_message_is_spelled(s: Seq<u8>) -> (res: (Seq<Seq<u8>>, Seq<u8>))
    requires
        MessageView::parse(s) is Some,
    ensures
        spells_message(res.0, MessageView::parse(s)->0),
        s == join(res.0) + res.1,
{
    let e0 = lemma_split_number(s, 32);
    let (kind, s1) = take_varint(s, 32)->0;
    if kind == 0 {
        lemma_split_audio_chunk(s1, e0)
    } else if kind == 1 {
        lemma_split_cancel(s1, e0)
    } else if kind == 2 {
        lemma_split_result(s1, e0)
    } else {
        lemma_split_error(s1, e0)
    }
}

/// A joined list of up to nine parts, written out.
proof fn lemma_flatten(f: Seq<Seq<u8>>, rest: Seq<u8>)
    ensures
        f.len() == 3 ==> join(f) + rest == f[0] + (f[1] + (f[2] + rest)),
        f.len() == 4 ==> join(f) + rest == f[0] + (f[1] + (f[2] + (f[3] + rest))),
        f.len() == 6 ==> join(f) + rest == f[0] + (f[1] + (f[2] + (f[3] + (f[4] + (f[5]
            + rest))))),
        f.len() == 9 ==> join(f) + rest == f[0] + (f[1] + (f[2] + (f[3] + (f[4] + (f[5] + (f[6] + (
        f[7] + (f[8] + rest)))))))),
{
    lemma_from_field(f, rest);
    if f.len() == 3 {
        assert(from_field(f, 0, rest) == f[0] + (f[1] + (f[2] + from_field(f, 3, rest))));
    }
    if f.len() == 4 {
        assert(from_field(f, 2, rest) == f[2] + (f[3] + from_field(f, 4, rest)));
        assert(from_field(f, 0, rest) == f[0] + (f[1] + from_field(f, 2, rest)));
    }
    if f.len() == 6 {
        assert(from_field(f, 3, rest) == f[3] + (f[4] + (f[5] + from_field(f, 6, rest))));
        assert(from_field(f, 0, rest) == f[0] + (f[1] + (f[2] + from_field(f, 3, rest))));
    }
    if f.len() == 9 {
        assert(from_field(f, 6, rest) == f[6] + (f[7] + (f[8] + from_field(f, 9, rest))));
        assert(from_field(f, 3, rest) == f[3] + (f[4] + (f[5] + from_field(f, 6, rest))));
        assert(from_field(f, 0, rest) == f[0] + (f[1] + (f[2] + from_field(f, 3, rest))));
    }
}

/// The length of a joined list.
proof fn lemma_join_len(f: Seq<Seq<u8>>)
    ensures
        f.len() == 3 ==> join(f).len() == f[0].len() + f[1].len() + f[2].len(),
        f.len() == 4 ==> join(f).len() == f[0].len() + f[1].len() + f[2].len() + f[3].len(),
        f.len() == 6 ==> join(f).len() == f[0].len() + f[1].len() + f[2].len() + f[3].len()
            + f[4].len() + f[5].len(),
        f.len() == 9 ==> join(f).len() == f[0].len() + f[1].len() + f[2].len() + f[3].len()
            + f[4].len() + f[5].len() + f[6].len() + f[7].len() + f[8].len(),
{
    lemma_flatten(f, Seq::empty());
    assert(join(f) + Seq::<u8>::empty() =~= join(f));
}

/// One more part goes behind the others.
proof fn lemma_join_push(parts: Seq<Seq<u8>>, part: Seq<u8>)
    ensures
        join(parts.push(part)) == join(parts) + part,
{
    assert(parts.push(part).drop_last() =~= parts);
}

/// A number is spelled by what is written for it.
proof fn lemma_written_number(v: nat, bits: nat)
    requires
        v < pow2(bits),
        bits >= 1,
    ensures
        spells(varint(v), v, bits),
{
    law_numbers_are_written_shortest(v, bits, Seq::empty());
}

/// A length is spelled by what is written for it.
proof fn lemma_written_length(data: Seq<u8>)
    requires
        data.len() <= usize::MAX,
    ensures
        data.len() < pow2(usize::BITS as nat),
        spells_length(varint(data.len()), data),
{
    assert(data.len() < pow2(usize::BITS as nat)) by {
        vstd::arithmetic::power2::lemma2_to64();
        vstd::layout::unsigned_int_max_values();
    }
    lemma_written_number(data.len(), usize::BITS as nat);
}

/// The fields of a message as they are written.
spec fn written_fields(message: MessageView) -> Seq<Seq<u8>> {
    match message {
        MessageView::AudioChunk {
            request_id,
            chunk_index,
            total_chunks,
            duration_ms,
            data,
            auth_token,
            compression,
        } => Seq::empty().push(varint(0)).push(varint(request_id as nat)).push(
            varint(chunk_index as nat),
        ).push(varint(total_chunks as nat)).push(varint(duration_ms as nat)).push(
            varint(data.len()),
        ).push(data).push(auth_token).push(varint(0)),
        MessageView::Cancel { request_id, auth_token } => Seq::empty().push(varint(1)).push(
            varint(request_id as nat),
        ).push(auth_token),
        MessageView::Result { request_id, chunk_index, total_chunks, data } => Seq::empty().push(
            varint(2),
        ).push(varint(request_id as nat)).push(varint(chunk_index as nat)).push(
            varint(total_chunks as nat),
        ).push(varint(data.len())).push(data),
        MessageView::Error { request_id, message: chars } => Seq::empty().push(varint(3)).push(
            varint(request_id as nat),
        ).push(varint(encode_utf8(chars).len())).push(encode_utf8(chars)),
    }
}

/// Written one behind the other, the fields are the message's bytes.
proof fn lemma_written_join(message: MessageView)
    ensures
        join(written_fields(message)) == message.wire(),
{
    let f0 = Seq::<Seq<u8>>::empty();
    assert(join(f0) =~= Seq::<u8>::empty());
    match message {
        MessageView::AudioChunk {
            request_id,
            chunk_index,
            total_chunks,
            duration_ms,
            data,
            auth_token,
            ..
        } => {
            let f1 = f0.push(varint(0));
            let f2 = f1.push(varint(request_id as nat));
            let f3 = f2.push(varint(chunk_index as nat));
            let f4 = f3.push(varint(total_chunks as nat));
            let f5 = f4.push(varint(duration_ms as nat));
            let f6 = f5.push(varint(data.len()));
            let f7 = f6.push(data);
            let f8 = f7.push(auth_token);
            lemma_join_push(f0, varint(0));
            lemma_join_push(f1, varint(request_id as nat));
            lemma_join_push(f2, varint(chunk_index as nat));
            lemma_join_push(f3, varint(total_chunks as nat));
            lemma_join_push(f4, varint(duration_ms as nat));
            lemma_join_push(f5, varint(data.len()));
            lemma_join_push(f6, data);
            lemma_join_push(f7, auth_token);
            lemma_join_push(f8, varint(0));
            assert(join(f0) + varint(0) =~= varint(0));
            assert(join(f5) + varint(data.len()) + data =~= join(f5) + block(data));
        },
        MessageView::Cancel { request_id, auth_token } => {
            let f1 = f0.push(varint(1));
            let f2 = f1.push(varint(request_id as nat));
            lemma_join_push(f0, varint(1));
            lemma_join_push(f1, varint(request_id as nat));
            lemma_join_push(f2, auth_token);
            assert(join(f0) + varint(1) =~= varint(1));
        },
        MessageView::Result { request_id, chunk_index, total_chunks, data } => {
            let f1 = f0.push(varint(2));
            let f2 = f1.push(varint(request_id as nat));
            let f3 = f2.push(varint(chunk_index as nat));
            let f4 = f3.push(varint(total_chunks as nat));
            let f5 = f4.push(varint(data.len()));
            lemma_join_push(f0, varint(2));
            lemma_join_push(f1, varint(request_id as nat));
            lemma_join_push(f2, varint(chunk_index as nat));
            lemma_join_push(f3, varint(total_chunks as nat));
            lemma_join_push(f4, varint(data.len()));
            lemma_join_push(f5, data);
            assert(join(f0) + varint(2) =~= varint(2));
            assert(join(f4) + varint(data.len()) + data =~= join(f4) + block(data));
        },
        MessageView::Error { request_id, message: chars } => {
            let bytes = encode_utf8(chars);
            let f1 = f0.push(varint(3));
            let f2 = f1.push(varint(request_id as nat));
            let f3 = f2.push(varint(bytes.len()));
            lemma_join_push(f0, varint(3));
            lemma_join_push(f1, varint(request_id as nat));
            lemma_join_push(f2, varint(bytes.len()));
            lemma_join_push(f3, bytes);
            assert(join(f0) + varint(3) =~= varint(3));
            assert(join(f2) + varint(bytes.len()) + bytes =~= join(f2) + text(chars));
        },
    }
}

/// What is written for the fields spells them.
proof fn lemma_written_fields(message: MessageView)
    requires
        message.valid(),
    ensures
        spells_message(written_fields(message), message),
{
    lemma_word_limits();
    match message {
        MessageView::AudioChunk {
            request_id,
            chunk_index,
            total_chunks,
            duration_ms,
            data,
            ..
        } => {
            lemma_written_number(0, 32);
            lemma_written_number(request_id as nat, 64);
            lemma_written_number(chunk_index as nat, 32);
            lemma_written_number(total_chunks as nat, 32);
            lemma_written_number(duration_ms as nat, 64);
            lemma_written_length(data);
        },
        MessageView::Cancel { request_id, .. } => {
            lemma_written_number(1, 32);
            lemma_written_number(request_id as nat, 64);
        },
        MessageView::Result { request_id, chunk_index, total_chunks, data } => {
            lemma_written_number(2, 32);
            lemma_written_number(request_id as nat, 64);
            lemma_written_number(chunk_index as nat, 32);
            lemma_written_number(total_chunks as nat, 32);
            lemma_written_length(data);
        },
        MessageView::Error { request_id, message: chars } => {
            vstd::utf8::encode_utf8_valid_utf8(chars);
            vstd::utf8::encode_utf8_decode_utf8(chars);
            lemma_written_number(3, 32);
            lemma_written_number(request_id as nat, 64);
            lemma_written_length(encode_utf8(chars));
        },
    }
}

/// A message is written as bytes that spell its fields, and nothing that spells them is shorter.
pub proof fn law_wire_is_the_shortest_spelling(message: MessageView, other: Seq<Seq<u8>>) -> (fields:
    Seq<Seq<u8>>)
    requires
        message.valid(),
    ensures
        spells_message(fields, message),
        join(fields) == message.wire(),
        spells_message(other, message) ==> message.wire().len() <= join(other).len(),
{
    let fields = written_fields(message);
    lemma_written_fields(message);
    lemma_written_join(message);
    if spells_message(other, message) {
        lemma_join_len(fields);
        lemma_join_len(other);
        lemma_word_limits();
        assert(pow2(usize::BITS as nat) > usize::MAX) by {
            vstd::arithmetic::power2::lemma2_to64();
            vstd::layout::unsigned_int_max_values();
        }
        match message {
            MessageView::AudioChunk {
                request_id,
                chunk_index,
                total_chunks,
                duration_ms,
                data,
                ..
            } => {
                law_numbers_are_written_shortest(0, 32, other[0]);
                law_numbers_are_written_shortest(request_id as nat, 64, other[1]);
                law_numbers_are_written_shortest(chunk_index as nat, 32, other[2]);
                law_numbers_are_written_shortest(total_chunks as nat, 32, other[3]);
                law_numbers_are_written_shortest(duration_ms as nat, 64, other[4]);
                law_numbers_are_written_shortest(data.len(), usize::BITS as nat, other[5]);
                law_numbers_are_written_shortest(0, 32, other[8]);
            },
            MessageView::Cancel { request_id, .. } => {
                law_numbers_are_written_shortest(1, 32, other[0]);
                law_numbers_are_written_shortest(request_id as nat, 64, other[1]);
            },
            MessageView::Result { request_id, chunk_index, total_chunks, data } => {
                law_numbers_are_written_shortest(2, 32, other[0]);
                law_numbers_are_written_shortest(request_id as nat, 64, other[1]);
                law_numbers_are_written_shortest(chunk_index as nat, 32, other[2]);
                law_numbers_are_written_shortest(total_chunks as nat, 32, other[3]);
                law_numbers_are_written_shortest(data.len(), usize::BITS as nat, other[4]);
            },
            MessageView::Error { request_id, message: chars } => {
                vstd::utf8::decode_utf8_encode_utf8(other[3]);
                law_numbers_are_written_shortest(3, 32, other[0]);
                law_numbers_are_written_shortest(request_id as nat, 64, other[1]);
                law_numbers_are_written_shortest(
                    encode_utf8(chars).len(),
                    usize::BITS as nat,
                    other[2],
                );
            },
        }
    }
    fields
}

/// With a key a datagram says what its plain bytes would say without one; what the cipher refuses
/// says nothing. Bytes that are those of no message are told apart from those that the cipher
/// refused.
pub proof fn law_cipher_changes_no_message(plain: Seq<u8>, sealed: Seq<u8>, e: CipherError)
    ensures
        decoded(sealed, Some(Ok(plain))) == decoded(plain, None),
        decoded(sealed, Some(Err(e))) == Err::<MessageView, _>(ProtocolError::Decrypt),
        decoded(plain, None) == match MessageView::parse(plain) {
            Some(message) => Ok::<_, ProtocolError>(message),
            None => Err(ProtocolError::Decode),
        },
{
}

/// What the cipher made of a datagram is taken as it is.
pub proof fn law_decryption_is_shown(decryption: Option<Result<Vec<u8>, CipherError>>)
    ensures
        decryption is None <==> decryption_view(decryption) is None,
        decryption matches Some(Ok(plain)) ==> decryption_view(decryption) == Some(
            Ok::<_, CipherError>(plain@),
        ),
        decryption matches Some(Err(e)) ==> decryption_view(decryption) == Some(
            Err::<Seq<u8>, _>(e),
        ),
{
}

/// Every field of a message is shown as it is, and the message tells its own request and token.
pub proof fn law_message_is_shown(message: Message)
    ensures
        match message {
            Message::AudioChunk {
                request_id,
                chunk_index,
                total_chunks,
                duration_ms,
                data,
                auth_token,
                compression,
            } => {
                &&& message@ == (MessageView::AudioChunk {
                    request_id,
                    chunk_index,
                    total_chunks,
                    duration_ms,
                    data: data@,
                    auth_token: auth_token@,
                    compression,
                })
                &&& message@.request() == request_id
                &&& message@.token() == Some(auth_token@)
            },
            Message::Cancel { request_id, auth_token } => {
                &&& message@ == (MessageView::Cancel { request_id, auth_token: auth_token@ })
                &&& message@.request() == request_id
                &&& message@.token() == Some(auth_token@)
            },
            Message::Result { request_id, chunk_index, total_chunks, data } => {
                &&& message@ == (MessageView::Result {
                    request_id,
                    chunk_index,
                    total_chunks,
                    data: data@,
                })
                &&& message@.request() == request_id
                &&& message@.token() is None
            },
            Message::Error { request_id, message: chars } => {
                &&& message@ == (MessageView::Error { request_id, message: chars@ })
                &&& message@.request() == request_id
                &&& message@.token() is None
            },
        },
{
}

/// Every field of a worker's result is shown as it is.
pub proof fn law_job_result_is_shown(result: JobResult)
    ensures
        match result {
            JobResult::Success { request_id, srt_data } => {
                &&& result@ == (JobResultView::Success { request_id, srt_data: srt_data@ })
                &&& result@.request() == request_id
            },
            JobResult::Error { request_id, message } => {
                &&& result@ == (JobResultView::Error { request_id, message: message@ })
                &&& result@.request() == request_id
            },
        },
{
}

} // verus!
