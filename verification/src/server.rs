//! The server's state and what each event does to it.
//!
//! The server is driven from outside: whoever owns the socket, the clock, the cipher, the decoder
//! and the workers hands it events and carries out the actions that it returns.

use crate::assembly::{AssemblyStatus, AssemblyView, PendingAssembly, StatusView};
use crate::chunks::{messages_view, result_messages, split_transcript};
use crate::protocol::{
    decoded, decryption_view, CipherError, CompressionFormat, Envelope, JobResult, JobResultView,
    Message, MessageView, ProtocolError, TranscriptionJob,
};
use std::collections::{HashMap, HashSet};
use vstd::prelude::*;
use vstd::std_specs::hash::*;

verus! {

broadcast use vstd::std_specs::hash::group_hash_axioms;

/// What the operator decided.
pub struct ServerConfig {
    /// Datagrams are encrypted.
    pub enable_encryption: bool,
    /// The passphrase that the cipher's key is made from.
    pub encryption_key: String,
    /// The secret that clients prove to know; empty if anyone may ask.
    pub auth_secret: String,
}

/// Why a configuration is refused.
#[derive(Debug, Clone, Copy, PartialEq, Eq, Structural)]
pub enum ConfigError {
    /// Encryption is enabled without a passphrase.
    MissingEncryptionKey,
}

impl ServerConfig {
    /// Encryption needs a passphrase.
    pub fn validate(&self) -> (res: Result<(), ConfigError>)
        ensures
            match res {
                Ok(()) => !self.enable_encryption || self.encryption_key@.len() > 0,
                Err(e) => {
                    &&& self.enable_encryption
                    &&& self.encryption_key@.len() == 0
                    &&& e == ConfigError::MissingEncryptionKey
                },
            },
    {
        if self.enable_encryption && self.encryption_key.as_str().is_empty() {
            Err(ConfigError::MissingEncryptionKey)
        } else {
            Ok(())
        }
    }

    /// The passphrase to make the cipher's key from, where there is to be one.
    pub fn passphrase(&self) -> (passphrase: Option<&str>)
        ensures
            match passphrase {
                Some(p) => self.enable_encryption && p@ == self.encryption_key@,
                None => !self.enable_encryption,
            },
    {
        if self.enable_encryption {
            Some(self.encryption_key.as_str())
        } else {
            None
        }
    }

    /// The secret to make the token of requests from, where there is to be one.
    pub fn secret(&self) -> (secret: Option<&str>)
        ensures
            match secret {
                Some(s) => self.auth_secret@.len() > 0 && s@ == self.auth_secret@,
                None => self.auth_secret@.len() == 0,
            },
    {
        if self.auth_secret.as_str().is_empty() {
            None
        } else {
            Some(self.auth_secret.as_str())
        }
    }
}

/// Where a client is: an internet address and a port.
#[allow(inconsistent_fields)]
#[derive(Debug, Clone, Copy, PartialEq, Eq, Structural)]
pub enum PeerAddr {
    V4 { ip: u32, port: u16 },
    V6 { ip: u128, port: u16, flowinfo: u32, scope_id: u32 },
}

/// A chunk of audio and where it came from.
#[derive(Debug)]
pub struct ReceivedChunk {
    pub request_id: u64,
    pub chunk_index: u32,
    pub total_chunks: u32,
    pub duration_ms: u64,
    pub data: Vec<u8>,
    pub compression: CompressionFormat,
    pub addr: PeerAddr,
}

/// A chunk as mathematics.
#[verifier::ext_equal]
pub struct ChunkView {
    pub request_id: u64,
    pub chunk_index: u32,
    pub total_chunks: u32,
    pub duration_ms: u64,
    pub data: Seq<u8>,
    pub compression: CompressionFormat,
    pub addr: PeerAddr,
}

impl View for ReceivedChunk {
    type V = ChunkView;

    open spec fn view(&self) -> ChunkView {
        ChunkView {
            request_id: self.request_id,
            chunk_index: self.chunk_index,
            total_chunks: self.total_chunks,
            duration_ms: self.duration_ms,
            data: self.data@,
            compression: self.compression,
            addr: self.addr,
        }
    }
}

/// What a datagram asks to be done.
#[derive(Debug)]
pub enum PacketAction {
    /// The token is wrong: send the answer.
    Refuse { answer: Message, addr: PeerAddr },
    /// The message should carry a token and cannot; nothing is answered.
    MissingToken,
    /// The message is none that a client sends; nothing is answered.
    Unexpected,
    /// The chunk was kept; more are to come.
    Stored,
    /// The chunk was kept; as many have come as the request has, but this one is not among them.
    Incomplete { missing: u32 },
    /// The audio is whole: decompress it.
    Decompress { request_id: u64, compression: CompressionFormat, data: Vec<u8> },
    /// Have the workers skip the request, then send the answer.
    Cancel { request_id: u64, answer: Message, addr: PeerAddr },
}

/// What a datagram asks to be done, as mathematics.
#[verifier::ext_equal]
pub enum PacketActionView {
    Refuse { answer: MessageView, addr: PeerAddr },
    MissingToken,
    Unexpected,
    Stored,
    Incomplete { missing: u32 },
    Decompress { request_id: u64, compression: CompressionFormat, data: Seq<u8> },
    Cancel { request_id: u64, answer: MessageView, addr: PeerAddr },
}

impl View for PacketAction {
    type V = PacketActionView;

    open spec fn view(&self) -> PacketActionView {
        match *self {
            PacketAction::Refuse { answer, addr } => PacketActionView::Refuse {
                answer: answer@,
                addr,
            },
            PacketAction::MissingToken => PacketActionView::MissingToken,
            PacketAction::Unexpected => PacketActionView::Unexpected,
            PacketAction::Stored => PacketActionView::Stored,
            PacketAction::Incomplete { missing } => PacketActionView::Incomplete { missing },
            PacketAction::Decompress {
                request_id,
                compression,
                data,
            } => PacketActionView::Decompress { request_id, compression, data: data@ },
            PacketAction::Cancel { request_id, answer, addr } => PacketActionView::Cancel {
                request_id,
                answer: answer@,
                addr,
            },
        }
    }
}

/// What a worker's result asks to be done.
#[derive(Debug)]
pub enum JobAction {
    /// The request was cancelled: nothing.
    Drop,
    /// Nobody is waiting for the failure: nothing.
    NoClient,
    /// Send the messages in order; once all are sent, report the delivery.
    Send { messages: Vec<Message>, addr: PeerAddr },
}

/// What a worker's result asks to be done, as mathematics.
#[verifier::ext_equal]
pub enum JobActionView {
    Drop,
    NoClient,
    Send { messages: Seq<MessageView>, addr: PeerAddr },
}

impl View for JobAction {
    type V = JobActionView;

    open spec fn view(&self) -> JobActionView {
        match *self {
            JobAction::Drop => JobActionView::Drop,
            JobAction::NoClient => JobActionView::NoClient,
            JobAction::Send { messages, addr } => JobActionView::Send {
                messages: messages_view(messages@),
                addr,
            },
        }
    }
}

/// Why a worker's result cannot be handled.
#[derive(Debug, Clone, Copy, PartialEq, Eq, Structural)]
pub enum ServerError {
    /// There is a transcript, but no address to send it to.
    ClientAddressNotFound,
}

/// The state of a server as mathematics.
#[verifier::ext_equal]
pub struct ServerView {
    /// The requests whose audio is not whole yet.
    pub assemblies: Map<u64, AssemblyView>,
    /// Where to send the answer to each request.
    pub client_addrs: Map<u64, PeerAddr>,
    /// The requests that were given up.
    pub cancelled: Set<u64>,
    /// Whether datagrams are encrypted.
    pub encryption: bool,
    /// The token that requests must carry.
    pub expected_auth_token: Option<Seq<u8>>,
}

/// The answer that says why a request was not served.
pub open spec fn error_answer(request_id: u64, reason: Seq<char>) -> MessageView {
    MessageView::Error { request_id, message: reason }
}

impl ServerView {
    /// The message may be acted upon.
    pub open spec fn admits(self, message: MessageView) -> bool {
        match self.expected_auth_token {
            Some(expected) => message.token() == Some(expected),
            None => true,
        }
    }

    /// The assembly that a chunk belongs to, with the chunk in it.
    pub open spec fn assembly_with(self, chunk: ChunkView, now: u128) -> AssemblyView {
        let base = if self.assemblies.contains_key(chunk.request_id) {
            self.assemblies[chunk.request_id]
        } else {
            AssemblyView::started(chunk.total_chunks, chunk.duration_ms, chunk.compression, now)
        };
        base.with_chunk(chunk.chunk_index, chunk.data, now)
    }

    /// The state after a chunk. The sender of a request's first chunk is who will be answered.
    pub open spec fn after_chunk(self, chunk: ChunkView, now: u128) -> ServerView {
        let id = chunk.request_id;
        ServerView {
            assemblies: self.assemblies.insert(id, self.assembly_with(chunk, now)),
            client_addrs: if self.assemblies.contains_key(id) || self.client_addrs.contains_key(
                id,
            ) {
                self.client_addrs
            } else {
                self.client_addrs.insert(id, chunk.addr)
            },
            ..self
        }
    }

    /// What a chunk asks to be done.
    pub open spec fn chunk_action(self, chunk: ChunkView, now: u128) -> PacketActionView {
        let assembly = self.assembly_with(chunk, now);
        match assembly.status() {
            StatusView::Waiting => PacketActionView::Stored,
            StatusView::Missing(missing) => PacketActionView::Incomplete { missing },
            StatusView::Whole(data) => PacketActionView::Decompress {
                request_id: chunk.request_id,
                compression: assembly.compression,
                data,
            },
        }
    }

    /// The state after a request was given up.
    pub open spec fn after_cancel(self, request_id: u64) -> ServerView {
        ServerView {
            assemblies: self.assemblies.remove(request_id),
            client_addrs: self.client_addrs.remove(request_id),
            cancelled: self.cancelled.insert(request_id),
            ..self
        }
    }

    /// What giving up a request asks to be done.
    pub open spec fn cancel_action(request_id: u64, addr: PeerAddr) -> PacketActionView {
        PacketActionView::Cancel {
            request_id,
            answer: error_answer(request_id, "Cancelled"@),
            addr,
        }
    }

    /// The state after a message.
    pub open spec fn after_message(
        self,
        message: MessageView,
        addr: PeerAddr,
        now: u128,
    ) -> ServerView {
        if !self.admits(message) {
            self
        } else {
            match message {
                MessageView::AudioChunk { .. } => self.after_chunk(chunk_of(message, addr), now),
                MessageView::Cancel { request_id, .. } => self.after_cancel(request_id),
                _ => self,
            }
        }
    }

    /// What a message asks to be done.
    pub open spec fn message_action(
        self,
        message: MessageView,
        addr: PeerAddr,
        now: u128,
    ) -> PacketActionView {
        if !self.admits(message) {
            if message.token() is Some {
                PacketActionView::Refuse {
                    answer: error_answer(message.request(), "Unauthorized"@),
                    addr,
                }
            } else {
                PacketActionView::MissingToken
            }
        } else {
            match message {
                MessageView::AudioChunk { .. } => self.chunk_action(chunk_of(message, addr), now),
                MessageView::Cancel { request_id, .. } => Self::cancel_action(request_id, addr),
                _ => PacketActionView::Unexpected,
            }
        }
    }

    /// The state after the audio of a request went to the workers.
    pub open spec fn after_submission(self, request_id: u64) -> ServerView {
        ServerView { assemblies: self.assemblies.remove(request_id), ..self }
    }

    /// What a worker's result asks to be done.
    pub open spec fn job_action(self, result: JobResultView) -> Result<
        JobActionView,
        ServerError,
    > {
        let id = result.request();
        if self.cancelled.contains(id) {
            Ok(JobActionView::Drop)
        } else {
            match result {
                JobResultView::Success { srt_data, .. } => if self.client_addrs.contains_key(id) {
                    Ok(
                        JobActionView::Send {
                            messages: result_messages(id, srt_data),
                            addr: self.client_addrs[id],
                        },
                    )
                } else {
                    Err(ServerError::ClientAddressNotFound)
                },
                JobResultView::Error { message, .. } => if self.client_addrs.contains_key(id) {
                    Ok(
                        JobActionView::Send {
                            messages: seq![error_answer(id, message)],
                            addr: self.client_addrs[id],
                        },
                    )
                } else {
                    Ok(JobActionView::NoClient)
                },
            }
        }
    }

    /// The state after the answer to a request was sent.
    pub open spec fn after_delivery(self, request_id: u64) -> ServerView {
        ServerView {
            client_addrs: self.client_addrs.remove(request_id),
            cancelled: self.cancelled.remove(request_id),
            ..self
        }
    }

    /// The request waits for a chunk, and has waited too long.
    pub open spec fn is_stale(self, request_id: u64, now: u128) -> bool {
        self.assemblies.contains_key(request_id) && !self.assemblies[request_id].is_fresh(now)
    }

    /// The state after stale requests were forgotten.
    pub open spec fn after_cleanup(self, now: u128) -> ServerView {
        ServerView {
            assemblies: self.assemblies.restrict(
                self.assemblies.dom().filter(|id: u64| !self.is_stale(id, now)),
            ),
            client_addrs: self.client_addrs.restrict(
                self.client_addrs.dom().filter(|id: u64| !self.is_stale(id, now)),
            ),
            cancelled: self.cancelled.filter(|id: u64| !self.is_stale(id, now)),
            ..self
        }
    }
}

/// The chunk in a message.
pub open spec fn chunk_of(message: MessageView, addr: PeerAddr) -> ChunkView
    recommends
        message is AudioChunk,
{
    ChunkView {
        request_id: message->AudioChunk_request_id,
        chunk_index: message->AudioChunk_chunk_index,
        total_chunks: message->AudioChunk_total_chunks,
        duration_ms: message->AudioChunk_duration_ms,
        data: message->AudioChunk_data,
        compression: message->AudioChunk_compression,
        addr,
    }
}

/// The set of one more element is the set with that element.
proof fn lemma_take_one_more(s: Seq<u64>, i: int)
    requires
        0 <= i < s.len(),
    ensures
        s.take(i + 1).to_set() == s.take(i).to_set().insert(s[i]),
{
    let fewer = s.take(i);
    let more = s.take(i + 1);
    assert(more =~= fewer.push(s[i]));
    assert forall|x: u64| more.contains(x) <==> fewer.contains(x) || x == s[i] by {
        if fewer.contains(x) {
            let k = choose|k: int| 0 <= k < fewer.len() && fewer[k] == x;
            assert(more[k] == x);
        }
        assert(more[i] == s[i]);
    }
    assert(more.to_set() =~= fewer.to_set().insert(s[i]));
}

/// Whether two tokens are the same.
fn same_token(a: &[u8; 32], b: &[u8; 32]) -> (same: bool)
    ensures
        same == (a@ == b@),
{
    let mut i: usize = 0;
    while i < 32
        invariant
            i <= 32,
            a@.len() == 32,
            b@.len() == 32,
            forall|j: int| 0 <= j < i ==> a@[j] == b@[j],
        decreases 32 - i,
    {
        if a[i] != b[i] {
            assert(a@[i as int] != b@[i as int]);
            return false;
        }
        i = i + 1;
    }
    assert(a@ =~= b@);
    true
}

/// The error message that answers a request.
fn refusal(request_id: u64, reason: &str) -> (answer: Message)
    ensures
        answer@ == error_answer(request_id, reason@),
{
    Message::Error { request_id, message: reason.to_owned() }
}

/// A server.
pub struct UdpServer {
    assemblies: HashMap<u64, PendingAssembly>,
    client_addrs: HashMap<u64, PeerAddr>,
    cancelled: HashSet<u64>,
    encryption: bool,
    expected_auth_token: Option<[u8; 32]>,
}

impl View for UdpServer {
    type V = ServerView;

    closed spec fn view(&self) -> ServerView {
        ServerView {
            assemblies: self.assemblies@.map_values(|a: PendingAssembly| a@),
            client_addrs: self.client_addrs@,
            cancelled: self.cancelled@,
            encryption: self.encryption,
            expected_auth_token: match self.expected_auth_token {
                Some(token) => Some(token@),
                None => None,
            },
        }
    }
}

impl UdpServer {
    /// A server that has heard of no request yet. `auth_token` is the token made from the secret
    /// of the configuration, where there is one.
    pub fn bind(server_config: &ServerConfig, auth_token: Option<[u8; 32]>) -> (server: UdpServer)
        requires
            server_config.auth_secret@.len() > 0 ==> auth_token is Some,
        ensures
            server@.assemblies == Map::<u64, AssemblyView>::empty(),
            server@.client_addrs == Map::<u64, PeerAddr>::empty(),
            server@.cancelled == Set::<u64>::empty(),
            server@.encryption == server_config.enable_encryption,
            server@.expected_auth_token == if server_config.auth_secret@.len() > 0 {
                Some(auth_token->Some_0@)
            } else {
                None
            },
    {
        let expected_auth_token = if server_config.auth_secret.as_str().is_empty() {
            None
        } else {
            auth_token
        };
        let server = UdpServer {
            assemblies: HashMap::new(),
            client_addrs: HashMap::new(),
            cancelled: HashSet::new(),
            encryption: server_config.enable_encryption,
            expected_auth_token,
        };
        assert(server@.assemblies =~= Map::<u64, AssemblyView>::empty());
        server
    }

    /// Whether datagrams are encrypted.
    pub fn encryption(&self) -> (encryption: bool)
        ensures
            encryption == self@.encryption,
    {
        self.encryption
    }

    /// Handles a datagram that came from `addr` at the time `now`. `decryption` is what the cipher
    /// made of it, where there is a key.
    pub fn handle_packet(
        &mut self,
        data: &[u8],
        decryption: Option<Result<Vec<u8>, CipherError>>,
        addr: PeerAddr,
        now: u128,
    ) -> (res: Result<PacketAction, ProtocolError>)
        requires
            old(self)@.encryption == decryption is Some,
        ensures
            match decoded(data@, decryption_view(decryption)) {
                Ok(message) => {
                    &&& final(self)@ == old(self)@.after_message(message, addr, now)
                    &&& res matches Ok(action)
                    &&& action@ == old(self)@.message_action(message, addr, now)
                },
                Err(e) => final(self)@ == old(self)@ && res == Err::<PacketAction, _>(e),
            },
    {
        let message = match Message::decode(data, decryption) {
            Ok(message) => message,
            Err(e) => {
                return Err(e);
            },
        };
        if let Some(expected) = &self.expected_auth_token {
            match message.auth_token() {
                Some(received) => if !same_token(received, expected) {
                    return Ok(
                        PacketAction::Refuse {
                            answer: refusal(message.request_id(), "Unauthorized"),
                            addr,
                        },
                    );
                },
                None => {
                    return Ok(PacketAction::MissingToken);
                },
            }
        }
        assert(self@.admits(message@));
        match message {
            Message::AudioChunk {
                request_id,
                chunk_index,
                total_chunks,
                duration_ms,
                data,
                auth_token,
                compression,
            } => {
                let chunk = ReceivedChunk {
                    request_id,
                    chunk_index,
                    total_chunks,
                    duration_ms,
                    data,
                    compression,
                    addr,
                };
                Ok(self.handle_audio_chunk(chunk, now))
            },
            Message::Cancel { request_id, auth_token } => Ok(self.handle_cancel(request_id, addr)),
            _ => Ok(PacketAction::Unexpected),
        }
    }

    /// Keeps a chunk of audio that came at the time `now`.
    pub fn handle_audio_chunk(&mut self, chunk: ReceivedChunk, now: u128) -> (action: PacketAction)
        ensures
            final(self)@ == old(self)@.after_chunk(chunk@, now),
            action@ == old(self)@.chunk_action(chunk@, now),
    {
        let request_id = chunk.request_id;
        let mut assembly = match self.assemblies.remove(&request_id) {
            Some(assembly) => assembly,
            None => {
                if !self.client_addrs.contains_key(&request_id) {
                    self.client_addrs.insert(request_id, chunk.addr);
                }
                PendingAssembly::start(
                    chunk.total_chunks,
                    chunk.duration_ms,
                    chunk.compression,
                    now,
                )
            },
        };
        assembly.put(chunk.chunk_index, chunk.data, now);
        assert(assembly@ == old(self)@.assembly_with(chunk@, now));
        let status = assembly.status();
        let compression = assembly.compression();
        self.assemblies.insert(request_id, assembly);
        assert(self@.assemblies =~= old(self)@.after_chunk(chunk@, now).assemblies);
        assert(self@.client_addrs =~= old(self)@.after_chunk(chunk@, now).client_addrs);
        match status {
            AssemblyStatus::Waiting => PacketAction::Stored,
            AssemblyStatus::Missing(missing) => PacketAction::Incomplete { missing },
            AssemblyStatus::Whole(data) => PacketAction::Decompress {
                request_id,
                compression,
                data,
            },
        }
    }

    /// Gives up a request at the wish of the client at `addr`.
    pub fn handle_cancel(&mut self, request_id: u64, addr: PeerAddr) -> (action: PacketAction)
        ensures
            final(self)@ == old(self)@.after_cancel(request_id),
            action@ == ServerView::cancel_action(request_id, addr),
    {
        self.cancelled.insert(request_id);
        self.assemblies.remove(&request_id);
        self.client_addrs.remove(&request_id);
        assert(self@.assemblies =~= old(self)@.assemblies.remove(request_id));
        PacketAction::Cancel { request_id, answer: refusal(request_id, "Cancelled"), addr }
    }

    /// Makes the job of a request whose audio is whole, once it is decompressed to `audio_data`.
    /// The chunks are forgotten; the client's address is kept for the answer. `None` if the request
    /// has no chunks here.
    pub fn submit_assembly(&mut self, request_id: u64, audio_data: Vec<u8>) -> (job: Option<
        TranscriptionJob,
    >)
        ensures
            final(self)@ == old(self)@.after_submission(request_id),
            match job {
                Some(job) => {
                    &&& old(self)@.assemblies.contains_key(request_id)
                    &&& job.request_id == request_id
                    &&& job.audio_data == audio_data
                    &&& job.duration_ms == old(self)@.assemblies[request_id].duration_ms
                },
                None => !old(self)@.assemblies.contains_key(request_id),
            },
    {
        let removed = self.assemblies.remove(&request_id);
        assert(self@.assemblies =~= old(self)@.assemblies.remove(request_id));
        match removed {
            Some(assembly) => Some(
                TranscriptionJob { request_id, audio_data, duration_ms: assembly.duration_ms() },
            ),
            None => None,
        }
    }

    /// Decides what becomes of a worker's result.
    pub fn handle_job_result(&self, result: JobResult) -> (res: Result<JobAction, ServerError>)
        ensures
            match self@.job_action(result@) {
                Ok(expected) => res matches Ok(action) && action@ == expected,
                Err(e) => res == Err::<JobAction, _>(e),
            },
    {
        match result {
            JobResult::Success { request_id, srt_data } => {
                if self.cancelled.contains(&request_id) {
                    return Ok(JobAction::Drop);
                }
                self.send_srt_result(request_id, srt_data.as_slice())
            },
            JobResult::Error { request_id, message } => {
                if self.cancelled.contains(&request_id) {
                    return Ok(JobAction::Drop);
                }
                match self.client_addrs.get(&request_id) {
                    Some(addr) => {
                        let answer = Message::Error { request_id, message };
                        let mut messages: Vec<Message> = Vec::new();
                        messages.push(answer);
                        assert(messages_view(messages@) =~= seq![answer@]);
                        Ok(JobAction::Send { messages, addr: *addr })
                    },
                    None => Ok(JobAction::NoClient),
                }
            },
        }
    }

    /// The messages that carry a transcript to the client that waits for it.
    pub fn send_srt_result(&self, request_id: u64, srt_data: &[u8]) -> (res: Result<
        JobAction,
        ServerError,
    >)
        ensures
            if self@.client_addrs.contains_key(request_id) {
                &&& res matches Ok(action)
                &&& action@ == (JobActionView::Send {
                    messages: result_messages(request_id, srt_data@),
                    addr: self@.client_addrs[request_id],
                })
            } else {
                res == Err::<JobAction, _>(ServerError::ClientAddressNotFound)
            },
    {
        let messages = split_transcript(request_id, srt_data);
        match self.client_addrs.get(&request_id) {
            Some(addr) => Ok(JobAction::Send { messages, addr: *addr }),
            None => Err(ServerError::ClientAddressNotFound),
        }
    }

    /// Notes that all messages of the answer to a request were sent.
    pub fn reply_delivered(&mut self, request_id: u64)
        ensures
            final(self)@ == old(self)@.after_delivery(request_id),
    {
        self.client_addrs.remove(&request_id);
        self.cancelled.remove(&request_id);
    }

    /// Serialises a message for its way out: as the datagram, or for the cipher where there is one.
    pub fn send_message(&self, message: &Message) -> (res: Result<Envelope, ProtocolError>)
        ensures
            match res {
                Ok(Envelope::Plain(bytes)) => !self@.encryption && bytes@ == message@.wire(),
                Ok(Envelope::ToEncrypt(bytes)) => self@.encryption && bytes@ == message@.wire(),
                Err(_) => false,
            },
    {
        message.encode(self.encryption)
    }

    /// Forgets the requests that have waited too long for a chunk at the time `now`.
    pub fn cleanup_stale_assemblies(&mut self, now: u128)
        ensures
            final(self)@ == old(self)@.after_cleanup(now),
    {
        let stale = self.stale_requests(now);
        let ghost before = self@;
        let mut i: usize = 0;
        proof {
            let none = stale@.take(0).to_set();
            assert(none =~= Set::<u64>::empty());
            assert(before.assemblies.remove_keys(none) =~= before.assemblies);
            assert(before.client_addrs.remove_keys(none) =~= before.client_addrs);
            assert(before.cancelled.difference(none) =~= before.cancelled);
        }
        while i < stale.len()
            invariant
                i <= stale@.len(),
                self@.encryption == before.encryption,
                self@.expected_auth_token == before.expected_auth_token,
                self@.assemblies == before.assemblies.remove_keys(
                    stale@.take(i as int).to_set(),
                ),
                self@.client_addrs == before.client_addrs.remove_keys(
                    stale@.take(i as int).to_set(),
                ),
                self@.cancelled == before.cancelled.difference(stale@.take(i as int).to_set()),
            decreases stale.len() - i,
        {
            let id = stale[i];
            let ghost state = self@;
            self.assemblies.remove(&id);
            self.client_addrs.remove(&id);
            self.cancelled.remove(&id);
            proof {
                assert(self@.assemblies =~= state.assemblies.remove(id));
                lemma_take_one_more(stale@, i as int);
                let gone = stale@.take(i + 1).to_set();
                assert(self@.assemblies =~= before.assemblies.remove_keys(gone));
                assert(self@.client_addrs =~= before.client_addrs.remove_keys(gone));
                assert(self@.cancelled =~= before.cancelled.difference(gone));
            }
            i = i + 1;
        }
        proof {
            assert(stale@.take(i as int) =~= stale@);
            let after = before.after_cleanup(now);
            assert(self@.assemblies =~= after.assemblies);
            assert(self@.client_addrs =~= after.client_addrs);
            assert(self@.cancelled =~= after.cancelled);
        }
    }

    /// The requests that have waited too long for a chunk at the time `now`, in no given order.
    fn stale_requests(&self, now: u128) -> (stale: Vec<u64>)
        ensures
            forall|id: u64| stale@.to_set().contains(id) <==> self@.is_stale(id, now),
    {
        let mut stale: Vec<u64> = Vec::new();
        for id in it: self.assemblies.keys()
            invariant
                it.seq().unref().to_set() == self.assemblies@.dom(),
                forall|j: int|
                    0 <= j < stale@.len() ==> self@.is_stale(#[trigger] stale@[j], now),
                forall|j: int|
                    0 <= j < it.index() && self@.is_stale(*#[trigger] it.seq()[j], now)
                        ==> stale@.contains(*it.seq()[j]),
        {
            let ghost known = stale@;
            let ghost keys = it.seq();
            assert(*id == *keys[it.index()]);
            if let Some(assembly) = self.assemblies.get(id) {
                if !assembly.is_fresh(now) {
                    stale.push(*id);
                    assert(stale@[known.len() as int] == *id);
                }
            }
            assert forall|j: int|
                0 <= j < it.index() + 1 && self@.is_stale(
                    *#[trigger] keys[j],
                    now,
                ) implies stale@.contains(*keys[j]) by {
                if j < it.index() {
                    let k = choose|k: int| 0 <= k < known.len() && known[k] == *keys[j];
                    assert(stale@[k] == *keys[j]);
                }
            }
        }
        stale
    }
}

/// Every field of a chunk is shown as it is.
pub proof fn law_chunk_is_shown(chunk: ReceivedChunk)
    ensures
        chunk@.request_id == chunk.request_id,
        chunk@.chunk_index == chunk.chunk_index,
        chunk@.total_chunks == chunk.total_chunks,
        chunk@.duration_ms == chunk.duration_ms,
        chunk@.data == chunk.data@,
        chunk@.compression == chunk.compression,
        chunk@.addr == chunk.addr,
{
}

/// Every field of what a datagram asks for is shown as it is.
pub proof fn law_packet_action_is_shown(action: PacketAction)
    ensures
        match action {
            PacketAction::Refuse { answer, addr } => action@ == (PacketActionView::Refuse {
                answer: answer@,
                addr,
            }),
            PacketAction::MissingToken => action@ is MissingToken,
            PacketAction::Unexpected => action@ is Unexpected,
            PacketAction::Stored => action@ is Stored,
            PacketAction::Incomplete { missing } => action@ == (PacketActionView::Incomplete {
                missing,
            }),
            PacketAction::Decompress { request_id, compression, data } => action@ == (
            PacketActionView::Decompress { request_id, compression, data: data@ }),
            PacketAction::Cancel { request_id, answer, addr } => action@ == (
            PacketActionView::Cancel { request_id, answer: answer@, addr }),
        },
{
}

/// Every field of what a worker's result asks for is shown as it is.
pub proof fn law_job_action_is_shown(action: JobAction)
    ensures
        match action {
            JobAction::Drop => action@ is Drop,
            JobAction::NoClient => action@ is NoClient,
            JobAction::Send { messages, addr } => {
                &&& action@ is Send
                &&& action@->addr == addr
                &&& action@->messages.len() == messages@.len()
                &&& forall|i: int|
                    0 <= i < messages@.len() ==> #[trigger] action@->messages[i] == messages@[i]@
            },
        },
{
}

} // verus!
