use mpv_stt_server::assembly::ASSEMBLY_TIMEOUT_NANOS;
use mpv_stt_server::protocol::{
    CipherError, CompressionFormat, Envelope, JobResult, Message, ProtocolError,
};
use mpv_stt_server::server::{
    ConfigError, JobAction, PacketAction, PeerAddr, ServerConfig, ServerError, UdpServer,
};

const SECOND: u128 = 1_000_000_000;

fn config(encryption: bool, key: &str, secret: &str) -> ServerConfig {
    ServerConfig {
        enable_encryption: encryption,
        encryption_key: key.to_string(),
        auth_secret: secret.to_string(),
    }
}

fn open_server() -> UdpServer {
    UdpServer::bind(&config(false, "", ""), None)
}

fn peer(port: u16) -> PeerAddr {
    PeerAddr::V4 { ip: 0x7f00_0001, port }
}

fn bytes(message: &Message) -> Vec<u8> {
    match message.encode(false).unwrap() {
        Envelope::Plain(bytes) => bytes,
        Envelope::ToEncrypt(_) => panic!("encrypted"),
    }
}

fn chunk(request_id: u64, index: u32, total: u32, data: &[u8]) -> Vec<u8> {
    chunk_with_token(request_id, index, total, data, [0; 32])
}

fn chunk_with_token(
    request_id: u64,
    index: u32,
    total: u32,
    data: &[u8],
    auth_token: [u8; 32],
) -> Vec<u8> {
    bytes(&Message::AudioChunk {
        request_id,
        chunk_index: index,
        total_chunks: total,
        duration_ms: 1000 + request_id,
        data: data.to_vec(),
        auth_token,
        compression: CompressionFormat::Opus,
    })
}

fn cancel(request_id: u64) -> Vec<u8> {
    bytes(&Message::Cancel { request_id, auth_token: [0; 32] })
}

fn packet(server: &mut UdpServer, data: &[u8], addr: PeerAddr, now: u128) -> PacketAction {
    server.handle_packet(data, None, addr, now).unwrap()
}

fn whole(action: PacketAction) -> (u64, Vec<u8>) {
    match action {
        PacketAction::Decompress { request_id, compression: CompressionFormat::Opus, data } => {
            (request_id, data)
        }
        other => panic!("{:?}", other),
    }
}

fn error_text(message: &Message) -> (u64, String) {
    match message {
        Message::Error { request_id, message } => (*request_id, message.clone()),
        other => panic!("{:?}", other),
    }
}

fn success(request_id: u64) -> JobResult {
    JobResult::Success { request_id, srt_data: b"1\n00:00".to_vec() }
}

fn failure(request_id: u64) -> JobResult {
    JobResult::Error { request_id, message: "no speech".to_string() }
}

#[test]
fn encryption_needs_a_passphrase() {
    assert_eq!(config(true, "", "").validate(), Err(ConfigError::MissingEncryptionKey));
    assert_eq!(config(true, "k", "").validate(), Ok(()));
    assert_eq!(config(false, "", "").validate(), Ok(()));
}

#[test]
fn configuration_says_what_to_derive() {
    let both = config(true, "pass", "secret");
    assert_eq!(both.passphrase(), Some("pass"));
    assert_eq!(both.secret(), Some("secret"));
    let none = config(false, "pass", "");
    assert_eq!(none.passphrase(), None);
    assert_eq!(none.secret(), None);
}

#[test]
fn chunks_are_joined_in_any_order() {
    let mut server = open_server();
    assert!(matches!(
        packet(&mut server, &chunk(7, 2, 3, b"c"), peer(1), 0),
        PacketAction::Stored
    ));
    assert!(matches!(
        packet(&mut server, &chunk(7, 0, 3, b"aa"), peer(1), 1),
        PacketAction::Stored
    ));
    assert!(matches!(
        packet(&mut server, &chunk(7, 0, 3, b"aa"), peer(1), 2),
        PacketAction::Stored
    ));
    let action = packet(&mut server, &chunk(7, 1, 3, b"b"), peer(1), 3);
    assert_eq!(whole(action), (7, b"aabc".to_vec()));
}

#[test]
fn other_requests_do_not_disturb() {
    let mut server = open_server();
    packet(&mut server, &chunk(1, 0, 2, b"a"), peer(1), 0);
    packet(&mut server, &chunk(2, 0, 2, b"x"), peer(2), 0);
    packet(&mut server, &cancel(2), peer(2), 0);
    packet(&mut server, &chunk(3, 1, 2, b"y"), peer(3), 0);
    server.cleanup_stale_assemblies(SECOND);
    let action = packet(&mut server, &chunk(1, 1, 2, b"b"), peer(1), SECOND);
    assert_eq!(whole(action), (1, b"ab".to_vec()));
}

#[test]
fn a_chunk_that_comes_again_replaces_the_first() {
    let mut server = open_server();
    packet(&mut server, &chunk(1, 0, 2, b"old"), peer(1), 0);
    packet(&mut server, &chunk(1, 0, 2, b"new"), peer(1), 0);
    let action = packet(&mut server, &chunk(1, 1, 2, b"!"), peer(1), 0);
    assert_eq!(whole(action), (1, b"new!".to_vec()));
}

#[test]
fn the_first_chunk_says_how_many_there_are() {
    let mut server = open_server();
    packet(&mut server, &chunk(1, 0, 2, b"a"), peer(1), 0);
    let action = packet(&mut server, &chunk(1, 1, 9, b"b"), peer(1), 0);
    assert_eq!(whole(action), (1, b"ab".to_vec()));
}

#[test]
fn missing_chunk_is_named() {
    let mut server = open_server();
    packet(&mut server, &chunk(1, 0, 2, b"a"), peer(1), 0);
    let action = packet(&mut server, &chunk(1, 5, 2, b"f"), peer(1), 0);
    assert!(matches!(action, PacketAction::Incomplete { missing: 1 }));
    // With a third chunk there are more than there should be, so the request stays as it is.
    let action = packet(&mut server, &chunk(1, 1, 2, b"b"), peer(1), 0);
    assert!(matches!(action, PacketAction::Stored));
}

#[test]
fn a_request_of_no_chunks_is_never_whole() {
    let mut server = open_server();
    let action = packet(&mut server, &chunk(1, 0, 0, b"a"), peer(1), 0);
    assert!(matches!(action, PacketAction::Stored));
}

#[test]
fn failed_decompression_leaves_the_chunks() {
    let mut server = open_server();
    whole(packet(&mut server, &chunk(1, 0, 1, b"a"), peer(1), 0));
    // Nothing was submitted, so the chunk is still there and the next one completes it again.
    let action = packet(&mut server, &chunk(1, 0, 1, b"b"), peer(1), 1);
    assert_eq!(whole(action), (1, b"b".to_vec()));
}

#[test]
fn submission_makes_the_job() {
    let mut server = open_server();
    whole(packet(&mut server, &chunk(4, 0, 1, b"a"), peer(1), 0));
    let job = server.submit_assembly(4, b"wav".to_vec()).unwrap();
    assert_eq!((job.request_id, job.duration_ms), (4, 1004));
    assert_eq!(job.audio_data, b"wav".to_vec());
    assert!(server.submit_assembly(4, Vec::new()).is_none());
    // The address is kept.
    assert!(matches!(
        server.handle_job_result(success(4)),
        Ok(JobAction::Send { addr, .. }) if addr == peer(1)
    ));
}

#[test]
fn transcript_goes_to_the_first_sender() {
    let mut server = open_server();
    packet(&mut server, &chunk(4, 0, 2, b"a"), peer(10), 0);
    packet(&mut server, &chunk(4, 1, 2, b"b"), peer(11), 0);
    match server.handle_job_result(success(4)).unwrap() {
        JobAction::Send { messages, addr } => {
            assert_eq!(addr, peer(10));
            assert_eq!(messages.len(), 1);
            assert_eq!(
                bytes(&messages[0]),
                bytes(&Message::Result {
                    request_id: 4,
                    chunk_index: 0,
                    total_chunks: 1,
                    data: b"1\n00:00".to_vec(),
                })
            );
        }
        other => panic!("{:?}", other),
    }
}

#[test]
fn failure_is_sent_as_an_error() {
    let mut server = open_server();
    packet(&mut server, &chunk(4, 0, 2, b"a"), peer(10), 0);
    match server.handle_job_result(failure(4)).unwrap() {
        JobAction::Send { messages, addr } => {
            assert_eq!(addr, peer(10));
            assert_eq!(messages.len(), 1);
            assert_eq!(error_text(&messages[0]), (4, "no speech".to_string()));
        }
        other => panic!("{:?}", other),
    }
}

#[test]
fn delivery_forgets_the_address() {
    let mut server = open_server();
    packet(&mut server, &chunk(4, 0, 2, b"a"), peer(10), 0);
    // As long as the delivery is not reported, the answer can be sent again.
    assert!(matches!(server.handle_job_result(success(4)), Ok(JobAction::Send { .. })));
    assert!(matches!(server.handle_job_result(success(4)), Ok(JobAction::Send { .. })));
    server.reply_delivered(4);
    assert_eq!(
        server.handle_job_result(success(4)).err(),
        Some(ServerError::ClientAddressNotFound)
    );
    assert!(matches!(server.handle_job_result(failure(4)), Ok(JobAction::NoClient)));
}

#[test]
fn waiting_chunks_lose_their_address_when_an_answer_is_sent() {
    let mut server = open_server();
    whole(packet(&mut server, &chunk(4, 0, 1, b"a"), peer(10), 0));
    server.submit_assembly(4, Vec::new()).unwrap();
    packet(&mut server, &chunk(4, 0, 2, b"a"), peer(10), 0);
    server.reply_delivered(4);
    whole(packet(&mut server, &chunk(4, 1, 2, b"b"), peer(10), 0));
    assert_eq!(
        server.handle_job_result(success(4)).err(),
        Some(ServerError::ClientAddressNotFound)
    );
}

#[test]
fn empty_transcript_is_sent_in_no_message() {
    let mut server = open_server();
    packet(&mut server, &chunk(4, 0, 2, b"a"), peer(10), 0);
    let result = JobResult::Success { request_id: 4, srt_data: Vec::new() };
    assert!(matches!(
        server.handle_job_result(result),
        Ok(JobAction::Send { messages, .. }) if messages.is_empty()
    ));
}

#[test]
fn cancellation_is_answered_and_drops_everything() {
    let mut server = open_server();
    packet(&mut server, &chunk(4, 0, 2, b"a"), peer(10), 0);
    match packet(&mut server, &cancel(4), peer(12), 0) {
        PacketAction::Cancel { request_id, answer, addr } => {
            assert_eq!(request_id, 4);
            assert_eq!(error_text(&answer), (4, "Cancelled".to_string()));
            assert_eq!(addr, peer(12));
        }
        other => panic!("{:?}", other),
    }
    assert!(matches!(server.handle_job_result(success(4)), Ok(JobAction::Drop)));
    assert!(matches!(server.handle_job_result(failure(4)), Ok(JobAction::Drop)));
    assert!(server.submit_assembly(4, Vec::new()).is_none());
}

#[test]
fn a_late_chunk_does_not_undo_a_cancellation() {
    let mut server = open_server();
    packet(&mut server, &cancel(4), peer(1), 0);
    whole(packet(&mut server, &chunk(4, 0, 1, b"a"), peer(1), 0));
    assert!(matches!(server.handle_job_result(success(4)), Ok(JobAction::Drop)));
    // Once the late chunk is stale the cancellation is forgotten, and so is the address.
    server.cleanup_stale_assemblies(ASSEMBLY_TIMEOUT_NANOS);
    assert_eq!(
        server.handle_job_result(success(4)).err(),
        Some(ServerError::ClientAddressNotFound)
    );
    assert!(matches!(server.handle_job_result(failure(4)), Ok(JobAction::NoClient)));
}

#[test]
fn a_new_request_may_reuse_a_forgotten_number() {
    let mut server = open_server();
    packet(&mut server, &cancel(4), peer(1), 0);
    packet(&mut server, &chunk(4, 0, 2, b"a"), peer(1), 0);
    server.cleanup_stale_assemblies(ASSEMBLY_TIMEOUT_NANOS);
    packet(&mut server, &chunk(4, 0, 2, b"a"), peer(2), 0);
    assert!(matches!(
        server.handle_job_result(success(4)),
        Ok(JobAction::Send { addr, .. }) if addr == peer(2)
    ));
}

#[test]
fn stale_requests_are_forgotten_after_a_minute() {
    let mut server = open_server();
    packet(&mut server, &chunk(1, 0, 2, b"a"), peer(1), 0);
    packet(&mut server, &chunk(2, 0, 2, b"x"), peer(2), SECOND);
    server.cleanup_stale_assemblies(60 * SECOND - 1);
    assert!(matches!(server.handle_job_result(success(1)), Ok(JobAction::Send { .. })));
    server.cleanup_stale_assemblies(60 * SECOND);
    assert_eq!(
        server.handle_job_result(success(1)).err(),
        Some(ServerError::ClientAddressNotFound)
    );
    // The other one is still waiting and is completed.
    let action = packet(&mut server, &chunk(2, 1, 2, b"y"), peer(2), 60 * SECOND);
    assert_eq!(whole(action), (2, b"xy".to_vec()));
}

#[test]
fn a_chunk_restarts_the_timeout() {
    let mut server = open_server();
    packet(&mut server, &chunk(1, 0, 3, b"a"), peer(1), 0);
    packet(&mut server, &chunk(1, 1, 3, b"b"), peer(1), 50 * SECOND);
    server.cleanup_stale_assemblies(100 * SECOND);
    let action = packet(&mut server, &chunk(1, 2, 3, b"c"), peer(1), 100 * SECOND);
    assert_eq!(whole(action), (1, b"abc".to_vec()));
}

#[test]
fn a_clock_that_lags_makes_nothing_stale() {
    let mut server = open_server();
    packet(&mut server, &chunk(1, 0, 2, b"a"), peer(1), 90 * SECOND);
    server.cleanup_stale_assemblies(0);
    assert!(matches!(server.handle_job_result(success(1)), Ok(JobAction::Send { .. })));
}

#[test]
fn submitted_requests_do_not_become_stale() {
    let mut server = open_server();
    whole(packet(&mut server, &chunk(1, 0, 1, b"a"), peer(1), 0));
    server.submit_assembly(1, Vec::new()).unwrap();
    server.cleanup_stale_assemblies(1000 * SECOND);
    assert!(matches!(server.handle_job_result(success(1)), Ok(JobAction::Send { .. })));
}

#[test]
fn wrong_token_is_refused_and_changes_nothing() {
    let mut server = UdpServer::bind(&config(false, "", "secret"), Some([7; 32]));
    let mut wrong = [7; 32];
    wrong[31] = 8;
    match packet(&mut server, &chunk_with_token(9, 0, 1, b"a", wrong), peer(3), 0) {
        PacketAction::Refuse { answer, addr } => {
            assert_eq!(error_text(&answer), (9, "Unauthorized".to_string()));
            assert_eq!(addr, peer(3));
        }
        other => panic!("{:?}", other),
    }
    assert!(matches!(packet(&mut server, &cancel(9), peer(3), 0), PacketAction::Refuse { .. }));
    assert_eq!(
        server.handle_job_result(success(9)).err(),
        Some(ServerError::ClientAddressNotFound)
    );
}

#[test]
fn right_token_is_admitted() {
    let mut server = UdpServer::bind(&config(false, "", "secret"), Some([7; 32]));
    let action = packet(&mut server, &chunk_with_token(9, 0, 1, b"a", [7; 32]), peer(3), 0);
    assert_eq!(whole(action), (9, b"a".to_vec()));
}

#[test]
fn without_a_secret_any_token_is_admitted() {
    let mut server = UdpServer::bind(&config(false, "", ""), Some([7; 32]));
    let action = packet(&mut server, &chunk_with_token(9, 0, 1, b"a", [1; 32]), peer(3), 0);
    assert_eq!(whole(action), (9, b"a".to_vec()));
}

#[test]
fn answers_from_outside_are_not_acted_upon() {
    let answer = bytes(&Message::Error { request_id: 1, message: String::new() });
    let result =
        bytes(&Message::Result { request_id: 1, chunk_index: 0, total_chunks: 1, data: vec![] });
    let mut open = open_server();
    assert!(matches!(packet(&mut open, &answer, peer(1), 0), PacketAction::Unexpected));
    assert!(matches!(packet(&mut open, &result, peer(1), 0), PacketAction::Unexpected));
    let mut guarded = UdpServer::bind(&config(false, "", "secret"), Some([7; 32]));
    assert!(matches!(packet(&mut guarded, &answer, peer(1), 0), PacketAction::MissingToken));
    assert!(matches!(packet(&mut guarded, &result, peer(1), 0), PacketAction::MissingToken));
}

#[test]
fn unreadable_datagrams_are_reported() {
    let mut server = open_server();
    assert_eq!(
        server.handle_packet(&[9], None, peer(1), 0).err(),
        Some(ProtocolError::Decode)
    );
}

#[test]
fn encrypted_server_reads_and_writes_through_the_cipher() {
    let mut server = UdpServer::bind(&config(true, "pass", ""), None);
    assert!(server.encryption());
    assert_eq!(
        server.handle_packet(&cancel(1), Some(Err(CipherError)), peer(1), 0).err(),
        Some(ProtocolError::Decrypt)
    );
    let action = server.handle_packet(&[0xff], Some(Ok(cancel(1))), peer(1), 0).unwrap();
    let answer = match action {
        PacketAction::Cancel { answer, .. } => answer,
        other => panic!("{:?}", other),
    };
    match server.send_message(&answer).unwrap() {
        Envelope::ToEncrypt(sealed) => assert_eq!(sealed, bytes(&answer)),
        Envelope::Plain(_) => panic!("plain"),
    }
}

#[test]
fn open_server_writes_datagrams() {
    let server = open_server();
    assert!(!server.encryption());
    let answer = Message::Error { request_id: 3, message: "x".to_string() };
    match server.send_message(&answer).unwrap() {
        Envelope::Plain(datagram) => assert_eq!(datagram, vec![3, 3, 1, b'x']),
        Envelope::ToEncrypt(_) => panic!("encrypted"),
    }
}
