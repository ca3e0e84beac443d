use mpv_stt_server::chunks::{split_transcript, MAX_CHUNK_SIZE, MAX_DATAGRAM_SIZE};
use mpv_stt_server::opus::{decompress_opus, find_frames, DecodeReply, OpusError, MAX_FRAME_SIZE};
use mpv_stt_server::protocol::{Envelope, Message};
use mpv_stt_server::wav::encode_wav;

fn pack(frames: &[&[u8]]) -> Vec<u8> {
    let mut stream = Vec::new();
    for frame in frames {
        stream.extend_from_slice(&(frame.len() as u32).to_le_bytes());
        stream.extend_from_slice(frame);
    }
    stream
}

fn reply(code: i32, samples: &[i16]) -> DecodeReply {
    let mut output = vec![0i16; MAX_FRAME_SIZE];
    output[..samples.len()].copy_from_slice(samples);
    DecodeReply { code, output }
}

#[test]
fn wav_file_has_exact_bytes() {
    let wav = encode_wav(&[1, -2, 256]).unwrap();
    let mut expected: Vec<u8> = Vec::new();
    expected.extend_from_slice(b"RIFF");
    expected.extend_from_slice(&42u32.to_le_bytes());
    expected.extend_from_slice(b"WAVEfmt ");
    expected.extend_from_slice(&16u32.to_le_bytes());
    expected.extend_from_slice(&1u16.to_le_bytes());
    expected.extend_from_slice(&1u16.to_le_bytes());
    expected.extend_from_slice(&16_000u32.to_le_bytes());
    expected.extend_from_slice(&32_000u32.to_le_bytes());
    expected.extend_from_slice(&2u16.to_le_bytes());
    expected.extend_from_slice(&16u16.to_le_bytes());
    expected.extend_from_slice(b"data");
    expected.extend_from_slice(&6u32.to_le_bytes());
    expected.extend_from_slice(&[1, 0, 0xfe, 0xff, 0, 1]);
    assert_eq!(wav, expected);
}

#[test]
fn wav_file_of_silence_is_its_header() {
    let wav = encode_wav(&[]).unwrap();
    assert_eq!(wav.len(), 44);
    assert_eq!(&wav[4..8], &36u32.to_le_bytes());
    assert_eq!(&wav[40..44], &[0, 0, 0, 0]);
}

#[test]
fn wav_file_can_be_read() {
    let samples: Vec<i16> = (0..20_000).map(|i: i32| (i * 7 - 32_768) as i16).collect();
    let wav = encode_wav(&samples).unwrap();
    let mut reader = hound::WavReader::new(std::io::Cursor::new(wav)).unwrap();
    let spec = reader.spec();
    assert_eq!((spec.channels, spec.sample_rate, spec.bits_per_sample), (1, 16_000, 16));
    let read: Vec<i16> = reader.samples::<i16>().map(|s| s.unwrap()).collect();
    assert_eq!(read, samples);
}

#[test]
fn wav_file_is_the_one_written_to_disk() {
    let samples = [3i16, -3, i16::MIN, i16::MAX];
    let file = tempfile::NamedTempFile::new().unwrap();
    let spec = hound::WavSpec {
        channels: 1,
        sample_rate: 16000,
        bits_per_sample: 16,
        sample_format: hound::SampleFormat::Int,
    };
    let mut writer = hound::WavWriter::create(file.path(), spec).unwrap();
    for sample in samples {
        writer.write_sample(sample).unwrap();
    }
    writer.finalize().unwrap();
    let mut on_disk = Vec::new();
    std::io::Read::read_to_end(&mut file.reopen().unwrap(), &mut on_disk).unwrap();
    assert_eq!(encode_wav(&samples).unwrap(), on_disk);
}

#[test]
fn frames_are_found() {
    let stream = pack(&[&[1, 2, 3], &[], &[4]]);
    let found = find_frames(&stream);
    assert_eq!(found.bounds, vec![(4, 7), (11, 11), (15, 16)]);
    assert!(found.complete);
    let frames: Vec<&[u8]> = found.bounds.iter().map(|&(a, b)| &stream[a..b]).collect();
    assert_eq!(pack(&frames), stream);
}

#[test]
fn up_to_three_bytes_may_be_left_over() {
    let mut stream = pack(&[&[1, 2, 3]]);
    stream.extend_from_slice(&[9, 9, 9]);
    let found = find_frames(&stream);
    assert_eq!(found.bounds, vec![(4, 7)]);
    assert!(found.complete);
    assert!(find_frames(&[]).complete);
}

#[test]
fn frame_cut_short_is_noticed() {
    let mut stream = pack(&[&[1, 2, 3], &[4, 5]]);
    stream.pop();
    let found = find_frames(&stream);
    assert_eq!(found.bounds, vec![(4, 7)]);
    assert!(!found.complete);
    assert!(!find_frames(&[0xff, 0xff, 0xff, 0xff, 0]).complete);
}

#[test]
fn replies_become_a_recording() {
    let stream = pack(&[&[1], &[2], &[3]]);
    let replies = [reply(2, &[10, 11, 12]), reply(0, &[]), reply(1, &[13])];
    let wav = decompress_opus(&stream, &replies).unwrap();
    assert_eq!(wav, encode_wav(&[10, 11, 13]).unwrap());
}

#[test]
fn empty_stream_is_an_empty_recording() {
    assert_eq!(decompress_opus(&[], &[]).unwrap(), encode_wav(&[]).unwrap());
}

#[test]
fn first_decoder_failure_is_reported() {
    let stream = pack(&[&[1], &[2], &[3]]);
    let replies = [reply(2, &[10, 11]), reply(-4, &[])];
    assert_eq!(decompress_opus(&stream, &replies), Err(OpusError::DecodeFailed(-4)));
}

#[test]
fn invalid_length_is_reported_after_the_frames_before_it() {
    let mut stream = pack(&[&[1], &[2, 2]]);
    stream.pop();
    assert_eq!(
        decompress_opus(&stream, &[reply(1, &[5])]),
        Err(OpusError::InvalidFrameLength)
    );
    assert_eq!(
        decompress_opus(&stream, &[reply(-1, &[])]),
        Err(OpusError::DecodeFailed(-1))
    );
}

fn parts(messages: &[Message]) -> Vec<(u64, u32, u32, Vec<u8>)> {
    messages
        .iter()
        .map(|m| match m {
            Message::Result { request_id, chunk_index, total_chunks, data } => {
                (*request_id, *chunk_index, *total_chunks, data.clone())
            }
            _ => panic!("not a result"),
        })
        .collect()
}

#[test]
fn transcript_is_cut_and_joined() {
    assert_eq!(MAX_CHUNK_SIZE, MAX_DATAGRAM_SIZE - 1024);
    for len in [1, MAX_CHUNK_SIZE - 1, MAX_CHUNK_SIZE, MAX_CHUNK_SIZE + 1, 3 * MAX_CHUNK_SIZE] {
        let srt: Vec<u8> = (0..len).map(|i| (i % 251) as u8).collect();
        let messages = split_transcript(42, &srt);
        let expected: Vec<Vec<u8>> = srt.chunks(MAX_CHUNK_SIZE).map(|c| c.to_vec()).collect();
        let got = parts(&messages);
        assert_eq!(got.len(), expected.len());
        for (i, (id, index, total, data)) in got.iter().enumerate() {
            assert_eq!((*id, *index as usize), (42, i));
            assert_eq!(*total as usize, expected.len());
            assert_eq!(data, &expected[i]);
        }
        let joined: Vec<u8> = got.into_iter().flat_map(|p| p.3).collect();
        assert_eq!(joined, srt);
    }
}

#[test]
fn empty_transcript_needs_no_message() {
    assert!(split_transcript(1, &[]).is_empty());
}

#[test]
fn every_result_fits_in_a_datagram() {
    let srt = vec![1u8; 2 * MAX_CHUNK_SIZE + 5];
    for message in split_transcript(u64::MAX, &srt) {
        match message.encode(false).unwrap() {
            Envelope::Plain(bytes) => assert!(bytes.len() + 1000 <= MAX_DATAGRAM_SIZE),
            Envelope::ToEncrypt(_) => panic!("encrypted"),
        }
    }
}
