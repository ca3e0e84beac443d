//! Decoded speech as a WAV file: one channel of 16-bit samples, 16000 of them a second.

use std::io::Cursor;
use vstd::prelude::*;

verus! {

/// Speech has one channel.
pub const CHANNELS: u16 = 1;

/// Samples per second.
pub const SAMPLE_RATE: u32 = 16_000;

/// Bits per sample.
pub const BITS_PER_SAMPLE: u16 = 16;

/// The most samples whose size a WAV header can state.
pub const MAX_WAV_SAMPLES: usize = 2_147_483_629;

/// `v` in two bytes, lowest first.
pub open spec fn le16(v: int) -> Seq<u8> {
    seq![(v % 256) as u8, (v / 256 % 256) as u8]
}

/// `v` in four bytes, lowest first.
pub open spec fn le32(v: int) -> Seq<u8> {
    seq![
        (v % 256) as u8,
        (v / 256 % 256) as u8,
        (v / 65536 % 256) as u8,
        (v / 16777216 % 256) as u8,
    ]
}

/// A sample as the unsigned number with the same sixteen bits.
pub open spec fn twos_complement(sample: i16) -> int {
    if sample < 0 {
        sample + 65536
    } else {
        sample as int
    }
}

/// The samples one after the other, each in two bytes, lowest first.
pub open spec fn sample_bytes(samples: Seq<i16>) -> Seq<u8> {
    Seq::new(2 * samples.len(), |i: int| le16(twos_complement(samples[i / 2]))[i % 2])
}

/// The description of uncompressed sound in a WAV header.
pub open spec fn pcm_format(channels: u16, sample_rate: u32, bits_per_sample: u16) -> Seq<u8> {
    let frame_size = channels * (bits_per_sample / 8);
    le16(1) + le16(channels as int) + le32(sample_rate as int) + le32(sample_rate * frame_size)
        + le16(frame_size) + le16(bits_per_sample as int)
}

/// A WAV file: the header with `format`, then `data`.
pub open spec fn wav_file(format: Seq<u8>, data: Seq<u8>) -> Seq<u8> {
    seq![0x52u8, 0x49u8, 0x46u8, 0x46u8]  // RIFF
     + le32(36int + data.len()) + seq![0x57u8, 0x41u8, 0x56u8, 0x45u8]  // WAVE
     + seq![0x66u8, 0x6du8, 0x74u8, 0x20u8]  // fmt
     + le32(16) + format + seq![0x64u8, 0x61u8, 0x74u8, 0x61u8]  // data
     + le32(data.len() as int) + data
}

/// The error that hound gives; it is carried, never looked into.
#[verifier::external_type_specification]
#[verifier::external_body]
pub struct ExHoundError(hound::Error);

/// hound's writer, filling a buffer that it borrows.
#[verifier::external_body]
pub struct WavSink<'a>(hound::WavWriter<Cursor<&'a mut Vec<u8>>>);

/// The description of the sound that the writer was made with.
pub uninterp spec fn sink_format(sink: WavSink<'_>) -> Seq<u8>;

/// The samples written so far.
pub uninterp spec fn sink_samples(sink: WavSink<'_>) -> Seq<i16>;

/// What the borrowed buffer holds once the writer is gone.
pub uninterp spec fn sink_target(sink: WavSink<'_>) -> Seq<u8>;

/// Calls `hound::WavWriter::new` for sixteen-bit integer samples on an empty buffer. It succeeds:
/// the depth is one that hound supports, and writing to memory does not fail. No sample has been
/// written yet.
#[verifier::external_body]
fn sink_new<'a>(
    out: &'a mut Vec<u8>,
    channels: u16,
    sample_rate: u32,
    bits_per_sample: u16,
) -> (res: Result<WavSink<'a>, hound::Error>)
    requires
        old(out)@.len() == 0,
        channels == 1,
        bits_per_sample == 16,
        0 < sample_rate <= 0x7fff_ffff,
    ensures
        res is Ok,
        sink_format(res->Ok_0) == pcm_format(channels, sample_rate, bits_per_sample),
        sink_samples(res->Ok_0) == Seq::<i16>::empty(),
        final(out)@ == sink_target(res->Ok_0),
{
    let sample_format = hound::SampleFormat::Int;
    let spec = hound::WavSpec { channels, sample_rate, bits_per_sample, sample_format };
    Ok(WavSink(hound::WavWriter::new(Cursor::new(out), spec)?))
}

/// Calls `hound::WavWriter::write_sample`. It succeeds: the sample has the depth of the writer,
/// and writing to memory does not fail. The sample stands behind those written before.
#[verifier::external_body]
fn sink_write<'a>(sink: &mut WavSink<'a>, sample: i16) -> (res: Result<(), hound::Error>)
    requires
        sink_samples(*old(sink)).len() < MAX_WAV_SAMPLES,
    ensures
        res is Ok,
        sink_format(*final(sink)) == sink_format(*old(sink)),
        sink_samples(*final(sink)) == sink_samples(*old(sink)).push(sample),
        sink_target(*final(sink)) == sink_target(*old(sink)),
{
    sink.0.write_sample(sample)
}

/// Calls `hound::WavWriter::finalize`. It succeeds: with one channel no sample is left unfinished,
/// and writing to memory does not fail. The buffer then holds the WAV file of the samples written.
#[verifier::external_body]
fn sink_finalize<'a>(sink: WavSink<'a>) -> (res: Result<(), hound::Error>)
    requires
        sink_samples(sink).len() <= MAX_WAV_SAMPLES,
    ensures
        match res {
            Ok(_) => sink_target(sink) == wav_file(
                sink_format(sink),
                sample_bytes(sink_samples(sink)),
            ),
            Err(_) => false,
        },
{
    sink.0.finalize()
}

/// At which step a WAV file could not be made.
#[derive(Debug, Clone, Copy, PartialEq, Eq, Structural)]
pub enum WavError {
    Create,
    WriteSample,
    Finalize,
}

/// The WAV file of a recording.
pub open spec fn speech_file(samples: Seq<i16>) -> Seq<u8> {
    wav_file(pcm_format(CHANNELS, SAMPLE_RATE, BITS_PER_SAMPLE), sample_bytes(samples))
}

fn fill_sink(samples: &[i16], out: &mut Vec<u8>) -> (res: Result<(), WavError>)
    requires
        samples@.len() <= MAX_WAV_SAMPLES,
        old(out)@.len() == 0,
    ensures
        res is Ok,
        final(out)@ == speech_file(samples@),
{
    let ghost target = final(out)@;
    let mut sink = match sink_new(out, CHANNELS, SAMPLE_RATE, BITS_PER_SAMPLE) {
        Ok(sink) => sink,
        Err(_) => {
            return Err(WavError::Create);
        },
    };
    let mut i: usize = 0;
    assert(samples@.take(0) =~= Seq::<i16>::empty());
    while i < samples.len()
        invariant
            i <= samples@.len() <= MAX_WAV_SAMPLES,
            sink_format(sink) == pcm_format(CHANNELS, SAMPLE_RATE, BITS_PER_SAMPLE),
            sink_samples(sink) == samples@.take(i as int),
            sink_target(sink) == target,
        decreases samples.len() - i,
    {
        match sink_write(&mut sink, samples[i]) {
            Ok(()) => {},
            Err(_) => {
                return Err(WavError::WriteSample);
            },
        }
        i = i + 1;
        assert(samples@.take(i as int) =~= samples@.take(i - 1).push(samples@[i - 1]));
    }
    assert(samples@.take(i as int) =~= samples@);
    match sink_finalize(sink) {
        Ok(()) => Ok(()),
        Err(_) => Err(WavError::Finalize),
    }
}

/// Writes a recording as a WAV file; it never fails.
pub fn encode_wav(samples: &[i16]) -> (res: Result<Vec<u8>, WavError>)
    requires
        samples@.len() <= MAX_WAV_SAMPLES,
    ensures
        res is Ok,
        res->Ok_0@ == speech_file(samples@),
{
    let mut out: Vec<u8> = Vec::new();
    fill_sink(samples, &mut out)?;
    Ok(out)
}

/// The sample number `i` of a WAV file with a header of 44 bytes.
pub open spec fn sample_at(file: Seq<u8>, i: int) -> int {
    let u = file[44 + 2 * i] + 256 * file[45 + 2 * i];
    if u >= 32768 {
        u - 65536
    } else {
        u
    }
}

/// Every sample can be read back from the WAV file: behind a header of 44 bytes there are two bytes
/// for each sample, in order.
pub proof fn law_wav_holds_every_sample(samples: Seq<i16>)
    ensures
        speech_file(samples).len() == 44 + 2 * samples.len(),
        forall|i: int|
            0 <= i < samples.len() ==> sample_at(speech_file(samples), i) == #[trigger] samples[i],
{
    let data = sample_bytes(samples);
    let file = speech_file(samples);
    assert(file.len() == 44 + data.len());
    assert forall|i: int| 0 <= i < samples.len() implies sample_at(file, i)
        == #[trigger] samples[i] by {
        assert(file[44 + 2 * i] == data[2 * i]);
        assert(file[45 + 2 * i] == data[2 * i + 1]);
        assert((2 * i) / 2 == i && (2 * i) % 2 == 0);
        assert((2 * i + 1) / 2 == i && (2 * i + 1) % 2 == 1);
    }
}

/// The number in four bytes, lowest first, that begins at `at`.
pub open spec fn number_at(file: Seq<u8>, at: int) -> int {
    file[at] + 256 * file[at + 1] + 65536 * file[at + 2] + 16777216 * file[at + 3]
}

/// The header says what follows: uncompressed sound of one channel, 16000 samples of 16 bits a
/// second, and as many bytes of it as there are.
pub proof fn law_wav_header_describes_sound(samples: Seq<i16>)
    requires
        samples.len() <= MAX_WAV_SAMPLES,
    ensures
        ({
            let file = speech_file(samples);
            &&& file.take(4) == seq![82u8, 73, 70, 70]
            &&& number_at(file, 4) == file.len() - 8
            &&& file.subrange(8, 16) == seq![87u8, 65, 86, 69, 102, 109, 116, 32]
            &&& number_at(file, 16) == 16
            &&& file.subrange(20, 24) == seq![1u8, 0, 1, 0]
            &&& number_at(file, 24) == 16_000
            &&& number_at(file, 28) == 32_000
            &&& file.subrange(32, 36) == seq![2u8, 0, 16, 0]
            &&& file.subrange(36, 40) == seq![100u8, 97, 116, 97]
            &&& number_at(file, 40) == 2 * samples.len()
        }),
{
    let data = sample_bytes(samples);
    let file = speech_file(samples);
    let n = data.len() as int;
    assert(file.len() == 44 + n);
    lemma_four_bytes(36 + n);
    lemma_four_bytes(n);
    let size = le32(36 + n);
    assert(file[4] == size[0] && file[5] == size[1] && file[6] == size[2] && file[7] == size[3]);
    let rest = le32(n);
    assert(file[40] == rest[0] && file[41] == rest[1] && file[42] == rest[2] && file[43]
        == rest[3]);
    let format = pcm_format(CHANNELS, SAMPLE_RATE, BITS_PER_SAMPLE);
    assert(format =~= seq![1u8, 0, 1, 0, 128, 62, 0, 0, 0, 125, 0, 0, 2, 0, 16, 0]);
    assert(forall|i: int| 20 <= i < 36 ==> #[trigger] file[i] == format[i - 20]);
    assert(le32(16) =~= seq![16u8, 0, 0, 0]);
    assert(file[16] == 16 && file[17] == 0 && file[18] == 0 && file[19] == 0);
    assert(file.take(4) =~= seq![82u8, 73, 70, 70]);
    assert(file.subrange(8, 16) =~= seq![87u8, 65, 86, 69, 102, 109, 116, 32]);
    assert(file.subrange(20, 24) =~= seq![1u8, 0, 1, 0]);
    assert(file.subrange(32, 36) =~= seq![2u8, 0, 16, 0]);
    assert(file.subrange(36, 40) =~= seq![100u8, 97, 116, 97]);
}

/// A number of at most 32 bits is what its four bytes add up to.
proof fn lemma_four_bytes(n: int)
    requires
        0 <= n <= u32::MAX,
    ensures
        number_at(le32(n), 0) == n,
{
    assert(n / 65536 == n / 256 / 256 && n / 16777216 == n / 256 / 256 / 256);
}

/// The limit is the highest: the size that the header states fits in its four bytes with that many
/// samples, and with one more it does not.
pub proof fn law_limit_is_what_header_can_state()
    ensures
        36 + 2 * MAX_WAV_SAMPLES <= u32::MAX < 36 + 2 * (MAX_WAV_SAMPLES + 1),
{
}

} // verus!
