//! Compressed speech: a run of Opus frames, each preceded by its length in four bytes, lowest
//! first. The decoder itself is outside; here are the frames that it is given and what is made of
//! its replies.

use crate::wav::{
    encode_wav, law_wav_holds_every_sample, le32, sample_at, speech_file, WavError, MAX_WAV_SAMPLES,
};
use vstd::prelude::*;

verus! {

/// The room for samples that the decoder is given for one frame: 120 ms at 48 kHz, more than any
/// frame at a lower rate needs.
pub const MAX_FRAME_SIZE: usize = 5760;

/// The number in the first four bytes of `s`, lowest byte first.
pub open spec fn frame_len(s: Seq<u8>) -> int {
    s[0] + 256 * s[1] + 65536 * s[2] + 16777216 * s[3]
}

/// The frames in `s`, in order, and whether `s` ends well: fewer than four bytes may be left over,
/// but no frame may be cut short.
pub open spec fn split(s: Seq<u8>) -> (Seq<Seq<u8>>, bool)
    decreases s.len(),
{
    if s.len() < 4 {
        (Seq::empty(), true)
    } else if frame_len(s) > s.len() - 4 {
        (Seq::empty(), false)
    } else {
        let (frames, complete) = split(s.skip(4 + frame_len(s)));
        (seq![s.subrange(4, 4 + frame_len(s))] + frames, complete)
    }
}

/// The frames one after the other, each preceded by its length.
pub open spec fn pack(frames: Seq<Seq<u8>>) -> Seq<u8>
    decreases frames.len(),
{
    if frames.len() == 0 {
        Seq::empty()
    } else {
        le32(frames[0].len() as int) + frames[0] + pack(frames.skip(1))
    }
}

/// Where the frames of a stream lie in it.
#[derive(Debug)]
pub struct FrameBounds {
    /// The first byte of each frame and the byte behind its last.
    pub bounds: Vec<(usize, usize)>,
    /// Whether the stream ends well.
    pub complete: bool,
}

/// The parts of `s` between the given bounds.
pub open spec fn parts(s: Seq<u8>, bounds: Seq<(usize, usize)>) -> Seq<Seq<u8>> {
    bounds.map_values(|b: (usize, usize)| s.subrange(b.0 as int, b.1 as int))
}

/// Finds the frames of a stream.
pub fn find_frames(compressed: &[u8]) -> (res: FrameBounds)
    ensures
        parts(compressed@, res.bounds@) == split(compressed@).0,
        res.complete == split(compressed@).1,
        forall|i: int|
            0 <= i < res.bounds@.len() ==> (#[trigger] res.bounds@[i]).0 <= res.bounds@[i].1
                <= compressed@.len(),
{
    let mut bounds: Vec<(usize, usize)> = Vec::new();
    let mut pos: usize = 0;
    let ghost s = compressed@;
    assert(s.skip(0) =~= s);
    assert(parts(s, bounds@) + split(s).0 =~= split(s).0);
    while compressed.len() - pos >= 4
        invariant
            s == compressed@,
            pos <= s.len(),
            forall|i: int|
                0 <= i < bounds@.len() ==> (#[trigger] bounds@[i]).0 <= bounds@[i].1 <= s.len(),
            split(s).0 == parts(s, bounds@) + split(s.skip(pos as int)).0,
            split(s).1 == split(s.skip(pos as int)).1,
        decreases s.len() - pos,
    {
        let ghost rest = s.skip(pos as int);
        let len: u64 = compressed[pos] as u64 + 256 * (compressed[pos + 1] as u64) + 65536 * (
        compressed[pos + 2] as u64) + 16777216 * (compressed[pos + 3] as u64);
        assert(len == frame_len(rest));
        if len > (compressed.len() - pos - 4) as u64 {
            assert(split(rest).0 =~= Seq::<Seq<u8>>::empty());
            assert(split(s).0 =~= parts(s, bounds@));
            return FrameBounds { bounds, complete: false };
        }
        let start = pos + 4;
        let end = start + len as usize;
        let ghost before = parts(s, bounds@);
        bounds.push((start, end));
        assert(rest.subrange(4, 4 + len) =~= s.subrange(start as int, end as int));
        assert(rest.skip(4 + len) =~= s.skip(end as int));
        assert(parts(s, bounds@) =~= before.push(s.subrange(start as int, end as int)));
        assert(split(s).0 =~= parts(s, bounds@) + split(s.skip(end as int)).0);
        pos = end;
    }
    assert(split(s).0 =~= parts(s, bounds@));
    FrameBounds { bounds, complete: true }
}

/// What the decoder said of one frame.
#[derive(Debug)]
pub struct DecodeReply {
    /// How many samples it decoded, or a negative error code.
    pub code: i32,
    /// The buffer that it wrote the samples to.
    pub output: Vec<i16>,
}

impl DecodeReply {
    /// The decoder failed on the frame.
    pub open spec fn failed(self) -> bool {
        self.code < 0
    }

    /// The samples that count.
    pub open spec fn samples(self) -> Seq<i16> {
        self.output@.take(self.code as int)
    }
}

/// Why a stream could not be turned into sound.
#[derive(Debug, Clone, Copy, PartialEq, Eq, Structural)]
pub enum OpusError {
    /// A frame says that it is longer than what is left of the stream.
    InvalidFrameLength,
    /// The decoder failed with this code.
    DecodeFailed(i32),
    /// The sound could not be written as a WAV file.
    Wav(WavError),
}

/// All the samples of the replies, one reply after the other.
pub open spec fn all_samples(replies: Seq<DecodeReply>) -> Seq<i16>
    decreases replies.len(),
{
    if replies.len() == 0 {
        Seq::empty()
    } else {
        all_samples(replies.drop_last()) + replies.last().samples()
    }
}

/// The code of the first failure among the replies.
pub open spec fn first_failure(replies: Seq<DecodeReply>) -> Option<i32>
    decreases replies.len(),
{
    if replies.len() == 0 {
        None
    } else if replies[0].failed() {
        Some(replies[0].code)
    } else {
        first_failure(replies.skip(1))
    }
}

/// Each frame has its reply, up to the first failure; and no reply counts more samples than its
/// buffer holds.
pub open spec fn replies_fit(frames: Seq<Seq<u8>>, replies: Seq<DecodeReply>) -> bool {
    &&& replies.len() == frames.len() || (0 < replies.len() < frames.len()
        && replies.last().failed())
    &&& forall|i: int|
        0 <= i < replies.len() ==> (#[trigger] replies[i]).code <= replies[i].output@.len()
}

/// What becomes of a stream: the first failure of the decoder, else the stream's own fault, else
/// the sound.
pub open spec fn decompressed(s: Seq<u8>, replies: Seq<DecodeReply>) -> Result<
    Seq<u8>,
    OpusError,
> {
    match first_failure(replies) {
        Some(code) => Err(OpusError::DecodeFailed(code)),
        None => if split(s).1 {
            Ok(speech_file(all_samples(replies)))
        } else {
            Err(OpusError::InvalidFrameLength)
        },
    }
}

/// Turns a stream into a WAV file, given what the decoder said of its frames, in order.
pub fn decompress_opus(compressed: &[u8], replies: &[DecodeReply]) -> (res: Result<
    Vec<u8>,
    OpusError,
>)
    requires
        replies_fit(split(compressed@).0, replies@),
        first_failure(replies@) is None ==> all_samples(replies@).len() <= MAX_WAV_SAMPLES,
    ensures
        match res {
            Ok(wav) => decompressed(compressed@, replies@) == Ok::<_, OpusError>(wav@),
            Err(e) => decompressed(compressed@, replies@) == Err::<Seq<u8>, _>(e),
        },
{
    let mut samples: Vec<i16> = Vec::new();
    let mut i: usize = 0;
    assert(replies@.skip(0) =~= replies@);
    assert(replies@.take(0) =~= Seq::<DecodeReply>::empty());
    while i < replies.len()
        invariant
            i <= replies@.len(),
            replies_fit(split(compressed@).0, replies@),
            first_failure(replies@) == first_failure(replies@.skip(i as int)),
            samples@ == all_samples(replies@.take(i as int)),
        decreases replies.len() - i,
    {
        let reply = &replies[i];
        if reply.code < 0 {
            return Err(OpusError::DecodeFailed(reply.code));
        }
        let ghost before = samples@;
        let decoded = vstd::slice::slice_subrange(reply.output.as_slice(), 0, reply.code as usize);
        samples.extend_from_slice(decoded);
        proof {
            let seen = replies@.take(i + 1);
            assert(seen.drop_last() =~= replies@.take(i as int));
            assert(replies@.skip(i as int).skip(1) =~= replies@.skip(i + 1));
            assert(decoded@ =~= reply.samples());
            assert(samples@ =~= before + decoded@);
        }
        i = i + 1;
    }
    assert(replies@.take(i as int) =~= replies@);
    let stream = find_frames(compressed);
    if !stream.complete {
        return Err(OpusError::InvalidFrameLength);
    }
    match encode_wav(samples.as_slice()) {
        Ok(wav) => Ok(wav),
        Err(e) => Err(OpusError::Wav(e)),
    }
}

/// A stream is cut into the frames that it was made of, also if up to three bytes follow them.
pub proof fn law_split_inverts_pack(frames: Seq<Seq<u8>>, tail: Seq<u8>)
    requires
        forall|i: int| 0 <= i < frames.len() ==> (#[trigger] frames[i]).len() <= u32::MAX,
        tail.len() < 4,
    ensures
        split(pack(frames) + tail) == (frames, true),
    decreases frames.len(),
{
    let s = pack(frames) + tail;
    if frames.len() == 0 {
        assert(s =~= tail);
        assert(frames =~= Seq::<Seq<u8>>::empty());
    } else {
        let frame = frames[0];
        let later = frames.skip(1);
        assert forall|i: int| 0 <= i < later.len() implies (#[trigger] later[i]).len()
            <= u32::MAX by {
            assert(later[i] == frames[i + 1]);
        }
        law_split_inverts_pack(later, tail);
        let head = le32(frame.len() as int);
        assert(s =~= head + frame + (pack(later) + tail));
        assert(s[0] == head[0] && s[1] == head[1] && s[2] == head[2] && s[3] == head[3]);
        assert(frame_len(s) == frame.len());
        assert(s.subrange(4, 4int + frame.len()) =~= frame);
        assert(s.skip(4int + frame.len()) =~= pack(later) + tail);
        assert(seq![frame] + later =~= frames);
    }
}

/// Four bytes are the number that they spell.
proof fn lemma_len_bytes(s: Seq<u8>)
    requires
        s.len() >= 4,
    ensures
        le32(frame_len(s)) == s.take(4),
{
    let (a, b, c, d) = (s[0] as int, s[1] as int, s[2] as int, s[3] as int);
    let n = frame_len(s);
    assert(n / 256 == b + 256 * c + 65536 * d && n % 256 == a);
    assert(n / 65536 == c + 256 * d && n / 16777216 == d);
    assert(le32(n) =~= s.take(4));
}

/// No byte of a stream is lost or made up: packed again, its frames are the front of the stream,
/// and if it ends well fewer than four bytes are left over.
pub proof fn law_frames_cover_stream(s: Seq<u8>)
    ensures
        pack(split(s).0).len() <= s.len(),
        pack(split(s).0) == s.take(pack(split(s).0).len() as int),
        split(s).1 ==> s.len() - pack(split(s).0).len() < 4,
    decreases s.len(),
{
    let frames = split(s).0;
    if s.len() < 4 || frame_len(s) > s.len() - 4 {
        assert(pack(frames) =~= s.take(0));
    } else {
        let n = frame_len(s);
        let rest = s.skip(4 + n);
        law_frames_cover_stream(rest);
        lemma_len_bytes(s);
        let frame = s.subrange(4, 4 + n);
        let later = split(rest).0;
        let k = pack(later).len() as int;
        assert(frames == seq![frame] + later);
        assert(frames.skip(1) =~= later);
        assert(frames[0] == frame && frame.len() == n);
        assert(pack(frames) == le32(n) + frame + pack(later));
        assert(s.take(4) + frame + rest.take(k) =~= s.take(4 + n + k));
    }
}

/// The samples of a stream that decodes well are those of its frames, in order: a stream put
/// together from two gives the sound of the one followed by that of the other.
pub proof fn law_samples_follow_frames(first: Seq<DecodeReply>, second: Seq<DecodeReply>)
    ensures
        all_samples(first + second) == all_samples(first) + all_samples(second),
    decreases second.len(),
{
    if second.len() == 0 {
        assert(first + second =~= first);
        assert(all_samples(first) + all_samples(second) =~= all_samples(first));
    } else {
        law_samples_follow_frames(first, second.drop_last());
        assert((first + second).drop_last() =~= first + second.drop_last());
        assert((first + second).last() == second.last());
        assert(all_samples(first + second) =~= all_samples(first) + all_samples(second));
    }
}

/// Where a stream is cut: four bytes that spell a length, lowest first, are followed by a frame of
/// that length, and what comes behind it is cut in the same way. A stream of fewer than four bytes
/// holds no frame and ends well; one whose first length goes beyond its end does not end well.
pub proof fn law_length_cuts_frame(s: Seq<u8>, a: u8, b: u8, c: u8, d: u8, frame: Seq<u8>)
    requires
        frame.len() == a + 256 * b + 65536 * c + 16777216 * d,
    ensures
        split(seq![a, b, c, d] + frame + s).0 == seq![frame] + split(s).0,
        split(seq![a, b, c, d] + frame + s).1 == split(s).1,
        s.len() < 4 ==> split(s) == (Seq::<Seq<u8>>::empty(), true),
        s.len() < frame.len() ==> split(seq![a, b, c, d] + s) == (Seq::<Seq<u8>>::empty(), false),
{
    let head = seq![a, b, c, d];
    let whole = head + frame + s;
    let n = frame.len() as int;
    assert(whole[0] == a && whole[1] == b && whole[2] == c && whole[3] == d);
    assert(frame_len(whole) == n);
    assert(whole.subrange(4, 4 + n) =~= frame);
    assert(whole.skip(4 + n) =~= s);
    let short = head + s;
    assert(short[0] == a && short[1] == b && short[2] == c && short[3] == d);
    assert(frame_len(short) == n);
}

/// The parts of a stream between bounds are its bytes from the one bound to the other.
pub proof fn law_parts_are_cut_at_bounds(s: Seq<u8>, bounds: Seq<(usize, usize)>)
    ensures
        parts(s, bounds).len() == bounds.len(),
        forall|i: int|
            0 <= i < bounds.len() ==> #[trigger] parts(s, bounds)[i] == s.subrange(
                bounds[i].0 as int,
                bounds[i].1 as int,
            ),
{
}

/// How many samples the first `k` replies count.
pub open spec fn counted(replies: Seq<DecodeReply>, k: int) -> int
    decreases k,
{
    if k <= 0 {
        0
    } else {
        counted(replies, k - 1) + replies[k - 1].code
    }
}

/// No reply is a failure, and none counts more samples than its buffer holds.
pub open spec fn all_decoded(replies: Seq<DecodeReply>) -> bool {
    forall|k: int|
        0 <= k < replies.len() ==> 0 <= (#[trigger] replies[k]).code <= replies[k].output@.len()
}

/// Sample number `j` of reply number `k` stands behind all samples of the replies before it.
spec fn stands(replies: Seq<DecodeReply>, k: int, j: int) -> bool {
    &&& 0 <= counted(replies, k) + j < all_samples(replies).len()
    &&& all_samples(replies)[counted(replies, k) + j] == replies[k].output@[j]
}

/// Where the samples of each reply stand among all of them.
proof fn lemma_where_samples_stand(replies: Seq<DecodeReply>)
    requires
        all_decoded(replies),
    ensures
        all_samples(replies).len() == counted(replies, replies.len() as int),
        forall|k: int, j: int|
            0 <= k < replies.len() && 0 <= j < replies[k].code ==> #[trigger] stands(replies, k, j),
    decreases replies.len(),
{
    if replies.len() > 0 {
        let fewer = replies.drop_last();
        let last = replies.len() - 1;
        assert forall|k: int| 0 <= k < fewer.len() implies 0 <= (#[trigger] fewer[k]).code
            <= fewer[k].output@.len() by {
            assert(fewer[k] == replies[k]);
        }
        lemma_where_samples_stand(fewer);
        assert forall|k: int| 0 <= k <= last implies #[trigger] counted(replies, k) == counted(
            fewer,
            k,
        ) by {
            lemma_counted_front(replies, k);
        }
        let before = all_samples(fewer);
        assert(counted(replies, last) == counted(fewer, last));
        assert(counted(replies, last + 1) == counted(replies, last) + replies[last].code);
        assert(replies[last].code <= replies[last].output@.len());
        assert(replies.last().samples() =~= replies[last].output@.take(replies[last].code as int));
        assert(all_samples(replies) == before + replies.last().samples());
        assert forall|k: int, j: int|
            0 <= k < replies.len() && 0 <= j < replies[k].code implies #[trigger] stands(
            replies,
            k,
            j,
        ) by {
            if k < last {
                assert(fewer[k] == replies[k]);
                assert(counted(replies, k) == counted(fewer, k));
                assert(stands(fewer, k, j));
            } else {
                assert(counted(replies, k) == before.len());
            }
        }
    }
}

/// The last reply does not matter for those before it.
proof fn lemma_counted_front(replies: Seq<DecodeReply>, k: int)
    requires
        0 <= k < replies.len(),
    ensures
        counted(replies, k) == counted(replies.drop_last(), k),
    decreases k,
{
    if k > 0 {
        lemma_counted_front(replies, k - 1);
        assert(replies.drop_last()[k - 1] == replies[k - 1]);
    }
}

/// Without a failure there is none to find.
proof fn lemma_no_failure(replies: Seq<DecodeReply>)
    requires
        forall|k: int| 0 <= k < replies.len() ==> (#[trigger] replies[k]).code >= 0,
    ensures
        first_failure(replies) is None,
    decreases replies.len(),
{
    if replies.len() > 0 {
        let later = replies.skip(1);
        assert(replies[0].code >= 0);
        assert forall|k: int| 0 <= k < later.len() implies (#[trigger] later[k]).code >= 0 by {
            assert(later[k] == replies[k + 1]);
        }
        lemma_no_failure(later);
    }
}

/// Every sample that the decoder counted is in the recording, and no other: the recording of a
/// stream that ends well has as many samples as the replies' codes add up to, and those of each
/// reply stand in order behind those of the replies before it.
pub proof fn law_recording_holds_every_decoded_sample(s: Seq<u8>, replies: Seq<DecodeReply>)
    requires
        all_decoded(replies),
        split(s).1,
    ensures
        decompressed(s, replies) is Ok,
        ({
            let file = decompressed(s, replies)->Ok_0;
            &&& file.len() == 44 + 2 * counted(replies, replies.len() as int)
            &&& file == speech_file(
                Seq::new(
                    counted(replies, replies.len() as int) as nat,
                    |i: int| sample_at(file, i) as i16,
                ),
            )
            &&& forall|k: int, j: int|
                0 <= k < replies.len() && 0 <= j < replies[k].code ==> sample_at(
                    file,
                    counted(replies, k) + j,
                ) == #[trigger] replies[k].output@[j]
        }),
{
    lemma_no_failure(replies);
    lemma_where_samples_stand(replies);
    let samples = all_samples(replies);
    law_wav_holds_every_sample(samples);
    let file = decompressed(s, replies)->Ok_0;
    assert(file == speech_file(samples));
    assert(Seq::new(
        counted(replies, replies.len() as int) as nat,
        |i: int| sample_at(file, i) as i16,
    ) =~= samples) by {
        assert forall|i: int| 0 <= i < samples.len() implies sample_at(file, i) as i16
            == samples[i] by {
            assert(sample_at(speech_file(samples), i) == samples[i]);
        }
    }
    assert forall|k: int, j: int|
        0 <= k < replies.len() && 0 <= j < replies[k].code implies sample_at(
        file,
        counted(replies, k) + j,
    ) == #[trigger] replies[k].output@[j] by {
        assert(stands(replies, k, j));
    }
}

/// The first reply that is a failure decides, with its code, whatever the stream and the other
/// replies are.
pub proof fn law_first_failure_is_reported(s: Seq<u8>, replies: Seq<DecodeReply>, k: int)
    requires
        0 <= k < replies.len(),
        replies[k].code < 0,
        forall|j: int| 0 <= j < k ==> (#[trigger] replies[j]).code >= 0,
    ensures
        decompressed(s, replies) == Err::<Seq<u8>, _>(OpusError::DecodeFailed(replies[k].code)),
    decreases replies.len(),
{
    if k > 0 {
        let later = replies.skip(1);
        assert(replies[0].code >= 0);
        assert(later[k - 1] == replies[k]);
        assert forall|j: int| 0 <= j < k - 1 implies (#[trigger] later[j]).code >= 0 by {
            assert(later[j] == replies[j + 1]);
        }
        law_first_failure_is_reported(s, later, k - 1);
    }
}

/// A stream that does not end well gives no recording, however well its frames were decoded.
pub proof fn law_cut_stream_is_refused(s: Seq<u8>, replies: Seq<DecodeReply>)
    requires
        forall|k: int| 0 <= k < replies.len() ==> (#[trigger] replies[k]).code >= 0,
        !split(s).1,
    ensures
        decompressed(s, replies) == Err::<Seq<u8>, _>(OpusError::InvalidFrameLength),
{
    lemma_no_failure(replies);
}

/// The decoder's buffer has room for the longest frame that Opus has, 120 ms, at its highest rate,
/// 48000 samples a second, and for no more.
pub proof fn law_buffer_holds_longest_frame()
    ensures
        MAX_FRAME_SIZE * 1000 == 120 * 48_000,
{
}

} // verus!
