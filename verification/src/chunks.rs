//! Byte strings in pieces: cutting a transcript into datagrams, and joining pieces again.

use crate::protocol::{Message, MessageView};
use crate::wire::{block, lemma_varint_len, varint};
use vstd::prelude::*;

verus! {

/// The most bytes that a UDP datagram carries over IPv4.
pub const MAX_DATAGRAM_SIZE: usize = 65_507;

/// The most bytes of a transcript that one datagram carries: 1024 fewer than fit, which leaves room
/// for the other fields and for the cipher.
pub const MAX_CHUNK_SIZE: usize = 64_483;

/// The parts one after the other.
pub open spec fn join(parts: Seq<Seq<u8>>) -> Seq<u8>
    decreases parts.len(),
{
    if parts.len() == 0 {
        Seq::empty()
    } else {
        join(parts.drop_last()) + parts.last()
    }
}

/// How many pieces of at most `MAX_CHUNK_SIZE` bytes `len` bytes are cut into.
pub open spec fn piece_count(len: nat) -> nat {
    (len + MAX_CHUNK_SIZE - 1) as nat / MAX_CHUNK_SIZE as nat
}

/// Where piece number `i` of `len` bytes begins, and piece `i - 1` ends.
pub open spec fn piece_start(len: nat, i: int) -> int {
    if i * MAX_CHUNK_SIZE <= len {
        i * MAX_CHUNK_SIZE
    } else {
        len as int
    }
}

/// The pieces that `data` is cut into: all but the last are of full size, and none is empty.
pub open spec fn pieces(data: Seq<u8>) -> Seq<Seq<u8>> {
    Seq::new(
        piece_count(data.len()),
        |i: int| data.subrange(piece_start(data.len(), i), piece_start(data.len(), i + 1)),
    )
}

/// The messages that carry a transcript: one for each piece, numbered from zero.
pub open spec fn result_messages(request_id: u64, srt_data: Seq<u8>) -> Seq<MessageView> {
    Seq::new(
        piece_count(srt_data.len()),
        |i: int|
            MessageView::Result {
                request_id,
                chunk_index: i as u32,
                total_chunks: piece_count(srt_data.len()) as u32,
                data: pieces(srt_data)[i],
            },
    )
}

/// Messages as mathematics.
pub open spec fn messages_view(messages: Seq<Message>) -> Seq<MessageView> {
    messages.map_values(|m: Message| m@)
}

/// Cuts a transcript into the messages that carry it.
pub fn split_transcript(request_id: u64, srt_data: &[u8]) -> (messages: Vec<Message>)
    ensures
        messages_view(messages@) == result_messages(request_id, srt_data@),
{
    let len = srt_data.len();
    let ghost all = result_messages(request_id, srt_data@);
    let count: usize = len / MAX_CHUNK_SIZE + if len % MAX_CHUNK_SIZE == 0 {
        0usize
    } else {
        1usize
    };
    assert(count == piece_count(len as nat));
    let mut messages: Vec<Message> = Vec::new();
    let mut index: usize = 0;
    let mut pos: usize = 0;
    assert(messages_view(messages@) =~= all.take(0));
    while index < count
        invariant
            len == srt_data@.len(),
            count == piece_count(len as nat),
            index <= count,
            pos == piece_start(len as nat, index as int),
            all == result_messages(request_id, srt_data@),
            messages_view(messages@) == all.take(index as int),
        decreases count - index,
    {
        let end: usize = if len - pos > MAX_CHUNK_SIZE {
            pos + MAX_CHUNK_SIZE
        } else {
            len
        };
        assert(end == piece_start(len as nat, index + 1));
        let data = vstd::slice::slice_to_vec(vstd::slice::slice_subrange(srt_data, pos, end));
        let ghost before = messages_view(messages@);
        messages.push(
            Message::Result {
                request_id,
                chunk_index: index as u32,
                total_chunks: count as u32,
                data,
            },
        );
        assert(data@ == pieces(srt_data@)[index as int]);
        assert(messages_view(messages@) =~= before.push(all[index as int]));
        assert(all.take(index + 1) =~= all.take(index as int).push(all[index as int]));
        index = index + 1;
        pos = end;
    }
    assert(all.take(index as int) =~= all);
    messages
}

/// Cutting loses nothing: joined, the pieces are the bytes that were cut, and every piece holds
/// between one byte and the most that a datagram carries.
pub proof fn law_pieces_join_to_whole(data: Seq<u8>)
    ensures
        join(pieces(data)) == data,
        forall|i: int|
            0 <= i < pieces(data).len() ==> 1 <= (#[trigger] pieces(data)[i]).len()
                <= MAX_CHUNK_SIZE,
{
    let all = pieces(data);
    lemma_join_front(data, all.len());
    assert(all.take(all.len() as int) =~= all);
    assert(data.take(data.len() as int) =~= data);
}

/// The first `n` pieces are the front of the whole.
proof fn lemma_join_front(data: Seq<u8>, n: nat)
    requires
        n <= piece_count(data.len()),
    ensures
        join(pieces(data).take(n as int)) == data.take(piece_start(data.len(), n as int)),
    decreases n,
{
    let all = pieces(data);
    let front = all.take(n as int);
    if n == 0 {
        assert(front =~= Seq::<Seq<u8>>::empty());
        assert(data.take(0) =~= Seq::<u8>::empty());
    } else {
        lemma_join_front(data, (n - 1) as nat);
        assert(front.drop_last() =~= all.take(n - 1));
        assert(front.last() == all[n - 1]);
        let a = piece_start(data.len(), n - 1);
        let b = piece_start(data.len(), n as int);
        assert(data.take(a) + data.subrange(a, b) =~= data.take(b));
    }
}

/// Every message of a transcript fits in a datagram, with a thousand bytes to spare for the
/// cipher.
pub proof fn law_results_fit_datagrams(request_id: u64, srt_data: Seq<u8>, i: int)
    requires
        0 <= i < result_messages(request_id, srt_data).len(),
    ensures
        result_messages(request_id, srt_data)[i].wire().len() + 1000 <= MAX_DATAGRAM_SIZE,
{
    let message = result_messages(request_id, srt_data)[i];
    let piece = pieces(srt_data)[i];
    law_pieces_join_to_whole(srt_data);
    vstd::arithmetic::power2::lemma2_to64();
    vstd::arithmetic::power2::lemma2_to64_rest();
    lemma_varint_len(request_id as nat, 64);
    lemma_varint_len(i as u32 as nat, 32);
    lemma_varint_len(piece_count(srt_data.len()) as u32 as nat, 32);
    lemma_varint_len(piece.len(), 16);
    assert(varint(2).len() == 1);
    assert(message.wire().len() == 1 + varint(request_id as nat).len() + varint(
        i as u32 as nat,
    ).len() + varint(piece_count(srt_data.len()) as u32 as nat).len() + block(piece).len());
}

/// What the messages of a transcript carry, in order.
pub open spec fn carried(messages: Seq<MessageView>) -> Seq<Seq<u8>> {
    messages.map_values(|m: MessageView| m->Result_data)
}

/// A client that joins the messages of a transcript in the order of their numbers has the
/// transcript. Each message says whose answer it is, which one it is and how many there are.
pub proof fn law_transcript_is_rebuilt(request_id: u64, srt_data: Seq<u8>)
    requires
        piece_count(srt_data.len()) <= u32::MAX,
    ensures
        join(carried(result_messages(request_id, srt_data))) == srt_data,
        forall|i: int|
            0 <= i < result_messages(request_id, srt_data).len() ==> {
                &&& #[trigger] result_messages(request_id, srt_data)[i] is Result
                &&& result_messages(request_id, srt_data)[i].request() == request_id
                &&& result_messages(request_id, srt_data)[i]->Result_chunk_index == i
                &&& result_messages(request_id, srt_data)[i]->Result_total_chunks
                    == result_messages(request_id, srt_data).len()
            },
{
    law_pieces_join_to_whole(srt_data);
    assert(carried(result_messages(request_id, srt_data)) =~= pieces(srt_data));
}

/// Joining is putting one behind the other: one part alone is itself, and the parts of two lists
/// give what the first gives followed by what the second gives.
pub proof fn law_join_keeps_every_byte(part: Seq<u8>, first: Seq<Seq<u8>>, second: Seq<Seq<u8>>)
    ensures
        join(seq![part]) == part,
        join(first + second) == join(first) + join(second),
        join(Seq::<Seq<u8>>::empty()) == Seq::<u8>::empty(),
    decreases second.len(),
{
    assert(seq![part].drop_last() =~= Seq::<Seq<u8>>::empty());
    assert(join(seq![part].drop_last()) =~= Seq::<u8>::empty());
    assert(join(seq![part]) =~= part);
    if second.len() == 0 {
        assert(first + second =~= first);
        assert(join(first) + join(second) =~= join(first));
    } else {
        law_join_keeps_every_byte(part, first, second.drop_last());
        assert((first + second).drop_last() =~= first + second.drop_last());
        assert((first + second).last() == second.last());
        assert(join(first + second) =~= join(first) + join(second));
    }
}

/// `messages` bring `srt_data` to whoever asked as `request_id`: they are results of that request,
/// numbered from zero, each saying how many there are; all but the last carry 64483 bytes, the last
/// carries at least one and no more than that; and what they carry, in order, is `srt_data`.
pub open spec fn brings(messages: Seq<MessageView>, request_id: u64, srt_data: Seq<u8>) -> bool {
    &&& forall|i: int|
        0 <= i < messages.len() ==> {
            &&& (#[trigger] messages[i]) is Result
            &&& messages[i]->Result_request_id == request_id
            &&& messages[i]->Result_chunk_index == i as u32
            &&& messages[i]->Result_total_chunks == messages.len() as u32
            &&& 1 <= messages[i]->Result_data.len() <= 64_483
            &&& i < messages.len() - 1 ==> messages[i]->Result_data.len() == 64_483
        }
    &&& join(Seq::new(messages.len(), |i: int| messages[i]->Result_data)) == srt_data
}

/// A transcript is brought to the client whole, in pieces of the agreed size.
pub proof fn law_messages_bring_transcript(request_id: u64, srt_data: Seq<u8>)
    ensures
        brings(result_messages(request_id, srt_data), request_id, srt_data),
{
    let messages = result_messages(request_id, srt_data);
    law_pieces_join_to_whole(srt_data);
    assert(Seq::new(messages.len(), |i: int| messages[i]->Result_data) =~= pieces(srt_data));
    assert forall|i: int| 0 <= i < messages.len() implies {
        &&& (#[trigger] messages[i]) is Result
        &&& 1 <= messages[i]->Result_data.len() <= 64_483
        &&& i < messages.len() - 1 ==> messages[i]->Result_data.len() == 64_483
    } by {
        assert(messages[i]->Result_data == pieces(srt_data)[i]);
        assert(1 <= pieces(srt_data)[i].len() <= MAX_CHUNK_SIZE);
        if i < messages.len() - 1 {
            assert((i + 1) * MAX_CHUNK_SIZE <= srt_data.len());
        }
    }
}

/// A list of messages is shown message by message.
pub proof fn law_messages_are_shown(messages: Seq<Message>)
    ensures
        messages_view(messages).len() == messages.len(),
        forall|i: int|
            0 <= i < messages.len() ==> #[trigger] messages_view(messages)[i] == messages[i]@,
{
}

} // verus!
