//! What holds of the server over several events.

use crate::assembly::{law_status_tells_what_is_there, AssemblyView, ASSEMBLY_TIMEOUT_NANOS};
use crate::chunks::{brings, join, law_messages_bring_transcript};
use crate::protocol::{JobResultView, MessageView};
use crate::server::{
    chunk_of, error_answer, ChunkView, JobActionView, PacketActionView, PeerAddr, ServerError,
    ServerView,
};
use vstd::prelude::*;

verus! {

/// What can happen to a server.
pub enum Event {
    /// A message came from a client.
    Packet { message: MessageView, addr: PeerAddr, now: u128 },
    /// The audio of a request went to the workers.
    Submitted { request_id: u64 },
    /// The answer to a request was sent.
    Delivered { request_id: u64 },
    /// It was time to forget stale requests.
    Cleanup { now: u128 },
}

/// The state after an event.
pub open spec fn step(server: ServerView, event: Event) -> ServerView {
    match event {
        Event::Packet { message, addr, now } => server.after_message(message, addr, now),
        Event::Submitted { request_id } => server.after_submission(request_id),
        Event::Delivered { request_id } => server.after_delivery(request_id),
        Event::Cleanup { now } => server.after_cleanup(now),
    }
}

/// The state after some events, in order.
pub open spec fn run(server: ServerView, events: Seq<Event>) -> ServerView
    decreases events.len(),
{
    if events.len() == 0 {
        server
    } else {
        step(run(server, events.drop_last()), events.last())
    }
}

/// A message that may not be acted upon changes nothing. If it carries a token, a wrong one, the
/// sender is told that it is unauthorized; if it carries none, nothing is answered.
pub proof fn law_refused_message_changes_nothing(
    server: ServerView,
    message: MessageView,
    addr: PeerAddr,
    now: u128,
)
    requires
        !server.admits(message),
    ensures
        server.after_message(message, addr, now) == server,
        server.message_action(message, addr, now) == match message.token() {
            Some(_) => PacketActionView::Refuse {
                answer: error_answer(message.request(), "Unauthorized"@),
                addr,
            },
            None => PacketActionView::MissingToken,
        },
{
}

/// Nothing is known of a request: no chunk, no address.
pub open spec fn is_forgotten(server: ServerView, request_id: u64) -> bool {
    !server.assemblies.contains_key(request_id) && !server.client_addrs.contains_key(request_id)
}

/// No result of the request would be answered: it was cancelled, or there is nowhere to send to.
pub open spec fn is_silent(server: ServerView, request_id: u64) -> bool {
    server.cancelled.contains(request_id) || !server.client_addrs.contains_key(request_id)
}

/// A cancelled request is forgotten at once, and its results and errors are dropped.
pub proof fn law_cancel_drops_request(server: ServerView, request_id: u64, result: JobResultView)
    requires
        result.request() == request_id,
    ensures
        is_forgotten(server.after_cancel(request_id), request_id),
        server.after_cancel(request_id).job_action(result) == Ok::<_, ServerError>(
            JobActionView::Drop,
        ),
{
}

/// A chunk of the request came and was kept.
pub open spec fn is_chunk_of(server: ServerView, event: Event, request_id: u64) -> bool {
    event matches Event::Packet { message, .. } && message is AudioChunk && message.request()
        == request_id && server.admits(message)
}

/// After a cancellation no result of the request is ever answered, whatever else happens. The one
/// way to be answered under the same number is to ask anew, with a chunk that comes after the
/// cancellation itself was forgotten.
pub proof fn law_cancelled_request_stays_silent(
    server: ServerView,
    request_id: u64,
    events: Seq<Event>,
    result: JobResultView,
)
    requires
        result.request() == request_id,
        forall|k: int|
            0 <= k < events.len() && is_chunk_of(
                run(server.after_cancel(request_id), events.take(k)),
                #[trigger] events[k],
                request_id,
            ) ==> run(server.after_cancel(request_id), events.take(k)).cancelled.contains(
                request_id,
            ),
    ensures
        is_silent(run(server.after_cancel(request_id), events), request_id),
        !(run(server.after_cancel(request_id), events).job_action(result) matches Ok(
            JobActionView::Send { .. },
        )),
    decreases events.len(),
{
    let start = server.after_cancel(request_id);
    if events.len() > 0 {
        let fewer = events.drop_last();
        let last = events.len() - 1;
        assert forall|k: int|
            0 <= k < fewer.len() && is_chunk_of(
                run(start, fewer.take(k)),
                #[trigger] fewer[k],
                request_id,
            ) implies run(start, fewer.take(k)).cancelled.contains(request_id) by {
            assert(fewer.take(k) =~= events.take(k));
            assert(fewer[k] == events[k]);
        }
        law_cancelled_request_stays_silent(server, request_id, fewer, result);
        assert(events.take(last) =~= fewer);
        let state = run(start, fewer);
        assert(is_silent(state, request_id));
        assert(is_chunk_of(state, events[last], request_id) ==> state.cancelled.contains(
            request_id,
        ));
    }
}

/// The event is not about the request: a message of another request or one that is refused, the
/// submission or the answer of another request, a clean-up while the request is fresh.
pub open spec fn leaves_alone(server: ServerView, event: Event, request_id: u64) -> bool {
    match event {
        Event::Packet { message, .. } => message.request() != request_id || !server.admits(message),
        Event::Submitted { request_id: id } => id != request_id,
        Event::Delivered { request_id: id } => id != request_id,
        Event::Cleanup { now } => !server.is_stale(request_id, now),
    }
}

/// Two servers know the same of a request.
pub open spec fn knows_same(one: ServerView, other: ServerView, request_id: u64) -> bool {
    &&& one.assemblies.contains_key(request_id) == other.assemblies.contains_key(request_id)
    &&& one.assemblies.contains_key(request_id) ==> one.assemblies[request_id]
        == other.assemblies[request_id]
    &&& one.client_addrs.contains_key(request_id) == other.client_addrs.contains_key(request_id)
    &&& one.client_addrs.contains_key(request_id) ==> one.client_addrs[request_id]
        == other.client_addrs[request_id]
    &&& one.cancelled.contains(request_id) == other.cancelled.contains(request_id)
}

/// Requests do not interfere: what is not about a request changes nothing for it, neither what the
/// server knows of it nor what its results would be answered.
pub proof fn law_requests_are_independent(
    server: ServerView,
    event: Event,
    other: u64,
    result: JobResultView,
)
    requires
        leaves_alone(server, event, other),
        result.request() == other,
    ensures
        knows_same(server, step(server, event), other),
        step(server, event).job_action(result) == server.job_action(result),
{
}

/// Every request that waits for chunks has an address to answer to.
pub open spec fn is_addressed(server: ServerView) -> bool {
    forall|id: u64| #[trigger]
        server.assemblies.contains_key(id) ==> server.client_addrs.contains_key(id)
}

/// A request that waits for chunks keeps its address. The one exception: the answer to a request
/// was sent while chunks under the same number were waiting again.
pub proof fn law_waiting_requests_keep_their_address(server: ServerView, event: Event)
    requires
        is_addressed(server),
        event matches Event::Delivered { request_id } ==> !server.assemblies.contains_key(
            request_id,
        ),
    ensures
        is_addressed(step(server, event)),
{
    let after = step(server, event);
    assert forall|id: u64| #[trigger]
        after.assemblies.contains_key(id) implies after.client_addrs.contains_key(id) by {
        if server.assemblies.contains_key(id) {
            assert(server.client_addrs.contains_key(id));
        }
    }
}

/// The address of the request is given up by the event: the request is cancelled or stale, or its
/// answer was sent.
pub open spec fn releases(server: ServerView, event: Event, request_id: u64) -> bool {
    match event {
        Event::Packet { message, .. } => {
            &&& message is Cancel
            &&& message.request() == request_id
            &&& server.admits(message)
        },
        Event::Delivered { request_id: id } => id == request_id,
        Event::Cleanup { now } => server.is_stale(request_id, now),
        Event::Submitted { .. } => false,
    }
}

/// The answer goes to whoever sent the first chunk of the request, also if later chunks come from
/// elsewhere.
pub proof fn law_answer_goes_to_first_sender(
    server: ServerView,
    chunk: ChunkView,
    now: u128,
    events: Seq<Event>,
)
    requires
        is_forgotten(server, chunk.request_id),
        forall|k: int|
            0 <= k < events.len() ==> !releases(
                run(server.after_chunk(chunk, now), events.take(k)),
                #[trigger] events[k],
                chunk.request_id,
            ),
    ensures
        run(server.after_chunk(chunk, now), events).client_addrs.contains_key(chunk.request_id),
        run(server.after_chunk(chunk, now), events).client_addrs[chunk.request_id] == chunk.addr,
    decreases events.len(),
{
    let start = server.after_chunk(chunk, now);
    let id = chunk.request_id;
    if events.len() > 0 {
        let fewer = events.drop_last();
        let last = events.len() - 1;
        assert forall|k: int| 0 <= k < fewer.len() implies !releases(
            run(start, fewer.take(k)),
            #[trigger] fewer[k],
            id,
        ) by {
            assert(fewer.take(k) =~= events.take(k));
            assert(fewer[k] == events[k]);
        }
        law_answer_goes_to_first_sender(server, chunk, now, fewer);
        assert(events.take(last) =~= fewer);
        assert(!releases(run(start, fewer), events[last], id));
    }
}

/// A chunk keeps its request alive for the timeout and no longer: a clean-up drops the request, its
/// address and its cancellation exactly if the timeout has passed since.
pub proof fn law_chunk_restarts_timeout(
    server: ServerView,
    chunk: ChunkView,
    arrival: u128,
    cleanup: u128,
)
    ensures
        ({
            let after = server.after_chunk(chunk, arrival).after_cleanup(cleanup);
            let id = chunk.request_id;
            if cleanup < arrival + ASSEMBLY_TIMEOUT_NANOS {
                knows_same(server.after_chunk(chunk, arrival), after, id)
            } else {
                is_forgotten(after, id) && !after.cancelled.contains(id)
            }
        }),
{
}

/// A chunk and when it came.
pub struct Arrival {
    pub chunk: ChunkView,
    pub now: u128,
}

/// The state after some chunks came, in order.
pub open spec fn run_chunks(server: ServerView, arrivals: Seq<Arrival>) -> ServerView
    decreases arrivals.len(),
{
    if arrivals.len() == 0 {
        server
    } else {
        run_chunks(server, arrivals.drop_last()).after_chunk(
            arrivals.last().chunk,
            arrivals.last().now,
        )
    }
}

/// The chunk is one of the pieces `parts` of the request.
pub open spec fn is_piece_of(chunk: ChunkView, request_id: u64, parts: Seq<Seq<u8>>) -> bool {
    &&& chunk.request_id == request_id
    &&& chunk.total_chunks == parts.len()
    &&& chunk.chunk_index < parts.len()
    &&& chunk.data == parts[chunk.chunk_index as int]
}

/// All that came are pieces of one request.
pub open spec fn are_pieces_of(
    arrivals: Seq<Arrival>,
    request_id: u64,
    parts: Seq<Seq<u8>>,
) -> bool {
    forall|k: int|
        0 <= k < arrivals.len() ==> is_piece_of(
            (#[trigger] arrivals[k]).chunk,
            request_id,
            parts,
        )
}

/// Piece number `i` is among what came.
pub open spec fn has_piece(arrivals: Seq<Arrival>, i: u32) -> bool {
    exists|k: int| 0 <= k < arrivals.len() && (#[trigger] arrivals[k]).chunk.chunk_index == i
}

/// What the server holds of a request after some of its pieces came.
proof fn lemma_pieces_are_kept(
    server: ServerView,
    request_id: u64,
    parts: Seq<Seq<u8>>,
    arrivals: Seq<Arrival>,
)
    requires
        !server.assemblies.contains_key(request_id),
        are_pieces_of(arrivals, request_id, parts),
        arrivals.len() > 0,
    ensures
        ({
            let state = run_chunks(server, arrivals);
            let assembly = state.assemblies[request_id];
            &&& state.assemblies.contains_key(request_id)
            &&& assembly.total_chunks == parts.len()
            &&& assembly.compression == arrivals[0].chunk.compression
            &&& assembly.duration_ms == arrivals[0].chunk.duration_ms
            &&& assembly.chunks.dom().finite()
            &&& forall|i: u32| #[trigger]
                assembly.chunks.contains_key(i) <==> has_piece(arrivals, i)
            &&& forall|i: u32| #[trigger]
                assembly.chunks.contains_key(i) ==> assembly.chunks[i] == parts[i as int]
        }),
    decreases arrivals.len(),
{
    let fewer = arrivals.drop_last();
    let chunk = arrivals.last().chunk;
    let last = arrivals.len() - 1;
    assert(arrivals.last() == arrivals[last]);
    assert(is_piece_of(chunk, request_id, parts));
    assert forall|k: int| 0 <= k < fewer.len() implies is_piece_of(
        (#[trigger] fewer[k]).chunk,
        request_id,
        parts,
    ) by {
        assert(fewer[k] == arrivals[k]);
    }
    if fewer.len() > 0 {
        lemma_pieces_are_kept(server, request_id, parts, fewer);
        assert(fewer[0] == arrivals[0]);
    } else {
        assert(run_chunks(server, fewer) == server);
        assert(forall|i: u32| !has_piece(fewer, i));
    }
    assert forall|i: u32| has_piece(arrivals, i) <==> has_piece(fewer, i) || i
        == chunk.chunk_index by {
        if has_piece(arrivals, i) {
            let k = choose|k: int|
                0 <= k < arrivals.len() && (#[trigger] arrivals[k]).chunk.chunk_index == i;
            if k < last {
                assert(fewer[k].chunk.chunk_index == i);
            }
        }
        if has_piece(fewer, i) {
            let k = choose|k: int|
                0 <= k < fewer.len() && (#[trigger] fewer[k]).chunk.chunk_index == i;
            assert(arrivals[k].chunk.chunk_index == i);
        }
    }
}

/// The numbers below `n`.
spec fn below(n: nat) -> Set<u32> {
    Set::new(|i: u32| i < n)
}

/// There are `n` numbers below `n`.
proof fn lemma_below(n: nat)
    requires
        n <= u32::MAX,
    ensures
        below(n).finite(),
        below(n).len() == n,
    decreases n,
{
    if n == 0 {
        assert(below(n) =~= Set::<u32>::empty());
    } else {
        let m = (n - 1) as nat;
        lemma_below(m);
        assert(below(n) =~= below(m).insert(m as u32));
    }
}

/// An assembly with pieces only below its total is full exactly if it has all of them.
proof fn lemma_full_means_all(assembly: AssemblyView)
    requires
        assembly.chunks.dom().finite(),
        forall|i: u32| #[trigger]
            assembly.chunks.contains_key(i) ==> i < assembly.total_chunks,
    ensures
        assembly.is_full() == assembly.holds_below(assembly.total_chunks),
{
    let n = assembly.total_chunks as nat;
    let all = below(n);
    lemma_below(n);
    assert(assembly.chunks.dom().subset_of(all));
    if assembly.holds_below(assembly.total_chunks) {
        assert(assembly.chunks.dom() =~= all);
    } else {
        let i = choose|i: u32| i < assembly.total_chunks && !assembly.chunks.contains_key(i);
        assembly.chunks.dom().lemma_subset_not_in_lt(all, i);
    }
}

/// Audio is put together from its chunks in whatever order they come, also if some come twice. No
/// chunk but the one that completes the request leads to more than its being kept; that one leads
/// to the whole audio. The format and the duration are those that came with the first chunk.
pub proof fn law_chunks_join_in_any_order(
    server: ServerView,
    request_id: u64,
    parts: Seq<Seq<u8>>,
    arrivals: Seq<Arrival>,
)
    requires
        !server.assemblies.contains_key(request_id),
        are_pieces_of(arrivals, request_id, parts),
        arrivals.len() > 0,
    ensures
        ({
            let state = run_chunks(server, arrivals.drop_last());
            let action = state.chunk_action(arrivals.last().chunk, arrivals.last().now);
            if forall|i: u32| i < parts.len() ==> has_piece(arrivals, i) {
                action == PacketActionView::Decompress {
                    request_id,
                    compression: arrivals[0].chunk.compression,
                    data: join(parts),
                }
            } else {
                action == PacketActionView::Stored
            }
        }),
        run_chunks(server, arrivals).assemblies[request_id].duration_ms
            == arrivals[0].chunk.duration_ms,
{
    lemma_pieces_are_kept(server, request_id, parts, arrivals);
    let state = run_chunks(server, arrivals.drop_last());
    let last = arrivals.last();
    assert(last == arrivals[arrivals.len() - 1]);
    assert(is_piece_of(last.chunk, request_id, parts));
    let assembly = state.assembly_with(last.chunk, last.now);
    assert(run_chunks(server, arrivals).assemblies[request_id] == assembly);
    assert forall|i: u32| #[trigger] assembly.chunks.contains_key(i) implies i
        < assembly.total_chunks by {
        assert(has_piece(arrivals, i));
        let k = choose|k: int|
            0 <= k < arrivals.len() && (#[trigger] arrivals[k]).chunk.chunk_index == i;
        assert(is_piece_of(arrivals[k].chunk, request_id, parts));
    }
    lemma_full_means_all(assembly);
    if forall|i: u32| i < parts.len() ==> has_piece(arrivals, i) {
        assert(assembly.holds_below(assembly.total_chunks));
        assert forall|i: int| 0 <= i < parts.len() implies assembly.ordered(parts.len())[i]
            == parts[i] by {
            assert(assembly.chunks.contains_key(i as u32));
        }
        assert(assembly.ordered(parts.len()) =~= parts);
    } else {
        let i = choose|i: u32| i < parts.len() && !has_piece(arrivals, i);
        assert(!assembly.chunks.contains_key(i));
    }
}

/// The chunks of a request among some events, without those that are refused.
pub open spec fn arrivals_among(
    server: ServerView,
    events: Seq<Event>,
    request_id: u64,
) -> Seq<Arrival>
    decreases events.len(),
{
    if events.len() == 0 {
        Seq::empty()
    } else {
        let before = arrivals_among(server, events.drop_last(), request_id);
        if is_chunk_of(server, events.last(), request_id) {
            let chunk = chunk_of(events.last()->message, events.last()->addr);
            before.push(Arrival { chunk, now: events.last()->Packet_now })
        } else {
            before
        }
    }
}

/// Who is admitted never changes.
pub proof fn law_token_is_fixed(server: ServerView, events: Seq<Event>)
    ensures
        run(server, events).expected_auth_token == server.expected_auth_token,
    decreases events.len(),
{
    if events.len() > 0 {
        law_token_is_fixed(server, events.drop_last());
    }
}

/// While the chunks of a request come, other requests may come and go between them: in the end the
/// server knows of the request what it would know had its chunks come alone.
pub proof fn law_other_requests_may_intervene(
    server: ServerView,
    request_id: u64,
    events: Seq<Event>,
)
    requires
        forall|k: int|
            0 <= k < events.len() ==> is_chunk_of(server, #[trigger] events[k], request_id)
                || leaves_alone(run(server, events.take(k)), events[k], request_id),
    ensures
        knows_same(
            run(server, events),
            run_chunks(server, arrivals_among(server, events, request_id)),
            request_id,
        ),
    decreases events.len(),
{
    if events.len() > 0 {
        let fewer = events.drop_last();
        let last = events.len() - 1;
        assert forall|k: int| 0 <= k < fewer.len() implies is_chunk_of(
            server,
            #[trigger] fewer[k],
            request_id,
        ) || leaves_alone(run(server, fewer.take(k)), fewer[k], request_id) by {
            assert(fewer.take(k) =~= events.take(k));
            assert(fewer[k] == events[k]);
        }
        law_other_requests_may_intervene(server, request_id, fewer);
        law_token_is_fixed(server, fewer);
        assert(events.take(last) =~= fewer);
        let before = arrivals_among(server, fewer, request_id);
        let event = events[last];
        if is_chunk_of(server, event, request_id) {
            let chunk = chunk_of(event->message, event->addr);
            let arrival = Arrival { chunk, now: event->Packet_now };
            assert(before.push(arrival).drop_last() =~= before);
            assert(chunk.request_id == request_id);
        }
    }
}

/// The token in a message is good enough: there is no secret, or it is the token made from it.
pub open spec fn is_trusted(server: ServerView, auth_token: Seq<u8>) -> bool {
    server.expected_auth_token matches Some(expected) ==> auth_token == expected
}

/// The message is answered as one with the wrong token, and changes nothing.
pub open spec fn is_turned_away(
    server: ServerView,
    message: MessageView,
    request_id: u64,
    addr: PeerAddr,
    now: u128,
) -> bool {
    &&& server.after_message(message, addr, now) == server
    &&& server.message_action(message, addr, now) == (PacketActionView::Refuse {
        answer: MessageView::Error { request_id, message: "Unauthorized"@ },
        addr,
    })
}

/// Who may ask: with a secret, a request is acted upon if its token is the one made from the
/// secret, and turned away otherwise. Without one every request is acted upon. A message that is
/// no request changes nothing, and is not answered.
pub proof fn law_right_token_is_admitted(
    server: ServerView,
    message: MessageView,
    addr: PeerAddr,
    now: u128,
)
    ensures
        ({
            let action = server.message_action(message, addr, now);
            let after = server.after_message(message, addr, now);
            match message {
                MessageView::AudioChunk { request_id, auth_token, .. } => if is_trusted(
                    server,
                    auth_token,
                ) {
                    &&& action is Stored || action is Incomplete || action is Decompress
                    &&& after.assemblies.contains_key(request_id)
                } else {
                    is_turned_away(server, message, request_id, addr, now)
                },
                MessageView::Cancel { request_id, auth_token } => if is_trusted(
                    server,
                    auth_token,
                ) {
                    &&& action is Cancel
                    &&& after.cancelled.contains(request_id)
                } else {
                    is_turned_away(server, message, request_id, addr, now)
                },
                _ => {
                    &&& after == server
                    &&& action == if server.expected_auth_token is Some {
                        PacketActionView::MissingToken
                    } else {
                        PacketActionView::Unexpected
                    }
                },
            }
        }),
{
}

/// Nothing changed but, at most, what is known of one request.
pub open spec fn only_concerns(before: ServerView, after: ServerView, request_id: u64) -> bool {
    &&& after.encryption == before.encryption
    &&& after.expected_auth_token == before.expected_auth_token
    &&& forall|id: u64| id != request_id ==> #[trigger] knows_same(before, after, id)
}

/// Every cancellation that is admitted, at whatever stage the request is, is acknowledged to its
/// sender and handed on to the workers. The request is forgotten and counts as cancelled; no other
/// request notices.
pub proof fn law_cancellation_is_always_answered(
    server: ServerView,
    request_id: u64,
    auth_token: Seq<u8>,
    addr: PeerAddr,
    now: u128,
)
    requires
        is_trusted(server, auth_token),
    ensures
        ({
            let message = MessageView::Cancel { request_id, auth_token };
            let after = server.after_message(message, addr, now);
            &&& server.message_action(message, addr, now) == (PacketActionView::Cancel {
                request_id,
                answer: MessageView::Error { request_id, message: "Cancelled"@ },
                addr,
            })
            &&& !after.assemblies.contains_key(request_id)
            &&& !after.client_addrs.contains_key(request_id)
            &&& after.cancelled.contains(request_id)
            &&& only_concerns(server, after, request_id)
        }),
{
}

/// After a cancellation was admitted, no result of the request is ever sent, whatever else
/// happens, until it is asked for anew after the cancellation itself was forgotten.
pub proof fn law_admitted_cancellation_silences(
    server: ServerView,
    request_id: u64,
    auth_token: Seq<u8>,
    addr: PeerAddr,
    now: u128,
    events: Seq<Event>,
    result: JobResultView,
)
    requires
        is_trusted(server, auth_token),
        result.request() == request_id,
        ({
            let after = server.after_message(
                MessageView::Cancel { request_id, auth_token },
                addr,
                now,
            );
            forall|k: int|
                0 <= k < events.len() && is_chunk_of(
                    run(after, events.take(k)),
                    #[trigger] events[k],
                    request_id,
                ) ==> run(after, events.take(k)).cancelled.contains(request_id)
        }),
    ensures
        ({
            let after = server.after_message(
                MessageView::Cancel { request_id, auth_token },
                addr,
                now,
            );
            !(run(after, events).job_action(result) matches Ok(JobActionView::Send { .. }))
        }),
{
    let message = MessageView::Cancel { request_id, auth_token };
    assert(server.after_message(message, addr, now) == server.after_cancel(request_id));
    law_cancelled_request_stays_silent(server, request_id, events, result);
}

/// A chunk that is admitted is kept as the message brought it: its data, whole, under its index.
/// The first chunk of a request says how many there are, how long the recording is and how it is
/// compressed, and its sender is who will be answered. No other request notices.
pub proof fn law_chunk_message_is_kept_whole(
    server: ServerView,
    message: MessageView,
    addr: PeerAddr,
    now: u128,
)
    requires
        message is AudioChunk,
        is_trusted(server, message->AudioChunk_auth_token),
    ensures
        ({
            let id = message->AudioChunk_request_id;
            let after = server.after_message(message, addr, now);
            let known = server.assemblies.contains_key(id);
            let before = server.assemblies[id];
            let assembly = after.assemblies[id];
            &&& after.assemblies.contains_key(id)
            &&& assembly.chunks == (if known {
                before.chunks
            } else {
                Map::empty()
            }).insert(message->AudioChunk_chunk_index, message->AudioChunk_data)
            &&& assembly.total_chunks == if known {
                before.total_chunks
            } else {
                message->AudioChunk_total_chunks
            }
            &&& assembly.duration_ms == if known {
                before.duration_ms
            } else {
                message->AudioChunk_duration_ms
            }
            &&& assembly.compression == if known {
                before.compression
            } else {
                message->AudioChunk_compression
            }
            &&& assembly.last_update == now
            &&& after.client_addrs == if known || server.client_addrs.contains_key(id) {
                server.client_addrs
            } else {
                server.client_addrs.insert(id, addr)
            }
            &&& after.cancelled == server.cancelled
            &&& only_concerns(server, after, id)
        }),
{
}

/// What a chunk leads to is told by what is there of its request afterwards. With fewer chunks, or
/// more, than announced it is kept and no more; with as many, all in their places, the audio is
/// handed on, the chunks in the order of their indices; else the lowest that is missing is named.
pub proof fn law_chunk_message_leads_on(
    server: ServerView,
    message: MessageView,
    addr: PeerAddr,
    now: u128,
)
    requires
        message is AudioChunk,
        is_trusted(server, message->AudioChunk_auth_token),
    ensures
        ({
            let id = message->AudioChunk_request_id;
            let assembly = server.after_message(message, addr, now).assemblies[id];
            let total = assembly.total_chunks;
            match server.message_action(message, addr, now) {
                PacketActionView::Stored => assembly.chunks.dom().len() != total,
                PacketActionView::Incomplete { missing } => {
                    &&& assembly.chunks.dom().len() == total
                    &&& missing < total
                    &&& !assembly.chunks.contains_key(missing)
                    &&& forall|i: u32| i < missing ==> #[trigger] assembly.chunks.contains_key(i)
                },
                PacketActionView::Decompress { request_id, compression, data } => {
                    &&& assembly.chunks.dom().len() == total
                    &&& forall|i: u32| i < total ==> #[trigger] assembly.chunks.contains_key(i)
                    &&& request_id == id
                    &&& compression == assembly.compression
                    &&& data == join(Seq::new(total as nat, |i: int| assembly.chunks[i as u32]))
                },
                _ => false,
            }
        }),
{
    let chunk = chunk_of(message, addr);
    let assembly = server.assembly_with(chunk, now);
    law_status_tells_what_is_there(assembly);
    assert(server.after_message(message, addr, now).assemblies[chunk.request_id] == assembly);
}

/// The event is a message that brings one of the pieces `parts` of the request and is admitted.
pub open spec fn brings_piece(
    server: ServerView,
    event: Event,
    id: u64,
    parts: Seq<Seq<u8>>,
) -> bool {
    &&& event is Packet
    &&& event->message is AudioChunk
    &&& event->message->AudioChunk_request_id == id
    &&& event->message->AudioChunk_total_chunks == parts.len()
    &&& event->message->AudioChunk_chunk_index < parts.len()
    &&& event->message->AudioChunk_data == parts[event->message->AudioChunk_chunk_index as int]
    &&& is_trusted(server, event->message->AudioChunk_auth_token)
}

/// Some event brings piece number `i` of the request.
pub open spec fn some_brings(
    server: ServerView,
    events: Seq<Event>,
    id: u64,
    parts: Seq<Seq<u8>>,
    i: u32,
) -> bool {
    exists|k: int|
        0 <= k < events.len() && brings_piece(server, #[trigger] events[k], id, parts)
            && events[k]->message->AudioChunk_chunk_index == i
}

/// The chunks among some events are the pieces that the events bring.
proof fn lemma_arrivals_are_pieces(
    server: ServerView,
    events: Seq<Event>,
    id: u64,
    parts: Seq<Seq<u8>>,
)
    requires
        forall|k: int|
            0 <= k < events.len() ==> brings_piece(server, #[trigger] events[k], id, parts)
                || !is_chunk_of(server, events[k], id),
    ensures
        are_pieces_of(arrivals_among(server, events, id), id, parts),
        forall|i: u32|
            #![trigger has_piece(arrivals_among(server, events, id), i)]
            #![trigger some_brings(server, events, id, parts, i)]
            has_piece(arrivals_among(server, events, id), i) <==> some_brings(
                server,
                events,
                id,
                parts,
                i,
            ),
    decreases events.len(),
{
    let arrivals = arrivals_among(server, events, id);
    if events.len() > 0 {
        let fewer = events.drop_last();
        let last = events.len() - 1;
        let event = events[last];
        assert forall|k: int| 0 <= k < fewer.len() implies brings_piece(
            server,
            #[trigger] fewer[k],
            id,
            parts,
        ) || !is_chunk_of(server, fewer[k], id) by {
            assert(fewer[k] == events[k]);
        }
        lemma_arrivals_are_pieces(server, fewer, id, parts);
        let before = arrivals_among(server, fewer, id);
        assert(brings_piece(server, event, id, parts) || !is_chunk_of(server, event, id));
        assert(brings_piece(server, event, id, parts) == is_chunk_of(server, event, id));
        assert forall|k: int| 0 <= k < arrivals.len() implies is_piece_of(
            (#[trigger] arrivals[k]).chunk,
            id,
            parts,
        ) by {
            if k < before.len() {
                assert(arrivals[k] == before[k]);
            }
        }
        assert forall|i: u32|
            has_piece(arrivals, i) <==> #[trigger] some_brings(server, events, id, parts, i) by {
            assert(has_piece(before, i) <==> some_brings(server, fewer, id, parts, i));
            if has_piece(arrivals, i) {
                let k = choose|k: int|
                    0 <= k < arrivals.len() && (#[trigger] arrivals[k]).chunk.chunk_index == i;
                if k < before.len() {
                    assert(before[k].chunk.chunk_index == i);
                    let j = choose|j: int|
                        0 <= j < fewer.len() && brings_piece(
                            server,
                            #[trigger] fewer[j],
                            id,
                            parts,
                        ) && fewer[j]->message->AudioChunk_chunk_index == i;
                    assert(events[j] == fewer[j]);
                } else {
                    assert(brings_piece(server, events[last], id, parts));
                }
            }
            if some_brings(server, events, id, parts, i) {
                let j = choose|j: int|
                    0 <= j < events.len() && brings_piece(server, #[trigger] events[j], id, parts)
                        && events[j]->message->AudioChunk_chunk_index == i;
                if j < last {
                    assert(fewer[j] == events[j]);
                    let k = choose|k: int|
                        0 <= k < before.len() && (#[trigger] before[k]).chunk.chunk_index == i;
                    assert(arrivals[k].chunk.chunk_index == i);
                } else {
                    assert(arrivals[before.len() as int].chunk.chunk_index == i);
                }
            }
        }
    } else {
        assert forall|i: u32|
            has_piece(arrivals, i) <==> #[trigger] some_brings(server, events, id, parts, i) by {}
    }
}

/// The first chunk among some events is the one in the first event that brings a piece.
proof fn lemma_first_arrival(server: ServerView, events: Seq<Event>, id: u64, first: int)
    requires
        0 <= first < events.len(),
        is_chunk_of(server, events[first], id),
        forall|k: int| 0 <= k < first ==> !is_chunk_of(server, #[trigger] events[k], id),
    ensures
        arrivals_among(server, events, id).len() > 0,
        arrivals_among(server, events, id)[0].chunk == chunk_of(
            events[first]->message,
            events[first]->addr,
        ),
    decreases events.len(),
{
    let fewer = events.drop_last();
    if first < events.len() - 1 {
        assert(fewer[first] == events[first]);
        assert forall|k: int| 0 <= k < first implies !is_chunk_of(
            server,
            #[trigger] fewer[k],
            id,
        ) by {
            assert(fewer[k] == events[k]);
        }
        lemma_first_arrival(server, fewer, id, first);
    } else {
        assert forall|k: int| 0 <= k < fewer.len() implies !is_chunk_of(
            server,
            #[trigger] fewer[k],
            id,
        ) by {
            assert(fewer[k] == events[k]);
        }
        lemma_no_arrival(server, fewer, id);
    }
}

/// Without chunks there are no arrivals.
proof fn lemma_no_arrival(server: ServerView, events: Seq<Event>, id: u64)
    requires
        forall|k: int| 0 <= k < events.len() ==> !is_chunk_of(server, #[trigger] events[k], id),
    ensures
        arrivals_among(server, events, id).len() == 0,
    decreases events.len(),
{
    if events.len() > 0 {
        let fewer = events.drop_last();
        assert forall|k: int| 0 <= k < fewer.len() implies !is_chunk_of(
            server,
            #[trigger] fewer[k],
            id,
        ) by {
            assert(fewer[k] == events[k]);
        }
        lemma_no_arrival(server, fewer, id);
        assert(events[events.len() - 1] == events.last());
    }
}

/// The audio of a request is put together from the data of the messages that bring its pieces, in
/// whatever order they come, also if some come twice, and whatever happens to other requests in
/// between. The message that completes it leads to the whole audio, every message before to no more
/// than its being kept. The duration and the format are those of the first message.
pub proof fn law_messages_make_whole_audio(
    server: ServerView,
    id: u64,
    parts: Seq<Seq<u8>>,
    events: Seq<Event>,
    first: int,
)
    requires
        !server.assemblies.contains_key(id),
        0 <= first < events.len(),
        forall|k: int| 0 <= k < first ==> !brings_piece(server, #[trigger] events[k], id, parts),
        brings_piece(server, events[first], id, parts),
        brings_piece(server, events.last(), id, parts),
        forall|k: int|
            0 <= k < events.len() ==> brings_piece(server, #[trigger] events[k], id, parts)
                || leaves_alone(run(server, events.take(k)), events[k], id),
    ensures
        ({
            let last = events.last();
            let state = run(server, events.drop_last());
            let action = state.message_action(last->message, last->addr, last->Packet_now);
            if forall|i: u32| i < parts.len() ==> some_brings(server, events, id, parts, i) {
                action == PacketActionView::Decompress {
                    request_id: id,
                    compression: events[first]->message->AudioChunk_compression,
                    data: join(parts),
                }
            } else {
                action == PacketActionView::Stored
            }
        }),
        run(server, events).assemblies.contains_key(id),
        run(server, events).assemblies[id].duration_ms
            == events[first]->message->AudioChunk_duration_ms,
{
    let fewer = events.drop_last();
    let n = events.len() - 1;
    let last = events.last();
    assert(last == events[n]);
    assert forall|k: int| 0 <= k < events.len() implies brings_piece(
        server,
        #[trigger] events[k],
        id,
        parts,
    ) == is_chunk_of(server, events[k], id) by {
        law_token_is_fixed(server, events.take(k));
        assert(brings_piece(server, events[k], id, parts) || leaves_alone(
            run(server, events.take(k)),
            events[k],
            id,
        ));
    }
    assert forall|k: int| 0 <= k < fewer.len() implies is_chunk_of(server, #[trigger] fewer[k], id)
        || leaves_alone(run(server, fewer.take(k)), fewer[k], id) by {
        assert(fewer[k] == events[k]);
        assert(fewer.take(k) =~= events.take(k));
        assert(brings_piece(server, events[k], id, parts) == is_chunk_of(server, events[k], id));
    }
    law_other_requests_may_intervene(server, id, fewer);
    lemma_arrivals_are_pieces(server, events, id, parts);
    assert forall|k: int| 0 <= k < first implies !is_chunk_of(server, #[trigger] events[k], id) by {
        assert(brings_piece(server, events[k], id, parts) == is_chunk_of(server, events[k], id));
    }
    lemma_first_arrival(server, events, id, first);
    let arrivals = arrivals_among(server, events, id);
    let before = arrivals_among(server, fewer, id);
    let chunk = chunk_of(last->message, last->addr);
    assert(is_chunk_of(server, last, id));
    assert(arrivals == before.push(Arrival { chunk, now: last->Packet_now }));
    assert(arrivals.drop_last() =~= before);
    law_chunks_join_in_any_order(server, id, parts, arrivals);
    law_token_is_fixed(server, fewer);
    let state = run(server, fewer);
    let alone = run_chunks(server, before);
    assert(knows_same(state, alone, id));
    assert(state.assembly_with(chunk, last->Packet_now) == alone.assembly_with(
        chunk,
        last->Packet_now,
    ));
    assert(state.admits(last->message));
    assert(state.message_action(last->message, last->addr, last->Packet_now) == alone.chunk_action(
        chunk,
        last->Packet_now,
    ));
    assert(run(server, events) == state.after_chunk(chunk, last->Packet_now));
    assert(run_chunks(server, arrivals) == alone.after_chunk(chunk, last->Packet_now));
    assert forall|i: u32| i < parts.len() implies has_piece(arrivals, i) == some_brings(
        server,
        events,
        id,
        parts,
        i,
    ) by {}
}

/// The transcript of a request that was not cancelled is sent, whole, to the client whose address
/// is known for it, whatever else the server holds.
pub proof fn law_transcript_is_sent_to_client(
    server: ServerView,
    request_id: u64,
    srt_data: Seq<u8>,
)
    requires
        !server.cancelled.contains(request_id),
        server.client_addrs.contains_key(request_id),
    ensures
        match server.job_action(JobResultView::Success { request_id, srt_data }) {
            Ok(JobActionView::Send { messages, addr }) => {
                &&& addr == server.client_addrs[request_id]
                &&& brings(messages, request_id, srt_data)
            },
            _ => false,
        },
{
    law_messages_bring_transcript(request_id, srt_data);
}

/// The failure of a request that was not cancelled is sent, with its reason, to the client whose
/// address is known for it, whatever else the server holds.
pub proof fn law_failure_is_sent_to_client(server: ServerView, request_id: u64, reason: Seq<char>)
    requires
        !server.cancelled.contains(request_id),
        server.client_addrs.contains_key(request_id),
    ensures
        match server.job_action(JobResultView::Error { request_id, message: reason }) {
            Ok(JobActionView::Send { messages, addr }) => {
                &&& addr == server.client_addrs[request_id]
                &&& messages.len() == 1
                &&& messages[0] == (MessageView::Error { request_id, message: reason })
            },
            _ => false,
        },
{
}

/// Results are dropped if and only if their request was cancelled. Where nobody is known to wait,
/// a transcript is a fault and a failure is passed over.
pub proof fn law_results_without_client(
    server: ServerView,
    request_id: u64,
    srt_data: Seq<u8>,
    reason: Seq<char>,
)
    ensures
        ({
            let success = server.job_action(JobResultView::Success { request_id, srt_data });
            let failure = server.job_action(JobResultView::Error { request_id, message: reason });
            let cancelled = server.cancelled.contains(request_id);
            let waits = server.client_addrs.contains_key(request_id);
            &&& cancelled <==> success == Ok::<_, ServerError>(JobActionView::Drop)
            &&& cancelled <==> failure == Ok::<_, ServerError>(JobActionView::Drop)
            &&& !cancelled && !waits <==> success == Err::<JobActionView, _>(
                ServerError::ClientAddressNotFound,
            )
            &&& !cancelled && !waits <==> failure == Ok::<_, ServerError>(JobActionView::NoClient)
        }),
{
}

/// Once its audio is with the workers, a request has no chunks here; who asked, and whether the
/// request was cancelled, is still known. No other request notices.
pub proof fn law_submission_keeps_address(server: ServerView, request_id: u64)
    ensures
        ({
            let after = server.after_submission(request_id);
            &&& !after.assemblies.contains_key(request_id)
            &&& after.client_addrs == server.client_addrs
            &&& after.cancelled == server.cancelled
            &&& only_concerns(server, after, request_id)
        }),
{
}

/// Once its answer was sent, a request has no address and is not cancelled; chunks that wait under
/// its number go on waiting. No other request notices.
pub proof fn law_delivery_forgets_address(server: ServerView, request_id: u64)
    ensures
        ({
            let after = server.after_delivery(request_id);
            &&& after.assemblies == server.assemblies
            &&& !after.client_addrs.contains_key(request_id)
            &&& !after.cancelled.contains(request_id)
            &&& only_concerns(server, after, request_id)
        }),
{
}

/// A clean-up forgets a request, its address and its cancellation if the latest of its chunks came
/// sixty seconds ago or earlier. It changes nothing of any other request, neither of one that
/// waits for chunks nor of one that has none here.
pub proof fn law_cleanup_forgets_after_sixty_seconds(server: ServerView, now: u128, id: u64)
    ensures
        ({
            let after = server.after_cleanup(now);
            &&& after.encryption == server.encryption
            &&& after.expected_auth_token == server.expected_auth_token
            &&& if server.assemblies.contains_key(id) && now - server.assemblies[id].last_update
                >= 60_000_000_000 {
                &&& !after.assemblies.contains_key(id)
                &&& !after.client_addrs.contains_key(id)
                &&& !after.cancelled.contains(id)
            } else {
                knows_same(server, after, id)
            }
        }),
{
}

} // verus!
