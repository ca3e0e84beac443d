//! Audio that arrives in chunks: what has come so far of a request, and when it is whole.

use crate::chunks::join;
use crate::protocol::CompressionFormat;
use std::collections::HashMap;
use vstd::prelude::*;
use vstd::std_specs::hash::*;

verus! {

broadcast use vstd::std_specs::hash::group_hash_axioms;

/// How long a request may wait for its next chunk, in nanoseconds: sixty seconds.
pub const ASSEMBLY_TIMEOUT_NANOS: u128 = 60_000_000_000;

/// The chunks of a request that have arrived.
#[derive(Debug)]
pub struct PendingAssembly {
    chunks: HashMap<u32, Vec<u8>>,
    total_chunks: u32,
    duration_ms: u64,
    last_update: u128,
    compression: CompressionFormat,
}

/// What an assembly is: the chunks by their index, what the first chunk said of the request, and
/// when the latest chunk came, in nanoseconds on the server's clock.
#[verifier::ext_equal]
pub struct AssemblyView {
    pub chunks: Map<u32, Seq<u8>>,
    pub total_chunks: u32,
    pub duration_ms: u64,
    pub last_update: u128,
    pub compression: CompressionFormat,
}

impl AssemblyView {
    /// An assembly that no chunk has been put into yet.
    pub open spec fn started(
        total_chunks: u32,
        duration_ms: u64,
        compression: CompressionFormat,
        now: u128,
    ) -> AssemblyView {
        AssemblyView {
            chunks: Map::empty(),
            total_chunks,
            duration_ms,
            last_update: now,
            compression,
        }
    }

    /// The assembly with one more chunk. A chunk that came before under the same index is replaced.
    pub open spec fn with_chunk(self, index: u32, data: Seq<u8>, now: u128) -> AssemblyView {
        AssemblyView { chunks: self.chunks.insert(index, data), last_update: now, ..self }
    }

    /// As many chunks have come as the request has.
    pub open spec fn is_full(self) -> bool {
        self.chunks.dom().len() == self.total_chunks
    }

    /// The indices below `n` are all there.
    pub open spec fn holds_below(self, n: u32) -> bool {
        forall|i: u32| i < n ==> self.chunks.contains_key(i)
    }

    /// The first `n` chunks in the order of their indices.
    pub open spec fn ordered(self, n: nat) -> Seq<Seq<u8>> {
        Seq::new(n, |i: int| self.chunks[i as u32])
    }

    /// What stands to be done: wait, or report the first chunk that is missing though as many
    /// chunks have come as the request has, or go on with the whole.
    pub open spec fn status(self) -> StatusView {
        if !self.is_full() {
            StatusView::Waiting
        } else if self.holds_below(self.total_chunks) {
            StatusView::Whole(join(self.ordered(self.total_chunks as nat)))
        } else {
            StatusView::Missing(self.first_missing())
        }
    }

    /// The lowest index that is not there.
    pub open spec fn first_missing(self) -> u32 {
        choose|i: u32| self.holds_below(i) && !#[trigger] self.chunks.contains_key(i)
    }

    /// The latest chunk came less than the timeout before `now`.
    pub open spec fn is_fresh(self, now: u128) -> bool {
        now < self.last_update + ASSEMBLY_TIMEOUT_NANOS
    }
}

/// The status of an assembly as mathematics.
#[verifier::ext_equal]
pub enum StatusView {
    Waiting,
    Missing(u32),
    Whole(Seq<u8>),
}

/// The status of an assembly.
#[derive(Debug)]
pub enum AssemblyStatus {
    /// Chunks are still to come.
    Waiting,
    /// As many chunks have come as the request has, but this one is not among them.
    Missing(u32),
    /// All chunks are there; this is what they hold.
    Whole(Vec<u8>),
}

impl View for AssemblyStatus {
    type V = StatusView;

    open spec fn view(&self) -> StatusView {
        match *self {
            AssemblyStatus::Waiting => StatusView::Waiting,
            AssemblyStatus::Missing(i) => StatusView::Missing(i),
            AssemblyStatus::Whole(data) => StatusView::Whole(data@),
        }
    }
}

/// Two lowest missing indices are the same.
proof fn lemma_first_missing_unique(assembly: AssemblyView, i: u32)
    requires
        assembly.holds_below(i),
        !assembly.chunks.contains_key(i),
    ensures
        assembly.first_missing() == i,
{
    let j = assembly.first_missing();
    assert(assembly.holds_below(j) && !assembly.chunks.contains_key(j));
}

impl View for PendingAssembly {
    type V = AssemblyView;

    closed spec fn view(&self) -> AssemblyView {
        AssemblyView {
            chunks: self.chunks@.map_values(|data: Vec<u8>| data@),
            total_chunks: self.total_chunks,
            duration_ms: self.duration_ms,
            last_update: self.last_update,
            compression: self.compression,
        }
    }
}

impl PendingAssembly {
    /// An assembly that no chunk has been put into yet.
    pub fn start(
        total_chunks: u32,
        duration_ms: u64,
        compression: CompressionFormat,
        now: u128,
    ) -> (assembly: PendingAssembly)
        ensures
            assembly@ == AssemblyView::started(total_chunks, duration_ms, compression, now),
    {
        let assembly = PendingAssembly {
            chunks: HashMap::new(),
            total_chunks,
            duration_ms,
            last_update: now,
            compression,
        };
        assert(assembly@.chunks =~= Map::<u32, Seq<u8>>::empty());
        assembly
    }

    /// Puts a chunk in its place.
    pub fn put(&mut self, index: u32, data: Vec<u8>, now: u128)
        ensures
            final(self)@ == old(self)@.with_chunk(index, data@, now),
    {
        self.chunks.insert(index, data);
        self.last_update = now;
        assert(self@.chunks =~= old(self)@.chunks.insert(index, data@));
    }

    /// Whether the audio is whole, and the audio if it is.
    pub fn status(&self) -> (status: AssemblyStatus)
        ensures
            status@ == self@.status(),
    {
        assert(self.chunks@.dom() =~= self@.chunks.dom());
        if self.chunks.len() as u64 != self.total_chunks as u64 {
            return AssemblyStatus::Waiting;
        }
        let mut whole: Vec<u8> = Vec::new();
        let mut i: u32 = 0;
        assert(self@.ordered(0) =~= Seq::<Seq<u8>>::empty());
        while i < self.total_chunks
            invariant
                i <= self.total_chunks,
                self@.is_full(),
                self@.holds_below(i),
                whole@ == join(self@.ordered(i as nat)),
            decreases self.total_chunks - i,
        {
            match self.chunks.get(&i) {
                Some(data) => {
                    let ghost before = whole@;
                    whole.extend_from_slice(data.as_slice());
                    assert(whole@ =~= before + data@);
                    let ghost next = self@.ordered((i + 1) as nat);
                    assert(next.drop_last() =~= self@.ordered(i as nat));
                    assert(next.last() == self@.chunks[i]);
                    assert(self@.chunks[i] == data@);
                    assert(self@.chunks.contains_key(i));
                },
                None => {
                    assert(!self@.chunks.contains_key(i));
                    proof {
                        lemma_first_missing_unique(self@, i);
                    }
                    return AssemblyStatus::Missing(i);
                },
            }
            i = i + 1;
        }
        AssemblyStatus::Whole(whole)
    }

    /// How long the recording is.
    pub fn duration_ms(&self) -> (ms: u64)
        ensures
            ms == self@.duration_ms,
    {
        self.duration_ms
    }

    /// How the audio is compressed.
    pub fn compression(&self) -> (compression: CompressionFormat)
        ensures
            compression == self@.compression,
    {
        self.compression
    }

    /// Whether the latest chunk came less than the timeout before `now`.
    pub fn is_fresh(&self, now: u128) -> (fresh: bool)
        ensures
            fresh == self@.is_fresh(now),
    {
        now <= self.last_update || now - self.last_update < ASSEMBLY_TIMEOUT_NANOS
    }
}

/// A new assembly holds no chunk, and keeps what the first chunk says of the request.
pub proof fn law_new_assembly_is_empty(
    total_chunks: u32,
    duration_ms: u64,
    compression: CompressionFormat,
    now: u128,
)
    ensures
        ({
            let new = AssemblyView::started(total_chunks, duration_ms, compression, now);
            &&& forall|i: u32| !#[trigger] new.chunks.contains_key(i)
            &&& new.total_chunks == total_chunks
            &&& new.duration_ms == duration_ms
            &&& new.last_update == now
            &&& new.compression == compression
        }),
{
}

/// A chunk is kept as it came, whole and under its own index. It displaces no chunk of another
/// index, and changes of the rest only when the latest chunk came.
pub proof fn law_chunk_is_kept_whole(assembly: AssemblyView, index: u32, data: Seq<u8>, now: u128)
    ensures
        ({
            let after = assembly.with_chunk(index, data, now);
            &&& forall|i: u32| #[trigger]
                after.chunks.contains_key(i) <==> i == index || assembly.chunks.contains_key(i)
            &&& after.chunks[index] == data
            &&& forall|i: u32|
                i != index ==> #[trigger] after.chunks[i] == assembly.chunks[i]
            &&& after.total_chunks == assembly.total_chunks
            &&& after.duration_ms == assembly.duration_ms
            &&& after.last_update == now
            &&& after.compression == assembly.compression
        }),
{
}

/// Where an index below `n` is missing, one of those missing is the lowest.
proof fn lemma_lowest_missing(assembly: AssemblyView, n: u32) -> (i: u32)
    requires
        !assembly.holds_below(n),
    ensures
        i < n,
        assembly.holds_below(i),
        !assembly.chunks.contains_key(i),
    decreases n,
{
    let m = (n - 1) as u32;
    if assembly.holds_below(m) {
        m
    } else {
        lemma_lowest_missing(assembly, m)
    }
}

/// The status tells what is there. Audio is waited for as long as the number of chunks is not the
/// one announced. With that number, the audio is either whole, and then it is the chunks in the
/// order of their indices, or the lowest index that is missing is named.
pub proof fn law_status_tells_what_is_there(assembly: AssemblyView)
    ensures
        match assembly.status() {
            StatusView::Waiting => assembly.chunks.dom().len() != assembly.total_chunks,
            StatusView::Missing(missing) => {
                &&& assembly.chunks.dom().len() == assembly.total_chunks
                &&& missing < assembly.total_chunks
                &&& !assembly.chunks.contains_key(missing)
                &&& forall|i: u32| i < missing ==> #[trigger] assembly.chunks.contains_key(i)
            },
            StatusView::Whole(data) => {
                &&& assembly.chunks.dom().len() == assembly.total_chunks
                &&& forall|i: u32|
                    i < assembly.total_chunks ==> #[trigger] assembly.chunks.contains_key(i)
                &&& data == join(
                    Seq::new(assembly.total_chunks as nat, |i: int| assembly.chunks[i as u32]),
                )
            },
        },
{
    if assembly.is_full() && !assembly.holds_below(assembly.total_chunks) {
        let i = lemma_lowest_missing(assembly, assembly.total_chunks);
        lemma_first_missing_unique(assembly, i);
    }
    assert(assembly.ordered(assembly.total_chunks as nat) =~= Seq::new(
        assembly.total_chunks as nat,
        |i: int| assembly.chunks[i as u32],
    ));
}

/// An assembly is fresh for sixty seconds after its latest chunk, and not longer.
pub proof fn law_fresh_for_sixty_seconds(assembly: AssemblyView, now: u128)
    ensures
        assembly.is_fresh(now) <==> now - assembly.last_update < 60_000_000_000,
{
}

/// The outcome of looking at an assembly is shown as it is.
pub proof fn law_status_is_shown(status: AssemblyStatus)
    ensures
        match status {
            AssemblyStatus::Waiting => status@ is Waiting,
            AssemblyStatus::Missing(i) => status@ == StatusView::Missing(i),
            AssemblyStatus::Whole(data) => status@ == StatusView::Whole(data@),
        },
{
}

} // verus!
