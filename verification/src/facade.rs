//! The outward face of the buffer: the backend is chosen at construction
//! and every operation forwards to it.

use vstd::prelude::*;
use crate::buffer::{EnvelopeBuffer, Peek};
use crate::envelope::Envelope;
use crate::error::EnvelopeBufferError;
use crate::keys::{ProjectKey, ProjectKeyPair};
use crate::provider::{MemoryStackProvider, StackProvider};

verus! {

/// The polymorphic envelope buffer: a tagged choice among backends, made
/// once when the partition is configured. This build carries the in-memory
/// backend; a disk-backed one would stand beside it as a second variant,
/// owning its store.
pub enum PolymorphicEnvelopeBuffer {
    /// An envelope buffer that keeps every stack in RAM.
    InMemory(EnvelopeBuffer<MemoryStackProvider>),
}

impl PolymorphicEnvelopeBuffer {
    /// The buffer behind the façade.
    pub closed spec fn inner(&self) -> EnvelopeBuffer<MemoryStackProvider> {
        match self {
            PolymorphicEnvelopeBuffer::InMemory(b) => *b,
        }
    }

    pub open spec fn wf(&self) -> bool {
        self.inner().wf()
    }

    /// A memory-backed buffer for one partition; `has_capacity` is the
    /// caller's memory-pressure snapshot.
    pub fn in_memory(partition_id: u8, has_capacity: bool) -> (b: PolymorphicEnvelopeBuffer)
        ensures
            b.wf(),
            b.inner().pair_count() == 0,
            b.inner().spec_tracked_count() == 0,
    {
        PolymorphicEnvelopeBuffer::InMemory(
            EnvelopeBuffer::new(partition_id, MemoryStackProvider::new(has_capacity)),
        )
    }

    /// True if the implementation stores all envelopes in RAM.
    pub fn is_memory(&self) -> (r: bool)
        ensures
            r,
    {
        match self {
            PolymorphicEnvelopeBuffer::InMemory(_) => true,
        }
    }

    /// Initializes the envelope buffer before first use. The in-memory
    /// backend cannot fail here.
    pub fn initialize(&mut self) -> (r: Result<(), EnvelopeBufferError>)
        requires
            old(self).wf(),
        ensures
            final(self).wf(),
            r is Ok,
            final(self).inner().spec_tracked_count() == old(self).inner().spec_tracked_count(),
            r is Ok ==> (final(self).inner().spec_total_count_initialized()
                ==> final(self).inner().spec_total_count() >= 0),
            r is Ok ==> (!final(self).inner().spec_total_count_initialized()
                ==> final(self).inner().spec_total_count() == 0),
            final(self).inner().spec_partition_id() == old(self).inner().spec_partition_id(),
    {
        match self {
            PolymorphicEnvelopeBuffer::InMemory(b) => b.initialize(),
        }
    }

    /// Adds an envelope to the buffer. The in-memory backend cannot fail
    /// here: its stacks declare themselves infallible.
    pub fn push(&mut self, envelope: Envelope) -> (r: Result<(), EnvelopeBufferError>)
        requires
            old(self).wf(),
        ensures
            final(self).wf(),
            r is Ok,
            match r {
                Ok(_) => EnvelopeBuffer::<MemoryStackProvider>::push_effect(
                    old(self).inner(),
                    final(self).inner(),
                    envelope,
                ),
                Err(_) => EnvelopeBuffer::<MemoryStackProvider>::all_preserved(
                    old(self).inner(),
                    final(self).inner(),
                ),
            },
    {
        match self {
            PolymorphicEnvelopeBuffer::InMemory(b) => b.push(envelope),
        }
    }

    /// A look at the next-in-line stack; idempotent, as the result is a
    /// function of the buffer value.
    pub fn peek(&self) -> (pk: Peek)
        requires
            self.wf(),
        ensures
            pk == self.inner().spec_peek(),
            EnvelopeBuffer::<MemoryStackProvider>::peek_matches(self.inner(), pk),
    {
        match self {
            PolymorphicEnvelopeBuffer::InMemory(b) => b.peek(),
        }
    }

    /// Pops the next-in-line envelope.
    #[verifier::rlimit(50)]
    pub fn pop(&mut self) -> (r: Result<Option<Envelope>, EnvelopeBufferError>)
        requires
            old(self).wf(),
        ensures
            final(self).wf(),
            r is Ok,
            old(self).inner().pair_count() == 0 ==> (r matches Ok(None)),
            match r {
                Ok(Some(envelope)) => exists|p: ProjectKeyPair| #[trigger]
                    EnvelopeBuffer::<MemoryStackProvider>::pop_effect(
                        old(self).inner(),
                        final(self).inner(),
                        p,
                        envelope,
                    ),
                Ok(None) => old(self).inner().pair_count() == 0,
                Err(_) => EnvelopeBuffer::<MemoryStackProvider>::all_preserved(
                    old(self).inner(),
                    final(self).inner(),
                ),
            },
    {
        let ghost mut pre_inner: EnvelopeBuffer<MemoryStackProvider> = old(self).inner();
        let ghost mut post_inner: EnvelopeBuffer<MemoryStackProvider> = old(self).inner();
        let ghost mut witness: ProjectKeyPair = vstd::pervasive::arbitrary();
        let r: Result<Option<Envelope>, EnvelopeBufferError>;
        match self {
            PolymorphicEnvelopeBuffer::InMemory(b) => {
                proof {
                    pre_inner = *b;
                }
                r = b.pop();
                proof {
                    post_inner = *b;
                    match r {
                        Ok(Some(envelope)) => {
                            witness = choose|p: ProjectKeyPair| #[trigger]
                                EnvelopeBuffer::<MemoryStackProvider>::pop_effect(
                                    pre_inner,
                                    post_inner,
                                    p,
                                    envelope,
                                );
                            assert(EnvelopeBuffer::<MemoryStackProvider>::pop_effect(
                                pre_inner,
                                post_inner,
                                witness,
                                envelope,
                            ));
                        },
                        _ => {},
                    }
                }
            },
        }
        proof {
            assert(pre_inner == old(self).inner());
            assert(post_inner == self.inner());
            match r {
                Ok(Some(envelope)) => {
                    assert(EnvelopeBuffer::<MemoryStackProvider>::pop_effect(
                        old(self).inner(),
                        self.inner(),
                        witness,
                        envelope,
                    ));
                },
                _ => {},
            }
        }
        r
    }

    /// Marks a project as ready or not ready; the buffer re-prioritizes its
    /// stacks accordingly. Returns `true` if at least one priority changed.
    pub fn mark_ready(&mut self, project: &ProjectKey, is_ready: bool) -> (changed: bool)
        requires
            old(self).wf(),
        ensures
            final(self).wf(),
            changed == exists|q: ProjectKeyPair| #[trigger]
                EnvelopeBuffer::<MemoryStackProvider>::wants_flip(
                    old(self).inner(),
                    q,
                    *project,
                    is_ready,
                ),
            forall|q: ProjectKeyPair| #[trigger]
                old(self).inner().has_pair(q) ==> final(self).inner().prio_of(q)
                    == EnvelopeBuffer::<MemoryStackProvider>::readiness_toward(
                    old(self).inner().prio_of(q),
                    q,
                    *project,
                    is_ready,
                ),
            final(self).inner().spec_partition_id() == old(self).inner().spec_partition_id(),
    {
        match self {
            PolymorphicEnvelopeBuffer::InMemory(b) => b.mark_ready(project, is_ready),
        }
    }

    /// Marks a stack as seen, deprioritizing it for `next_fetch` nanoseconds
    /// so the next peek looks at a different stack.
    pub fn mark_seen(&mut self, project_key_pair: &ProjectKeyPair, next_fetch: u64)
        requires
            old(self).wf(),
        ensures
            final(self).wf(),
            forall|q: ProjectKeyPair|
                q != *project_key_pair && #[trigger] old(self).inner().has_pair(q)
                    ==> final(self).inner().prio_of(q) == old(self).inner().prio_of(q),
            old(self).inner().has_pair(*project_key_pair)
                ==> final(self).inner().prio_of(*project_key_pair).next_project_fetch
                    >= next_fetch,
            old(self).inner().has_pair(*project_key_pair) ==> (exists|at: u64|
                final(self).inner().prio_of(*project_key_pair).next_project_fetch
                    == #[trigger] EnvelopeBuffer::<MemoryStackProvider>::seen_deadline(
                    at,
                    next_fetch,
                )),
            final(self).inner().spec_partition_id() == old(self).inner().spec_partition_id(),
    {
        match self {
            PolymorphicEnvelopeBuffer::InMemory(b) => b.mark_seen(project_key_pair, next_fetch),
        }
    }

    /// Whether the buffer has capacity to accept new envelopes.
    pub fn has_capacity(&self) -> (r: bool)
        ensures
            r == self.inner().provider().spec_has_capacity(),
    {
        match self {
            PolymorphicEnvelopeBuffer::InMemory(b) => b.has_capacity(),
        }
    }

    /// The number of envelopes spooled since startup; what a persistent
    /// store held beforehand is not included.
    pub fn item_count(&self) -> (r: u64)
        ensures
            r == self.inner().spec_tracked_count(),
    {
        match self {
            PolymorphicEnvelopeBuffer::InMemory(b) => b.item_count(),
        }
    }

    /// The bytes the spooler storage uses, or `None` if that cannot be
    /// reliably determined — as for the in-memory backend.
    pub fn total_size(&self) -> (r: Option<u64>) {
        match self {
            PolymorphicEnvelopeBuffer::InMemory(b) => b.provider_total_size(),
        }
    }

    /// Shuts the buffer down. Only a disk-backed buffer flushes here: the
    /// in-memory backend keeps popping normally within the shutdown timeout
    /// instead, so this reports that no flush work was done.
    pub fn shutdown(&mut self) -> (r: bool)
        requires
            old(self).wf(),
        ensures
            final(self).wf(),
            match self {
                PolymorphicEnvelopeBuffer::InMemory(_) => !r,
            },
            EnvelopeBuffer::<MemoryStackProvider>::all_preserved(
                old(self).inner(),
                final(self).inner(),
            ),
    {
        match self {
            PolymorphicEnvelopeBuffer::InMemory(_) => false,
        }
    }

    /// The partition this buffer serves, for reporting purposes.
    pub fn partition_id(&self) -> (r: u8)
        ensures
            r == self.inner().spec_partition_id(),
    {
        match self {
            PolymorphicEnvelopeBuffer::InMemory(b) => b.partition_id(),
        }
    }
}

} // verus!
