//! Factories and lifecycle owners for envelope stacks.

use vstd::prelude::*;
use crate::envelope::Envelope;
use crate::keys::ProjectKeyPair;
use crate::stack::{EnvelopeStack, MemoryEnvelopeStack};

verus! {

/// Why a stack is being created: for a newly arrived envelope, or at startup
/// for a key pair whose envelopes survived a restart in the store.
#[derive(Clone, Copy, PartialEq, Eq, Debug, Structural)]
pub enum StackCreationType {
    New,
    Initialization,
}

/// Creates and drains the stacks of one backend. The in-memory provider below
/// has no store; a disk-backed provider re-materializes stacks from its store
/// at startup and persists them at shutdown.
pub trait StackProvider: Sized {
    type Stack: EnvelopeStack;

    /// Whether new envelopes may currently be admitted.
    spec fn spec_has_capacity(&self) -> bool;

    /// The key pairs whose envelopes survived a restart and must be
    /// re-materialized as stacks; empty for a storeless backend.
    fn initialize(&mut self) -> (r: Vec<ProjectKeyPair>);

    /// A stack for `pair`. A `New` stack is empty; an `Initialization` stack
    /// carries whatever the store still holds for the pair, every envelope of
    /// which belongs to `pair`.
    fn create_stack(&mut self, creation_type: StackCreationType, pair: ProjectKeyPair) -> (s:
        Self::Stack)
        ensures
            creation_type == StackCreationType::New ==> s.contents().len() == 0,
            forall|i: int|
                0 <= i < s.contents().len() ==> ProjectKeyPair::spec_from_envelope(
                    #[trigger] s.contents()[i],
                ) == pair,
    ;

    fn has_store_capacity(&self) -> (r: bool)
        ensures
            r == self.spec_has_capacity(),
    ;

    /// A best-effort count of the envelopes surviving in the store, or `None`
    /// when it cannot be produced in bounded time.
    fn store_total_count(&mut self) -> (r: Option<u64>);

    /// The bytes the backend's storage uses, if computable.
    fn total_size(&self) -> (r: Option<u64>);

    /// Hands every remaining stack to the backend at shutdown, to be drained
    /// to durable storage where one exists.
    fn flush(&mut self, stacks: Vec<Self::Stack>);

    /// A short tag for telemetry.
    fn stack_type(&self) -> (r: &'static str);
}

/// The storeless provider: stacks live in RAM, capacity follows a memory
/// pressure snapshot taken by the caller, and nothing survives a restart.
pub struct MemoryStackProvider {
    has_capacity: bool,
}

impl MemoryStackProvider {
    /// `has_capacity` is the caller's memory-pressure snapshot: whether the
    /// process may take on more envelopes.
    pub fn new(has_capacity: bool) -> (r: MemoryStackProvider)
        ensures
            r.spec_has_capacity() == has_capacity,
    {
        MemoryStackProvider { has_capacity }
    }
}

impl StackProvider for MemoryStackProvider {
    type Stack = MemoryEnvelopeStack;

    closed spec fn spec_has_capacity(&self) -> bool {
        self.has_capacity
    }

    fn initialize(&mut self) -> (r: Vec<ProjectKeyPair>) {
        Vec::new()
    }

    fn create_stack(&mut self, creation_type: StackCreationType, pair: ProjectKeyPair) -> (s:
        Self::Stack) {
        MemoryEnvelopeStack::new()
    }

    fn has_store_capacity(&self) -> (r: bool) {
        self.has_capacity
    }

    fn store_total_count(&mut self) -> (r: Option<u64>) {
        Some(0)
    }

    fn total_size(&self) -> (r: Option<u64>) {
        None
    }

    fn flush(&mut self, stacks: Vec<Self::Stack>) {
    }

    fn stack_type(&self) -> (r: &'static str) {
        "memory"
    }
}

} // verus!
