//! Per-key-pair LIFO stacks of envelopes.

use vstd::prelude::*;
use crate::envelope::Envelope;
use crate::error::EnvelopeBufferError;

verus! {

/// A LIFO of envelopes sharing one project-key-pair. The in-memory variant
/// below never fails; a disk-backed variant may page envelopes in and out and
/// report storage errors, but a failed call must leave the logical contents
/// untouched, so that a call dropped at a suspension point keeps the stack
/// consistent.
pub trait EnvelopeStack: Sized {
    /// The envelopes in the stack, oldest first; the last is the top.
    spec fn contents(&self) -> Seq<Envelope>;

    /// Whether this stack variant can fail at all: true of the in-memory
    /// stack, false of one that touches storage. A variant that declares
    /// itself infallible owes success on every operation.
    spec fn spec_infallible() -> bool;

    /// Appends an envelope at the top.
    fn push(&mut self, envelope: Envelope) -> (r: Result<(), EnvelopeBufferError>)
        ensures
            Self::spec_infallible() ==> r is Ok,
            r is Ok ==> final(self).contents() == old(self).contents().push(envelope),
            r is Err ==> final(self).contents() == old(self).contents(),
    ;

    /// The received-at of the envelope the next pop would return, without
    /// removing it. Takes the stack mutably because a disk-backed variant may
    /// page a batch into its head, but the logical contents do not change.
    fn peek(&mut self) -> (r: Result<Option<i64>, EnvelopeBufferError>)
        ensures
            Self::spec_infallible() ==> r is Ok,
            final(self).contents() == old(self).contents(),
            match r {
                Ok(Some(t)) => old(self).contents().len() > 0
                    && t == old(self).contents().last().received_at,
                Ok(None) => old(self).contents().len() == 0,
                Err(_) => true,
            },
    ;

    /// Removes and returns the top envelope, together with the received-at of
    /// the envelope now on top (`None` once the stack is empty). Reporting
    /// the new top in the same step lets a storage failure leave the stack
    /// untouched instead of stranding a half-finished removal.
    fn pop(&mut self) -> (r: Result<Option<(Envelope, Option<i64>)>, EnvelopeBufferError>)
        ensures
            Self::spec_infallible() ==> r is Ok,
            match r {
                Ok(Some(p)) => {
                    &&& old(self).contents().len() > 0
                    &&& p.0 == old(self).contents().last()
                    &&& final(self).contents() == old(self).contents().drop_last()
                    &&& match p.1 {
                        Some(t) => final(self).contents().len() > 0
                            && t == final(self).contents().last().received_at,
                        None => final(self).contents().len() == 0,
                    }
                },
                Ok(None) => old(self).contents().len() == 0
                    && final(self).contents() == old(self).contents(),
                Err(_) => final(self).contents() == old(self).contents(),
            },
    ;
}

/// Envelopes pushed onto one stack come back newest first: after `e1` then
/// `e2` go on, the next pop yields `e2`, and the pop after that `e1`. This
/// is the LIFO law every stack variant's contract enforces.
pub proof fn lemma_stack_order(s: Seq<Envelope>, e1: Envelope, e2: Envelope)
    ensures
        s.push(e1).push(e2).last() == e2,
        s.push(e1).push(e2).drop_last() == s.push(e1),
        s.push(e1).last() == e1,
{
    assert(s.push(e1).push(e2).drop_last() =~= s.push(e1));
}

/// The in-memory stack: a growable vector, newest envelope last.
pub struct MemoryEnvelopeStack {
    envelopes: Vec<Envelope>,
}

impl MemoryEnvelopeStack {
    pub fn new() -> (r: MemoryEnvelopeStack)
        ensures
            r.contents().len() == 0,
    {
        MemoryEnvelopeStack { envelopes: Vec::new() }
    }
}

impl EnvelopeStack for MemoryEnvelopeStack {
    closed spec fn contents(&self) -> Seq<Envelope> {
        self.envelopes@
    }

    open spec fn spec_infallible() -> bool {
        true
    }

    fn push(&mut self, envelope: Envelope) -> (r: Result<(), EnvelopeBufferError>) {
        self.envelopes.push(envelope);
        Ok(())
    }

    fn peek(&mut self) -> (r: Result<Option<i64>, EnvelopeBufferError>) {
        if self.envelopes.len() > 0 {
            Ok(Some(self.envelopes[self.envelopes.len() - 1].received_at))
        } else {
            Ok(None)
        }
    }

    fn pop(&mut self) -> (r: Result<Option<(Envelope, Option<i64>)>, EnvelopeBufferError>) {
        match self.envelopes.pop() {
            Some(envelope) => {
                let next = if self.envelopes.len() > 0 {
                    Some(self.envelopes[self.envelopes.len() - 1].received_at)
                } else {
                    None
                };
                Ok(Some((envelope, next)))
            },
            None => Ok(None),
        }
    }
}

} // verus!
