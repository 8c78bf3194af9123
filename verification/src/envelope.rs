//! The unit of buffering: a timestamped payload belonging to a project.

use vstd::prelude::*;
use crate::keys::{ProjectKey, ProjectKeyPair};

verus! {

/// What the buffer reads of an envelope: its project keys, the time it was
/// received, and its body size (reported only for metrics). The payload
/// itself never enters the core.
#[derive(Clone, Copy, Debug)]
pub struct Envelope {
    pub own_project_key: ProjectKey,
    pub sampling_project_key: Option<ProjectKey>,
    pub received_at: i64,
    pub body_size: u64,
}

impl Envelope {
    pub fn new(
        own_project_key: ProjectKey,
        sampling_project_key: Option<ProjectKey>,
        received_at: i64,
        body_size: u64,
    ) -> (r: Envelope)
        ensures
            r == (Envelope { own_project_key, sampling_project_key, received_at, body_size }),
    {
        Envelope { own_project_key, sampling_project_key, received_at, body_size }
    }

    pub fn received_at(&self) -> (r: i64)
        ensures
            r == self.received_at,
    {
        self.received_at
    }
}

impl ProjectKeyPair {
    /// The stack an envelope is routed to: its own key paired with its
    /// sampling key, or with the own key again when no sampling key is set.
    pub open spec fn spec_from_envelope(e: Envelope) -> ProjectKeyPair {
        ProjectKeyPair {
            own_key: e.own_project_key,
            sampling_key: match e.sampling_project_key {
                Some(k) => k,
                None => e.own_project_key,
            },
        }
    }

    pub fn from_envelope(e: &Envelope) -> (r: ProjectKeyPair)
        ensures
            r == ProjectKeyPair::spec_from_envelope(*e),
    {
        let sampling = match e.sampling_project_key {
            Some(k) => k,
            None => e.own_project_key,
        };
        ProjectKeyPair { own_key: e.own_project_key, sampling_key: sampling }
    }
}

} // verus!
