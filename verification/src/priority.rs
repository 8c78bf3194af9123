//! The scheduling priority of an envelope stack and its total order.
//!
//! A stack whose two projects both have fresh configuration is "ready"; ready
//! stacks are served newest-first. Any ready stack outranks every not-ready
//! stack. Among not-ready stacks the order is inverted — earliest next fetch
//! and oldest traffic first — so that stacks just deferred by the consumer do
//! not block the head of the line.

use vstd::prelude::*;

verus! {

/// Whether each project of a stack's key pair has up-to-date configuration.
#[derive(Clone, Copy, PartialEq, Eq, Debug, Structural)]
pub struct Readiness {
    pub own_project_ready: bool,
    pub sampling_project_ready: bool,
}

impl Readiness {
    /// A new stack starts optimistically ready: most stacks are re-created
    /// right after draining, when the projects' configuration is still fresh.
    pub fn new() -> (r: Readiness)
        ensures
            r.own_project_ready,
            r.sampling_project_ready,
    {
        Readiness { own_project_ready: true, sampling_project_ready: true }
    }

    /// True if both projects are ready.
    pub open spec fn spec_ready(&self) -> bool {
        self.own_project_ready && self.sampling_project_ready
    }

    #[verifier::when_used_as_spec(spec_ready)]
    pub fn ready(&self) -> (r: bool)
        ensures
            r == self.spec_ready(),
    {
        self.own_project_ready && self.sampling_project_ready
    }
}

/// The priority of a stack: its readiness, the received-at timestamp of its
/// top envelope, and the instant before which the consumer should not trigger
/// another configuration fetch for it.
#[derive(Clone, Copy, Debug)]
pub struct Priority {
    pub readiness: Readiness,
    pub received_at: i64,
    pub next_project_fetch: u64,
}

/// `a` ranks no higher than `b`: ready stacks outrank not-ready ones; among
/// ready stacks newer traffic wins; among not-ready stacks the later next
/// fetch loses, then the newer traffic loses.
pub open spec fn prio_le(a: Priority, b: Priority) -> bool {
    if a.readiness.spec_ready() && b.readiness.spec_ready() {
        a.received_at <= b.received_at
    } else if b.readiness.spec_ready() {
        true
    } else if a.readiness.spec_ready() {
        false
    } else {
        a.next_project_fetch > b.next_project_fetch || (a.next_project_fetch
            == b.next_project_fetch && a.received_at >= b.received_at)
    }
}

/// `a` and `b` rank equally: the fields the order consults are equal.
pub open spec fn prio_eq(a: Priority, b: Priority) -> bool {
    if a.readiness.spec_ready() && b.readiness.spec_ready() {
        a.received_at == b.received_at
    } else if a.readiness.spec_ready() || b.readiness.spec_ready() {
        false
    } else {
        a.next_project_fetch == b.next_project_fetch && a.received_at == b.received_at
    }
}

impl Priority {
    /// A fresh priority for a stack whose top envelope arrived at
    /// `received_at`: optimistically ready, fetch debounce starting now.
    pub fn new(received_at: i64) -> (p: Priority)
        ensures
            p.readiness.own_project_ready,
            p.readiness.sampling_project_ready,
            p.received_at == received_at,
    {
        Priority {
            readiness: Readiness::new(),
            received_at,
            next_project_fetch: crate::clock::current_instant(),
        }
    }

    /// The total order among priorities; the greatest is served next.
    pub fn cmp(&self, other: &Priority) -> (r: core::cmp::Ordering)
        ensures
            (r == core::cmp::Ordering::Equal) == prio_eq(*self, *other),
            (r == core::cmp::Ordering::Less) == (prio_le(*self, *other) && !prio_eq(
                *self,
                *other,
            )),
            (r == core::cmp::Ordering::Greater) == !prio_le(*self, *other),
    {
        let a_ready = self.readiness.ready();
        let b_ready = other.readiness.ready();
        if a_ready && b_ready {
            if self.received_at < other.received_at {
                core::cmp::Ordering::Less
            } else if self.received_at == other.received_at {
                core::cmp::Ordering::Equal
            } else {
                core::cmp::Ordering::Greater
            }
        } else if a_ready {
            core::cmp::Ordering::Greater
        } else if b_ready {
            core::cmp::Ordering::Less
        } else {
            if self.next_project_fetch > other.next_project_fetch {
                core::cmp::Ordering::Less
            } else if self.next_project_fetch < other.next_project_fetch {
                core::cmp::Ordering::Greater
            } else if self.received_at > other.received_at {
                core::cmp::Ordering::Less
            } else if self.received_at < other.received_at {
                core::cmp::Ordering::Greater
            } else {
                core::cmp::Ordering::Equal
            }
        }
    }
}

impl PartialEq for Priority {
    fn eq(&self, other: &Priority) -> (r: bool) {
        matches!(self.cmp(other), core::cmp::Ordering::Equal)
    }
}

impl vstd::std_specs::cmp::PartialEqSpecImpl for Priority {
    open spec fn obeys_eq_spec() -> bool {
        true
    }

    open spec fn eq_spec(&self, other: &Priority) -> bool {
        prio_eq(*self, *other)
    }
}

/// The order is total: any two priorities compare.
pub proof fn lemma_prio_order_total(a: Priority, b: Priority)
    ensures
        prio_le(a, b) || prio_le(b, a),
        prio_le(a, b) && prio_le(b, a) ==> prio_eq(a, b),
        prio_eq(a, b) ==> prio_le(a, b) && prio_le(b, a),
{
}

/// The order is transitive.
pub proof fn lemma_prio_order_transitive(a: Priority, b: Priority, c: Priority)
    ensures
        prio_le(a, b) && prio_le(b, c) ==> prio_le(a, c),
{
}

/// A timestamp shifted into the unsigned range, preserving order.
pub open spec fn enc_time(t: i64) -> u64 {
    (t + 0x8000000000000000) as u64
}

/// A priority as a triple whose lexicographic order — `false` below `true`,
/// numbers in their usual order — agrees with `prio_le`. This is the shape
/// handed to the trusted priority queue.
pub open spec fn enc_prio(p: Priority) -> (bool, u64, u64) {
    if p.readiness.spec_ready() {
        (true, enc_time(p.received_at), 0u64)
    } else {
        (
            false,
            (u64::MAX - p.next_project_fetch) as u64,
            (u64::MAX - enc_time(p.received_at)) as u64,
        )
    }
}

/// The lexicographic order on encoded priorities, as std orders tuples of
/// `bool` and `u64`.
pub open spec fn tup_le(a: (bool, u64, u64), b: (bool, u64, u64)) -> bool {
    (!a.0 && b.0) || (a.0 == b.0 && (a.1 < b.1 || (a.1 == b.1 && a.2 <= b.2)))
}

/// Encoding preserves the order and its ties exactly.
pub proof fn lemma_enc_prio_order(a: Priority, b: Priority)
    ensures
        prio_le(a, b) <==> tup_le(enc_prio(a), enc_prio(b)),
        prio_eq(a, b) <==> enc_prio(a) == enc_prio(b),
{
}

/// The executable encoding of a priority.
pub fn encode_priority(p: &Priority) -> (r: (bool, u64, u64))
    ensures
        r == enc_prio(*p),
{
    let shifted: u64 = ((p.received_at as i128) + 0x8000000000000000i128) as u64;
    if p.readiness.ready() {
        (true, shifted, 0u64)
    } else {
        (false, u64::MAX - p.next_project_fetch, u64::MAX - shifted)
    }
}

} // verus!
