//! The scheduler: one envelope stack per project-key-pair, multiplexed
//! through a priority queue, with a reverse index from single project keys
//! to the pairs they participate in.

use vstd::prelude::*;
use crate::envelope::Envelope;
use crate::error::EnvelopeBufferError;
use crate::index::{ProjectIndex, index_pairs};
use crate::keys::{ProjectKey, ProjectKeyPair};
use crate::pq::{
    PairPriorityQueue, queue_entries, queue_new, queue_push, queue_change_priority, queue_remove,
    queue_peek, queue_top,
};
use crate::priority::{
    Priority, Readiness, prio_le, enc_prio, encode_priority, lemma_enc_prio_order,
};
use crate::provider::{StackProvider, StackCreationType};
use crate::stack::EnvelopeStack;

verus! {

/// One scheduled stack: its identity, its priority, and the envelopes.
struct Entry<S> {
    pair: ProjectKeyPair,
    priority: Priority,
    stack: S,
}

/// An envelope buffer holding an individual stack for each combination of
/// own and sampling project key. Stacks are re-prioritized every time an
/// envelope is pushed or popped and when a project's readiness changes.
pub struct EnvelopeBuffer<P: StackProvider> {
    /// The stacks, one per key pair, in no particular order.
    entries: Vec<Entry<P::Stack>>,
    /// The central priority queue, mirroring `entries`: one item per pair,
    /// keyed by the encoded pair, carrying the encoded priority.
    priority_queue: PairPriorityQueue,
    /// A lookup table to find all stacks involving a project.
    stacks_by_project: ProjectIndex,
    /// Creates stacks and owns the backend's store, if any.
    stack_provider: P,
    /// Envelopes this buffer works with, counting what the store reported at
    /// startup; best-effort, may go negative when that report was short.
    total_count: i64,
    /// Envelopes this process itself has buffered; saturates at zero.
    tracked_count: u64,
    /// Whether the startup count report arrived in time.
    total_count_initialized: bool,
    /// The partition this buffer serves, for reporting purposes.
    partition_id: u8,
}

/// What a look at the next-in-line stack reveals.
pub enum Peek {
    /// No envelopes are buffered.
    Empty,
    /// The top stack's projects both have fresh configuration; `pop` would
    /// yield its top envelope, received at `last_received_at`.
    Ready { project_key_pair: ProjectKeyPair, last_received_at: i64 },
    /// At least one project of the top stack awaits configuration; the
    /// consumer should not trigger another fetch before `next_project_fetch`.
    NotReady { project_key_pair: ProjectKeyPair, next_project_fetch: u64, last_received_at: i64 },
}

impl Peek {
    /// The received-at a peek reveals, if it reveals a stack.
    pub open spec fn spec_last_received_at(self) -> Option<i64> {
        match self {
            Peek::Empty => None,
            Peek::Ready { last_received_at, .. } => Some(last_received_at),
            Peek::NotReady { last_received_at, .. } => Some(last_received_at),
        }
    }

    /// The fetch deadline a peek reveals, if the stack is not ready.
    pub open spec fn spec_next_project_fetch(self) -> Option<u64> {
        match self {
            Peek::NotReady { next_project_fetch, .. } => Some(next_project_fetch),
            _ => None,
        }
    }

    pub fn last_received_at(&self) -> (r: Option<i64>)
        ensures
            r == match *self {
                Peek::Empty => None::<i64>,
                Peek::Ready { last_received_at, .. } => Some(last_received_at),
                Peek::NotReady { last_received_at, .. } => Some(last_received_at),
            },
    {
        match self {
            Peek::Empty => None,
            Peek::Ready { last_received_at, .. } => Some(*last_received_at),
            Peek::NotReady { last_received_at, .. } => Some(*last_received_at),
        }
    }
}

impl<P: StackProvider> EnvelopeBuffer<P> {
    /// How many stacks are buffered.
    pub closed spec fn pair_count(&self) -> nat {
        self.entries@.len()
    }

    /// Whether a stack for `p` is buffered.
    pub closed spec fn has_pair(&self, p: ProjectKeyPair) -> bool {
        exists|i: int| 0 <= i < self.entries@.len() && self.entries@[i].pair == p
    }

    spec fn index_of_pair(&self, p: ProjectKeyPair) -> int {
        choose|i: int| 0 <= i < self.entries@.len() && self.entries@[i].pair == p
    }

    /// The envelopes of `p`'s stack, oldest first.
    pub closed spec fn contents_of(&self, p: ProjectKeyPair) -> Seq<Envelope> {
        self.entries@[self.index_of_pair(p)].stack.contents()
    }

    /// The priority of `p`'s stack.
    pub closed spec fn prio_of(&self, p: ProjectKeyPair) -> Priority {
        self.entries@[self.index_of_pair(p)].priority
    }

    /// Whether the reverse index lists `k` at all — possibly with an
    /// emptied set, which removals leave behind.
    pub closed spec fn index_has_key(&self, k: ProjectKey) -> bool {
        index_pairs(self.stacks_by_project).dom().contains(k.value)
    }

    /// Whether the reverse index lists `p` under `k`.
    pub closed spec fn in_index(&self, k: ProjectKey, p: ProjectKeyPair) -> bool {
        index_pairs(self.stacks_by_project).dom().contains(k.value) && index_pairs(
            self.stacks_by_project,
        )[k.value].contains(p.spec_encoded())
    }

    pub closed spec fn spec_tracked_count(&self) -> u64 {
        self.tracked_count
    }

    pub closed spec fn spec_total_count(&self) -> i64 {
        self.total_count
    }

    pub closed spec fn spec_total_count_initialized(&self) -> bool {
        self.total_count_initialized
    }

    pub closed spec fn provider(&self) -> P {
        self.stack_provider
    }

    pub closed spec fn spec_partition_id(&self) -> u8 {
        self.partition_id
    }

    spec fn pairs_distinct(&self) -> bool {
        forall|i: int, j: int|
            0 <= i < j < self.entries@.len() ==> (#[trigger] self.entries@[i].pair) != (
            #[trigger] self.entries@[j].pair)
    }

    spec fn wf_entries(&self) -> bool {
        &&& self.pairs_distinct()
        &&& forall|i: int|
            0 <= i < self.entries@.len() ==> (#[trigger] self.entries@[i].stack.contents()).len()
                > 0
        &&& forall|i: int, e: int|
            0 <= i < self.entries@.len() && 0 <= e < self.entries@[i].stack.contents().len()
                ==> ProjectKeyPair::spec_from_envelope(
                #[trigger] self.entries@[i].stack.contents()[e],
            ) == self.entries@[i].pair
        &&& forall|i: int|
            0 <= i < self.entries@.len() ==> (#[trigger] self.entries@[i].priority).received_at
                == self.entries@[i].stack.contents().last().received_at
    }

    spec fn wf_queue(&self) -> bool {
        &&& forall|i: int|
            0 <= i < self.entries@.len() ==> queue_entries(self.priority_queue).contains_pair(
                (#[trigger] self.entries@[i].pair).spec_encoded(),
                enc_prio(self.entries@[i].priority),
            )
        &&& forall|ip: (u128, u128)| #[trigger]
            queue_entries(self.priority_queue).dom().contains(ip) ==> exists|i: int|
                0 <= i < self.entries@.len() && (#[trigger] self.entries@[i].pair).spec_encoded()
                    == ip
    }

    spec fn wf_index(&self) -> bool {
        &&& index_pairs(self.stacks_by_project).dom().finite()
        &&& forall|i: int|
            0 <= i < self.entries@.len() ==> self.in_index(
                (#[trigger] self.entries@[i].pair).own_key,
                self.entries@[i].pair,
            ) && self.in_index(self.entries@[i].pair.sampling_key, self.entries@[i].pair)
        &&& forall|kv: u128, pe: (u128, u128)|
            index_pairs(self.stacks_by_project).dom().contains(kv) && #[trigger] index_pairs(
                self.stacks_by_project,
            )[kv].contains(pe) ==> exists|i: int|
                0 <= i < self.entries@.len() && (#[trigger] self.entries@[i].pair).spec_encoded()
                    == pe && (self.entries@[i].pair.own_key.value == kv
                    || self.entries@[i].pair.sampling_key.value == kv)
    }

    /// The buffer's invariant: one entry per pair, no empty stack, every
    /// envelope on the stack of its own pair, every priority carrying its
    /// stack's top received-at, and queue and reverse index mirroring the
    /// entries exactly.
    pub closed spec fn wf(&self) -> bool {
        self.wf_entries() && self.wf_queue() && self.wf_index()
    }

    /// Accessors agree with the entry at `i`.
    proof fn lemma_at(&self, i: int)
        requires
            self.pairs_distinct(),
            0 <= i < self.entries@.len(),
        ensures
            self.has_pair(self.entries@[i].pair),
            self.index_of_pair(self.entries@[i].pair) == i,
            self.contents_of(self.entries@[i].pair) == self.entries@[i].stack.contents(),
            self.prio_of(self.entries@[i].pair) == self.entries@[i].priority,
    {
        let p = self.entries@[i].pair;
        assert(self.has_pair(p));
        let j = self.index_of_pair(p);
        if j < i {
            assert(false);
        } else if j > i {
            assert(false);
        }
    }

    /// Nothing observable differs between `pre` and `post`.
    pub open spec fn all_preserved(pre: Self, post: Self) -> bool {
        &&& post.spec_partition_id() == pre.spec_partition_id()
        &&& post.pair_count() == pre.pair_count()
        &&& forall|q: ProjectKeyPair| #[trigger] post.has_pair(q) == pre.has_pair(q)
        &&& forall|q: ProjectKeyPair| #[trigger]
            pre.has_pair(q) ==> post.contents_of(q) == pre.contents_of(q) && post.prio_of(q)
                == pre.prio_of(q)
        &&& Self::index_preserved(pre, post)
        &&& Self::counts_preserved(pre, post)
    }

    /// The reverse index is untouched: same memberships, same key set.
    pub open spec fn index_preserved(pre: Self, post: Self) -> bool {
        &&& forall|k: ProjectKey, q: ProjectKeyPair| #[trigger]
            post.in_index(k, q) == pre.in_index(k, q)
        &&& forall|k: ProjectKey| (#[trigger] post.index_has_key(k)) == pre.index_has_key(k)
    }

    /// All three counters are untouched.
    pub open spec fn counts_preserved(pre: Self, post: Self) -> bool {
        &&& post.spec_tracked_count() == pre.spec_tracked_count()
        &&& post.spec_total_count() == pre.spec_total_count()
        &&& post.spec_total_count_initialized() == pre.spec_total_count_initialized()
    }

    /// Every pair but `except` keeps its stack and priority.
    pub open spec fn others_preserved(pre: Self, post: Self, except: ProjectKeyPair) -> bool {
        &&& forall|q: ProjectKeyPair|
            q != except ==> (#[trigger] post.has_pair(q)) == pre.has_pair(q)
        &&& forall|q: ProjectKeyPair|
            q != except && #[trigger] pre.has_pair(q) ==> post.contents_of(q) == pre.contents_of(
                q,
            ) && post.prio_of(q) == pre.prio_of(q)
    }

    /// Everything the accessors and the invariant read agrees between two
    /// buffer values that share entries, queue and index — only the provider
    /// or the counters differ.
    proof fn lemma_core_eq(&self, o: Self)
        requires
            self.entries@ == o.entries@,
            self.priority_queue == o.priority_queue,
            self.stacks_by_project == o.stacks_by_project,
        ensures
            o.wf() ==> self.wf(),
            o.pairs_distinct() ==> self.pairs_distinct(),
            self.pair_count() == o.pair_count(),
            forall|q: ProjectKeyPair| (#[trigger] self.has_pair(q)) == o.has_pair(q),
            o.pairs_distinct() ==> (forall|q: ProjectKeyPair| #[trigger]
                o.has_pair(q) ==> self.contents_of(q) == o.contents_of(q) && self.prio_of(q)
                    == o.prio_of(q)),
            Self::index_preserved(o, *self),
    {
        assert forall|q: ProjectKeyPair| (#[trigger] self.has_pair(q)) == o.has_pair(q) by {
            if self.has_pair(q) {
                let j = choose|j: int|
                    0 <= j < self.entries@.len() && self.entries@[j].pair == q;
                assert(o.entries@[j].pair == q);
                assert(o.has_pair(q));
            }
            if o.has_pair(q) {
                let j = choose|j: int| 0 <= j < o.entries@.len() && o.entries@[j].pair == q;
                assert(self.entries@[j].pair == q);
                assert(self.has_pair(q));
            }
        }
        assert forall|k: ProjectKey, q: ProjectKeyPair| #[trigger]
            self.in_index(k, q) == o.in_index(k, q) by {}
        if o.pairs_distinct() {
            assert forall|a: int, b: int| 0 <= a < b < self.entries@.len() implies (
            #[trigger] self.entries@[a].pair) != (#[trigger] self.entries@[b].pair) by {
                assert(self.entries@[a] == o.entries@[a]);
                assert(self.entries@[b] == o.entries@[b]);
            }
            assert forall|q: ProjectKeyPair| #[trigger]
                o.has_pair(q) implies self.contents_of(q) == o.contents_of(q) && self.prio_of(q)
                == o.prio_of(q) by {
                let j = o.index_of_pair(q);
                o.lemma_at(j);
                assert(self.entries@[j].pair == q);
                self.lemma_at(j);
            }
        }
        if o.wf() {
            assert forall|i: int| 0 <= i < self.entries@.len() implies (
            #[trigger] self.entries@[i].stack.contents()).len() > 0 by {
                assert(self.entries@[i] == o.entries@[i]);
                assert(o.entries@[i].stack.contents().len() > 0);
            }
            assert forall|i: int, e: int|
                0 <= i < self.entries@.len() && 0 <= e < self.entries@[i].stack.contents().len()
                implies ProjectKeyPair::spec_from_envelope(
                #[trigger] self.entries@[i].stack.contents()[e],
            ) == self.entries@[i].pair by {
                assert(self.entries@[i] == o.entries@[i]);
                assert(ProjectKeyPair::spec_from_envelope(o.entries@[i].stack.contents()[e])
                    == o.entries@[i].pair);
            }
            assert forall|i: int| 0 <= i < self.entries@.len() implies (
            #[trigger] self.entries@[i].priority).received_at
                == self.entries@[i].stack.contents().last().received_at by {
                assert(self.entries@[i] == o.entries@[i]);
                assert(o.entries@[i].priority.received_at
                    == o.entries@[i].stack.contents().last().received_at);
            }
            assert forall|i: int| 0 <= i < self.entries@.len() implies queue_entries(
                self.priority_queue,
            ).contains_pair(
                (#[trigger] self.entries@[i].pair).spec_encoded(),
                enc_prio(self.entries@[i].priority),
            ) by {
                assert(self.entries@[i] == o.entries@[i]);
                assert(queue_entries(o.priority_queue).contains_pair(
                    o.entries@[i].pair.spec_encoded(),
                    enc_prio(o.entries@[i].priority),
                ));
            }
            assert forall|ip: (u128, u128)| #[trigger]
                queue_entries(self.priority_queue).dom().contains(ip) implies exists|i: int|
                0 <= i < self.entries@.len() && (#[trigger] self.entries@[i].pair).spec_encoded()
                    == ip by {
                let j = choose|j: int|
                    0 <= j < o.entries@.len() && (#[trigger] o.entries@[j].pair).spec_encoded()
                        == ip;
                assert(self.entries@[j].pair.spec_encoded() == ip);
            }
            assert forall|i: int| 0 <= i < self.entries@.len() implies self.in_index(
                (#[trigger] self.entries@[i].pair).own_key,
                self.entries@[i].pair,
            ) && self.in_index(self.entries@[i].pair.sampling_key, self.entries@[i].pair) by {
                assert(self.entries@[i] == o.entries@[i]);
                assert(o.in_index(o.entries@[i].pair.own_key, o.entries@[i].pair));
                assert(o.in_index(o.entries@[i].pair.sampling_key, o.entries@[i].pair));
            }
            assert forall|kv: u128, pe: (u128, u128)|
                index_pairs(self.stacks_by_project).dom().contains(kv) && #[trigger] index_pairs(
                    self.stacks_by_project,
                )[kv].contains(pe) implies exists|i: int|
                0 <= i < self.entries@.len() && (#[trigger] self.entries@[i].pair).spec_encoded()
                    == pe && (self.entries@[i].pair.own_key.value == kv
                    || self.entries@[i].pair.sampling_key.value == kv) by {
                let j = choose|j: int|
                    0 <= j < o.entries@.len() && (#[trigger] o.entries@[j].pair).spec_encoded()
                        == pe && (o.entries@[j].pair.own_key.value == kv
                        || o.entries@[j].pair.sampling_key.value == kv);
                assert(self.entries@[j].pair.spec_encoded() == pe);
                assert(self.entries@[j].pair.own_key.value == kv
                    || self.entries@[j].pair.sampling_key.value == kv);
            }
        }
    }

    /// Frame rule: `self.entries` equals `pre.entries` except at `i`, where
    /// only priority or stack changed but the pair was kept.
    proof fn lemma_frame_update(&self, pre: Self, i: int)
        requires
            pre.pairs_distinct(),
            0 <= i < pre.entries@.len(),
            self.entries@.len() == pre.entries@.len(),
            forall|j: int|
                0 <= j < pre.entries@.len() && j != i ==> #[trigger] self.entries@[j].pair
                    == pre.entries@[j].pair && self.entries@[j].priority
                    == pre.entries@[j].priority && self.entries@[j].stack.contents()
                    == pre.entries@[j].stack.contents(),
            self.entries@[i].pair == pre.entries@[i].pair,
        ensures
            self.pairs_distinct(),
            self.pair_count() == pre.pair_count(),
            forall|q: ProjectKeyPair| (#[trigger] self.has_pair(q)) == pre.has_pair(q),
            forall|q: ProjectKeyPair|
                q != pre.entries@[i].pair && #[trigger] pre.has_pair(q) ==> self.contents_of(q)
                    == pre.contents_of(q) && self.prio_of(q) == pre.prio_of(q),
            self.has_pair(pre.entries@[i].pair),
            self.contents_of(pre.entries@[i].pair) == self.entries@[i].stack.contents(),
            self.prio_of(pre.entries@[i].pair) == self.entries@[i].priority,
    {
        assert forall|a: int, b: int| 0 <= a < b < self.entries@.len() implies (
        #[trigger] self.entries@[a].pair) != (#[trigger] self.entries@[b].pair) by {
            assert(self.entries@[a].pair == pre.entries@[a].pair);
            assert(self.entries@[b].pair == pre.entries@[b].pair);
        }
        assert forall|q: ProjectKeyPair| (#[trigger] self.has_pair(q)) == pre.has_pair(q) by {
            if self.has_pair(q) {
                let j = choose|j: int|
                    0 <= j < self.entries@.len() && self.entries@[j].pair == q;
                assert(pre.entries@[j].pair == q);
                assert(pre.has_pair(q));
            }
            if pre.has_pair(q) {
                let j = choose|j: int| 0 <= j < pre.entries@.len() && pre.entries@[j].pair == q;
                assert(self.entries@[j].pair == q);
                assert(self.has_pair(q));
            }
        }
        assert forall|q: ProjectKeyPair|
            q != pre.entries@[i].pair && #[trigger] pre.has_pair(q) implies self.contents_of(q)
            == pre.contents_of(q) && self.prio_of(q) == pre.prio_of(q) by {
            let j = pre.index_of_pair(q);
            pre.lemma_at(j);
            assert(j != i);
            assert(self.entries@[j].pair == q);
            self.lemma_at(j);
        }
        self.lemma_at(i);
    }

    /// Frame rule: `self.entries` equals `pre.entries` with one new entry
    /// appended, whose pair was absent.
    proof fn lemma_frame_append(&self, pre: Self)
        requires
            pre.pairs_distinct(),
            self.entries@.len() == pre.entries@.len() + 1,
            forall|j: int|
                0 <= j < pre.entries@.len() ==> #[trigger] self.entries@[j].pair
                    == pre.entries@[j].pair && self.entries@[j].priority
                    == pre.entries@[j].priority && self.entries@[j].stack.contents()
                    == pre.entries@[j].stack.contents(),
            !pre.has_pair(self.entries@.last().pair),
        ensures
            self.pairs_distinct(),
            self.pair_count() == pre.pair_count() + 1,
            forall|q: ProjectKeyPair|
                q != self.entries@.last().pair ==> (#[trigger] self.has_pair(q)) == pre.has_pair(
                    q,
                ),
            forall|q: ProjectKeyPair|
                q != self.entries@.last().pair && #[trigger] pre.has_pair(q)
                    ==> self.contents_of(q) == pre.contents_of(q) && self.prio_of(q)
                    == pre.prio_of(q),
            self.has_pair(self.entries@.last().pair),
            self.contents_of(self.entries@.last().pair) == self.entries@.last().stack.contents(),
            self.prio_of(self.entries@.last().pair) == self.entries@.last().priority,
    {
        let n = pre.entries@.len() as int;
        assert forall|a: int, b: int| 0 <= a < b < self.entries@.len() implies (
        #[trigger] self.entries@[a].pair) != (#[trigger] self.entries@[b].pair) by {
            if b == n {
                pre.lemma_at(a);
                assert(pre.has_pair(pre.entries@[a].pair));
            } else {
                assert(self.entries@[a].pair == pre.entries@[a].pair);
                assert(self.entries@[b].pair == pre.entries@[b].pair);
            }
        }
        assert forall|q: ProjectKeyPair| q != self.entries@.last().pair implies (
        #[trigger] self.has_pair(q)) == pre.has_pair(q) by {
            if self.has_pair(q) {
                let j = choose|j: int|
                    0 <= j < self.entries@.len() && self.entries@[j].pair == q;
                assert(j != n);
                assert(pre.entries@[j].pair == q);
                assert(pre.has_pair(q));
            }
            if pre.has_pair(q) {
                let j = choose|j: int| 0 <= j < pre.entries@.len() && pre.entries@[j].pair == q;
                assert(self.entries@[j].pair == q);
                assert(self.has_pair(q));
            }
        }
        assert forall|q: ProjectKeyPair|
            q != self.entries@.last().pair && #[trigger] pre.has_pair(q) implies self.contents_of(
            q,
        ) == pre.contents_of(q) && self.prio_of(q) == pre.prio_of(q) by {
            let j = pre.index_of_pair(q);
            pre.lemma_at(j);
            assert(self.entries@[j].pair == q);
            self.lemma_at(j);
        }
        self.lemma_at(n);
    }

    /// Frame rule: `self.entries` equals `pre.entries` with position `i`
    /// removed.
    proof fn lemma_frame_remove(&self, pre: Self, i: int)
        requires
            pre.pairs_distinct(),
            0 <= i < pre.entries@.len(),
            self.entries@ == pre.entries@.remove(i),
        ensures
            self.pairs_distinct(),
            self.pair_count() == pre.pair_count() - 1,
            !self.has_pair(pre.entries@[i].pair),
            forall|q: ProjectKeyPair|
                q != pre.entries@[i].pair ==> (#[trigger] self.has_pair(q)) == pre.has_pair(q),
            forall|q: ProjectKeyPair|
                q != pre.entries@[i].pair && #[trigger] pre.has_pair(q) ==> self.contents_of(q)
                    == pre.contents_of(q) && self.prio_of(q) == pre.prio_of(q),
    {
        let n = pre.entries@.len() as int;
        assert(self.entries@.len() == n - 1);
        assert forall|j: int| 0 <= j < n - 1 implies #[trigger] self.entries@[j] == (if j < i {
            pre.entries@[j]
        } else {
            pre.entries@[j + 1]
        }) by {}
        assert forall|a: int, b: int| 0 <= a < b < self.entries@.len() implies (
        #[trigger] self.entries@[a].pair) != (#[trigger] self.entries@[b].pair) by {}
        if self.has_pair(pre.entries@[i].pair) {
            let j = choose|j: int|
                0 <= j < self.entries@.len() && self.entries@[j].pair == pre.entries@[i].pair;
            if j < i {
                assert(pre.entries@[j].pair == pre.entries@[i].pair);
                assert(false);
            } else {
                assert(pre.entries@[j + 1].pair == pre.entries@[i].pair);
                assert(false);
            }
        }
        assert forall|q: ProjectKeyPair| q != pre.entries@[i].pair implies (
        #[trigger] self.has_pair(q)) == pre.has_pair(q) by {
            if self.has_pair(q) {
                let j = choose|j: int|
                    0 <= j < self.entries@.len() && self.entries@[j].pair == q;
                if j < i {
                    assert(pre.entries@[j].pair == q);
                } else {
                    assert(pre.entries@[j + 1].pair == q);
                }
                assert(pre.has_pair(q));
            }
            if pre.has_pair(q) {
                let j = choose|j: int| 0 <= j < pre.entries@.len() && pre.entries@[j].pair == q;
                assert(j != i);
                if j < i {
                    assert(self.entries@[j].pair == q);
                } else {
                    assert(self.entries@[j - 1].pair == q);
                }
                assert(self.has_pair(q));
            }
        }
        assert forall|q: ProjectKeyPair|
            q != pre.entries@[i].pair && #[trigger] pre.has_pair(q) implies self.contents_of(q)
            == pre.contents_of(q) && self.prio_of(q) == pre.prio_of(q) by {
            let j = pre.index_of_pair(q);
            pre.lemma_at(j);
            if j < i {
                assert(self.entries@[j].pair == q);
                self.lemma_at(j);
            } else {
                assert(self.entries@[j - 1].pair == q);
                self.lemma_at(j - 1);
            }
        }
    }

    /// The queue mirror survives a priority change of the entry at `i`.
    proof fn lemma_queue_after_update(&self, pre: Self, i: int)
        requires
            pre.wf_entries(),
            pre.wf_queue(),
            0 <= i < pre.entries@.len(),
            self.entries@.len() == pre.entries@.len(),
            forall|j: int|
                0 <= j < pre.entries@.len() && j != i ==> #[trigger] self.entries@[j].pair
                    == pre.entries@[j].pair && self.entries@[j].priority
                    == pre.entries@[j].priority,
            self.entries@[i].pair == pre.entries@[i].pair,
            queue_entries(self.priority_queue) == queue_entries(pre.priority_queue).insert(
                pre.entries@[i].pair.spec_encoded(),
                enc_prio(self.entries@[i].priority),
            ),
        ensures
            self.wf_queue(),
    {
        assert forall|j: int| 0 <= j < self.entries@.len() implies queue_entries(
            self.priority_queue,
        ).contains_pair(
            (#[trigger] self.entries@[j].pair).spec_encoded(),
            enc_prio(self.entries@[j].priority),
        ) by {
            if j != i {
                assert(pre.entries@[j].pair != pre.entries@[i].pair);
                assert(queue_entries(pre.priority_queue).contains_pair(
                    pre.entries@[j].pair.spec_encoded(),
                    enc_prio(pre.entries@[j].priority),
                ));
            }
        }
        assert forall|ip: (u128, u128)| #[trigger]
            queue_entries(self.priority_queue).dom().contains(ip) implies exists|j: int|
            0 <= j < self.entries@.len() && (#[trigger] self.entries@[j].pair).spec_encoded()
                == ip by {
            if ip == pre.entries@[i].pair.spec_encoded() {
                assert(self.entries@[i].pair.spec_encoded() == ip);
            } else {
                assert(queue_entries(pre.priority_queue).dom().contains(ip));
                let j = choose|j: int|
                    0 <= j < pre.entries@.len() && (#[trigger] pre.entries@[j].pair).spec_encoded()
                        == ip;
                assert(self.entries@[j].pair.spec_encoded() == ip);
            }
        }
    }

    /// The index invariant survives any change that keeps the pair set and
    /// the index itself.
    proof fn lemma_index_after_same_pairs(&self, pre: Self)
        requires
            pre.wf_index(),
            self.entries@.len() == pre.entries@.len(),
            forall|j: int|
                0 <= j < pre.entries@.len() ==> #[trigger] self.entries@[j].pair
                    == pre.entries@[j].pair,
            self.stacks_by_project == pre.stacks_by_project,
        ensures
            self.wf_index(),
    {
        assert forall|j: int| 0 <= j < self.entries@.len() implies self.in_index(
            (#[trigger] self.entries@[j].pair).own_key,
            self.entries@[j].pair,
        ) && self.in_index(self.entries@[j].pair.sampling_key, self.entries@[j].pair) by {
            assert(pre.in_index(pre.entries@[j].pair.own_key, pre.entries@[j].pair));
            assert(pre.in_index(pre.entries@[j].pair.sampling_key, pre.entries@[j].pair));
        }
        assert forall|kv: u128, pe: (u128, u128)|
            index_pairs(self.stacks_by_project).dom().contains(kv) && #[trigger] index_pairs(
                self.stacks_by_project,
            )[kv].contains(pe) implies exists|j: int|
            0 <= j < self.entries@.len() && (#[trigger] self.entries@[j].pair).spec_encoded()
                == pe && (self.entries@[j].pair.own_key.value == kv
                || self.entries@[j].pair.sampling_key.value == kv) by {
            let j = choose|j: int|
                0 <= j < pre.entries@.len() && (#[trigger] pre.entries@[j].pair).spec_encoded()
                    == pe && (pre.entries@[j].pair.own_key.value == kv
                    || pre.entries@[j].pair.sampling_key.value == kv);
            assert(self.entries@[j].pair.spec_encoded() == pe);
        }
    }

    /// Creates an empty buffer for one partition over the given provider.
    pub fn new(partition_id: u8, stack_provider: P) -> (b: EnvelopeBuffer<P>)
        ensures
            b.wf(),
            b.pair_count() == 0,
            forall|q: ProjectKeyPair| !(#[trigger] b.has_pair(q)),
            forall|k: ProjectKey, q: ProjectKeyPair| !(#[trigger] b.in_index(k, q)),
            b.spec_tracked_count() == 0,
            b.spec_total_count() == 0,
            !b.spec_total_count_initialized(),
            b.provider() == stack_provider,
            b.spec_partition_id() == partition_id,
    {
        EnvelopeBuffer {
            entries: Vec::new(),
            priority_queue: queue_new(),
            stacks_by_project: ProjectIndex::new(),
            stack_provider,
            total_count: 0,
            tracked_count: 0,
            total_count_initialized: false,
            partition_id,
        }
    }

    /// The partition this buffer serves.
    pub fn partition_id(&self) -> (r: u8)
        ensures
            r == self.spec_partition_id(),
    {
        self.partition_id
    }

    /// Whether the underlying storage can take more envelopes.
    pub fn has_capacity(&self) -> (r: bool)
        ensures
            r == self.provider().spec_has_capacity(),
    {
        self.stack_provider.has_store_capacity()
    }

    /// How many stacks are buffered.
    pub fn stack_count(&self) -> (r: usize)
        ensures
            r == self.pair_count(),
    {
        self.entries.len()
    }

    /// How many keys the reverse index lists, emptied sets included.
    pub closed spec fn spec_indexed_key_count(&self) -> nat {
        index_pairs(self.stacks_by_project).dom().len()
    }

    /// How many keys the reverse index lists.
    pub fn indexed_key_count(&self) -> (r: usize)
        ensures
            r == self.spec_indexed_key_count(),
    {
        self.stacks_by_project.key_count()
    }

    /// The bytes the provider's storage uses, if computable.
    pub fn provider_total_size(&self) -> (r: Option<u64>) {
        self.stack_provider.total_size()
    }

    /// Envelopes buffered by this process since startup; what the store held
    /// beforehand is not included.
    pub fn item_count(&self) -> (r: u64)
        ensures
            r == self.spec_tracked_count(),
    {
        self.tracked_count
    }

    /// The entry position for the encoded pair, if one exists.
    fn find_entry(&self, ip: (u128, u128)) -> (r: Option<usize>)
        ensures
            match r {
                Some(i) => i < self.entries@.len() && self.entries@[i as int].pair.spec_encoded()
                    == ip,
                None => forall|i: int|
                    0 <= i < self.entries@.len() ==> (
                    #[trigger] self.entries@[i].pair).spec_encoded() != ip,
            },
    {
        let mut i: usize = 0;
        while i < self.entries.len()
            invariant
                0 <= i <= self.entries@.len(),
                forall|j: int|
                    0 <= j < i ==> (#[trigger] self.entries@[j].pair).spec_encoded() != ip,
            decreases self.entries@.len() - i,
        {
            let e = &self.entries[i];
            if e.pair.own_key.value == ip.0 && e.pair.sampling_key.value == ip.1 {
                return Some(i);
            }
            i = i + 1;
        }
        None
    }

    /// Installs `stack` as the entry for the fresh pair `pair` — the queue
    /// and the reverse index told in the same step — with an optimistic
    /// priority keyed by the stack's top envelope (`top`) and a fetch
    /// debounce starting at `now`. The contracted add-entry step shared by
    /// `push` and `load_stacks`: what enters the buffer is exactly the
    /// stack value handed in.
    fn push_stack(&mut self, pair: ProjectKeyPair, stack: P::Stack, top: i64, now: u64)
        requires
            old(self).wf(),
            !old(self).has_pair(pair),
            stack.contents().len() > 0,
            forall|e: int|
                0 <= e < stack.contents().len() ==> ProjectKeyPair::spec_from_envelope(
                    #[trigger] stack.contents()[e],
                ) == pair,
            top == stack.contents().last().received_at,
        ensures
            final(self).wf(),
            final(self).has_pair(pair),
            final(self).contents_of(pair) == stack.contents(),
            final(self).prio_of(pair) == (Priority {
                readiness: Readiness { own_project_ready: true, sampling_project_ready: true },
                received_at: top,
                next_project_fetch: now,
            }),
            Self::others_preserved(*old(self), *final(self), pair),
            forall|k: ProjectKey, q: ProjectKeyPair| #[trigger]
                final(self).in_index(k, q) == (old(self).in_index(k, q) || (q == pair
                    && q.contains_key(k))),
            forall|k: ProjectKey| (#[trigger] final(self).index_has_key(k)) == (old(
                self,
            ).index_has_key(k) || pair.contains_key(k)),
            final(self).pair_count() == old(self).pair_count() + 1,
            Self::counts_preserved(*old(self), *final(self)),
            final(self).spec_partition_id() == old(self).spec_partition_id(),
    {
        let ip = pair.encoded();
        let priority = Priority {
            readiness: Readiness::new(),
            received_at: top,
            next_project_fetch: now,
        };
        let ep = encode_priority(&priority);
        self.entries.push(Entry { pair, priority, stack });
        let _prev = queue_push(&mut self.priority_queue, ip, ep);
        self.stacks_by_project.insert_pair(pair.own_key.value, ip);
        if pair.sampling_key.value != pair.own_key.value {
            self.stacks_by_project.insert_pair(pair.sampling_key.value, ip);
        }
        proof {
            let pre = *old(self);
            self.lemma_frame_append(pre);
            self.lemma_wf_after_create(pre, pair);
        }
    }

    /// What a successful push changes: the pair's stack gains the envelope
    /// on top, its priority is lifted to the envelope's received-at with
    /// readiness kept (or optimistic for a new pair), everything else stays,
    /// and both counters grow by one, saturating.
    pub open spec fn push_effect(pre: Self, post: Self, envelope: Envelope) -> bool {
        let pair = ProjectKeyPair::spec_from_envelope(envelope);
        &&& post.has_pair(pair)
        &&& post.contents_of(pair) == (if pre.has_pair(pair) {
            pre.contents_of(pair)
        } else {
            Seq::<Envelope>::empty()
        }).push(envelope)
        &&& post.prio_of(pair).received_at == envelope.received_at
        &&& post.prio_of(pair).readiness == (if pre.has_pair(pair) {
            pre.prio_of(pair).readiness
        } else {
            Readiness { own_project_ready: true, sampling_project_ready: true }
        })
        &&& pre.has_pair(pair) ==> post.prio_of(pair).next_project_fetch == pre.prio_of(
            pair,
        ).next_project_fetch
        &&& Self::others_preserved(pre, post, pair)
        &&& forall|k: ProjectKey, q: ProjectKeyPair| #[trigger]
            post.in_index(k, q) == (pre.in_index(k, q) || (q == pair && q.contains_key(k)))
        &&& forall|k: ProjectKey| (#[trigger] post.index_has_key(k)) == (pre.index_has_key(k)
            || pair.contains_key(k))
        &&& post.pair_count() == pre.pair_count() + (if pre.has_pair(pair) {
            0int
        } else {
            1int
        })
        &&& post.spec_tracked_count() == (if pre.spec_tracked_count() < u64::MAX {
            pre.spec_tracked_count() + 1
        } else {
            pre.spec_tracked_count() as int
        })
        &&& post.spec_total_count() == (if pre.spec_total_count() < i64::MAX {
            pre.spec_total_count() + 1
        } else {
            pre.spec_total_count() as int
        })
        &&& post.spec_total_count_initialized() == pre.spec_total_count_initialized()
        &&& post.spec_partition_id() == pre.spec_partition_id()
    }

    /// Counts one more buffered envelope, saturating at the counters' tops.
    fn bump_counts(&mut self)
        ensures
            final(self).spec_tracked_count() == (if old(self).spec_tracked_count() < u64::MAX {
                old(self).spec_tracked_count() + 1
            } else {
                old(self).spec_tracked_count() as int
            }),
            final(self).spec_total_count() == (if old(self).spec_total_count() < i64::MAX {
                old(self).spec_total_count() + 1
            } else {
                old(self).spec_total_count() as int
            }),
            final(self).entries@ == old(self).entries@,
            final(self).priority_queue == old(self).priority_queue,
            final(self).stacks_by_project == old(self).stacks_by_project,
            final(self).spec_total_count_initialized() == old(
                self,
            ).spec_total_count_initialized(),
            final(self).provider() == old(self).provider(),
            final(self).spec_partition_id() == old(self).spec_partition_id(),
    {
        if self.total_count < i64::MAX {
            self.total_count = self.total_count + 1;
        }
        if self.tracked_count < u64::MAX {
            self.tracked_count = self.tracked_count + 1;
        }
    }

    /// Pushes an envelope onto the stack of its key pair, creating the stack
    /// if the pair is new, and lifts the stack's priority to the envelope's
    /// received-at; readiness and the fetch debounce are not touched. A
    /// storage failure leaves the buffer unchanged. A stack created here
    /// starts its fetch debounce at the current instant.
    pub fn push(&mut self, envelope: Envelope) -> (r: Result<(), EnvelopeBufferError>)
        requires
            old(self).wf(),
        ensures
            final(self).wf(),
            <P::Stack as EnvelopeStack>::spec_infallible() ==> (r is Ok),
            match r {
                Ok(_) => Self::push_effect(*old(self), *final(self), envelope),
                Err(_) => Self::all_preserved(*old(self), *final(self)),
            },
    {
        let now = crate::clock::current_instant();
        self.push_at(envelope, now)
    }

    /// `push` with the clock reading made explicit: a stack created for a
    /// new pair starts its fetch debounce exactly at `now`. With the
    /// caller's readings in hand, the scheduling of fresh not-ready stacks
    /// is fully determined.
    pub fn push_at(&mut self, envelope: Envelope, now: u64) -> (r: Result<
        (),
        EnvelopeBufferError,
    >)
        requires
            old(self).wf(),
        ensures
            final(self).wf(),
            <P::Stack as EnvelopeStack>::spec_infallible() ==> (r is Ok),
            match r {
                Ok(_) => ({
                    let pair = ProjectKeyPair::spec_from_envelope(envelope);
                    Self::push_effect(*old(self), *final(self), envelope) && (!old(
                        self,
                    ).has_pair(pair) ==> final(self).prio_of(pair).next_project_fetch == now)
                }),
                Err(_) => Self::all_preserved(*old(self), *final(self)),
            },
    {
        let received_at = envelope.received_at;
        let pair = ProjectKeyPair::from_envelope(&envelope);
        let ip = pair.encoded();
        match self.find_entry(ip) {
            Some(i) => {
                proof {
                    old(self).lemma_at(i as int);
                    assert(old(self).entries@[i as int].pair == pair);
                }
                let mut entry = self.entries.remove(i);
                let pushed = entry.stack.push(envelope);
                match pushed {
                    Ok(_) => {
                        entry.priority.received_at = received_at;
                        let ep = encode_priority(&entry.priority);
                        self.entries.insert(i, entry);
                        proof {
                            assert(self.entries@ =~= old(self).entries@.update(
                                i as int,
                                self.entries@[i as int],
                            ));
                        }
                        let _old_prio = queue_change_priority(&mut self.priority_queue, ip, ep);
                        proof {
                            let pre = *old(self);
                            assert(queue_entries(pre.priority_queue).dom().contains(ip));
                            self.lemma_frame_update(pre, i as int);
                            self.lemma_queue_after_update(pre, i as int);
                            self.lemma_index_after_same_pairs(pre);
                        }
                        self.bump_counts();
                        proof {
                            let pre = *old(self);
                            self.lemma_frame_update(pre, i as int);
                            self.lemma_queue_after_update(pre, i as int);
                            self.lemma_index_after_same_pairs(pre);
                            assert(Self::push_effect(pre, *self, envelope));
                        }
                        Ok(())
                    },
                    Err(er) => {
                        self.entries.insert(i, entry);
                        proof {
                            let pre = *old(self);
                            assert(self.entries@ =~= pre.entries@.update(
                                i as int,
                                self.entries@[i as int],
                            ));
                            self.lemma_frame_update(pre, i as int);
                            assert(queue_entries(self.priority_queue) =~= queue_entries(
                                pre.priority_queue,
                            ).insert(
                                pre.entries@[i as int].pair.spec_encoded(),
                                enc_prio(self.entries@[i as int].priority),
                            ));
                            self.lemma_queue_after_update(pre, i as int);
                            self.lemma_index_after_same_pairs(pre);
                        }
                        Err(er)
                    },
                }
            },
            None => {
                proof {
                    if old(self).has_pair(pair) {
                        let j = old(self).index_of_pair(pair);
                        old(self).lemma_at(j);
                        assert(false);
                    }
                }
                let mut stack = self.stack_provider.create_stack(StackCreationType::New, pair);
                let pushed = stack.push(envelope);
                match pushed {
                    Ok(_) => {},
                    Err(er) => {
                        return Err(er);
                    },
                }
                let ghost mid = *self;
                proof {
                    mid.lemma_core_eq(*old(self));
                    assert(stack.contents() =~= Seq::<Envelope>::empty().push(envelope));
                }
                self.push_stack(pair, stack, received_at, now);
                let ghost s2 = *self;
                self.bump_counts();
                proof {
                    let pre = *old(self);
                    self.lemma_core_eq(s2);
                    assert(s2.contents_of(pair) =~= Seq::<Envelope>::empty().push(envelope));
                    assert(self.contents_of(pair) == s2.contents_of(pair));
                    assert(self.prio_of(pair) == s2.prio_of(pair));
                    assert forall|q: ProjectKeyPair|
                        q != pair implies ((#[trigger] self.has_pair(q)) == pre.has_pair(q)) by {
                        assert(mid.has_pair(q) == pre.has_pair(q));
                        assert(s2.has_pair(q) == mid.has_pair(q));
                        assert(self.has_pair(q) == s2.has_pair(q));
                    }
                    assert forall|q: ProjectKeyPair|
                        q != pair && #[trigger] pre.has_pair(q) implies self.contents_of(q)
                        == pre.contents_of(q) && self.prio_of(q) == pre.prio_of(q) by {
                        assert(mid.has_pair(q));
                        assert(mid.contents_of(q) == pre.contents_of(q));
                        assert(s2.contents_of(q) == mid.contents_of(q));
                        assert(s2.has_pair(q));
                        assert(self.contents_of(q) == s2.contents_of(q));
                    }
                    assert forall|k: ProjectKey, q: ProjectKeyPair| #[trigger]
                        self.in_index(k, q) == (pre.in_index(k, q) || (q == pair
                            && q.contains_key(k))) by {
                        assert(s2.in_index(k, q) == (mid.in_index(k, q) || (q == pair
                            && q.contains_key(k))));
                        assert(self.in_index(k, q) == s2.in_index(k, q));
                        assert(mid.in_index(k, q) == pre.in_index(k, q));
                    }
                    assert(Self::push_effect(pre, *self, envelope));
                }
                Ok(())
            },
        }
    }

    /// The full invariant after appending a brand-new entry, pushing it to
    /// the queue and inserting its keys in the index.
    proof fn lemma_wf_after_create(&self, pre: Self, pair: ProjectKeyPair)
        requires
            pre.wf(),
            !pre.has_pair(pair),
            self.entries@.len() == pre.entries@.len() + 1,
            forall|j: int|
                0 <= j < pre.entries@.len() ==> #[trigger] self.entries@[j].pair
                    == pre.entries@[j].pair && self.entries@[j].priority
                    == pre.entries@[j].priority && self.entries@[j].stack.contents()
                    == pre.entries@[j].stack.contents(),
            self.entries@.last().pair == pair,
            self.entries@.last().stack.contents().len() > 0,
            forall|e: int|
                0 <= e < self.entries@.last().stack.contents().len()
                    ==> ProjectKeyPair::spec_from_envelope(
                    #[trigger] self.entries@.last().stack.contents()[e],
                ) == pair,
            self.entries@.last().priority.received_at
                == self.entries@.last().stack.contents().last().received_at,
            queue_entries(self.priority_queue) == queue_entries(pre.priority_queue).insert(
                self.entries@.last().pair.spec_encoded(),
                enc_prio(self.entries@.last().priority),
            ),
            index_pairs(self.stacks_by_project) == Self::index_after_create(
                index_pairs(pre.stacks_by_project),
                pair,
            ),
        ensures
            self.wf(),
            forall|k: ProjectKey, q: ProjectKeyPair| #[trigger]
                self.in_index(k, q) == (pre.in_index(k, q) || (q == pair && q.contains_key(k))),
    {
        let pe = pair.spec_encoded();
        let n = pre.entries@.len() as int;
        self.lemma_frame_append(pre);
        assert forall|j: int| 0 <= j < self.entries@.len() implies (
        #[trigger] self.entries@[j].stack.contents()).len() > 0 by {
            if j < n {
                assert(self.entries@[j].pair == pre.entries@[j].pair);
                assert(pre.entries@[j].stack.contents().len() > 0);
            } else {
                assert(self.entries@[j].stack.contents() == self.entries@.last().stack.contents());
            }
        }
        assert forall|j: int, e: int|
            0 <= j < self.entries@.len() && 0 <= e < self.entries@[j].stack.contents().len()
            implies ProjectKeyPair::spec_from_envelope(
            #[trigger] self.entries@[j].stack.contents()[e],
        ) == self.entries@[j].pair by {
            if j < n {
                assert(self.entries@[j].pair == pre.entries@[j].pair);
                assert(0 <= e < pre.entries@[j].stack.contents().len());
                assert(ProjectKeyPair::spec_from_envelope(pre.entries@[j].stack.contents()[e])
                    == pre.entries@[j].pair);
            } else {
                assert(self.entries@[j].stack.contents()[e]
                    == self.entries@.last().stack.contents()[e]);
            }
        }
        assert forall|j: int| 0 <= j < self.entries@.len() implies (
        #[trigger] self.entries@[j].priority).received_at
            == self.entries@[j].stack.contents().last().received_at by {
            if j < n {
                assert(self.entries@[j].pair == pre.entries@[j].pair);
                assert(pre.entries@[j].priority.received_at
                    == pre.entries@[j].stack.contents().last().received_at);
            } else {
                assert(self.entries@[j] == self.entries@.last());
            }
        }
        assert forall|j: int| 0 <= j < self.entries@.len() implies queue_entries(
            self.priority_queue,
        ).contains_pair(
            (#[trigger] self.entries@[j].pair).spec_encoded(),
            enc_prio(self.entries@[j].priority),
        ) by {
            if j < n {
                pre.lemma_at(j);
                assert(pre.entries@[j].pair != pair);
                assert(queue_entries(pre.priority_queue).contains_pair(
                    pre.entries@[j].pair.spec_encoded(),
                    enc_prio(pre.entries@[j].priority),
                ));
            }
        }
        assert forall|ip: (u128, u128)| #[trigger]
            queue_entries(self.priority_queue).dom().contains(ip) implies exists|j: int|
            0 <= j < self.entries@.len() && (#[trigger] self.entries@[j].pair).spec_encoded()
                == ip by {
            if ip == pe {
                assert(self.entries@[n].pair.spec_encoded() == ip);
            } else {
                assert(queue_entries(pre.priority_queue).dom().contains(ip));
                let j = choose|j: int|
                    0 <= j < pre.entries@.len() && (#[trigger] pre.entries@[j].pair).spec_encoded()
                        == ip;
                assert(self.entries@[j].pair.spec_encoded() == ip);
            }
        }
        assert forall|k: ProjectKey, q: ProjectKeyPair| #[trigger]
            self.in_index(k, q) == (pre.in_index(k, q) || (q == pair && q.contains_key(k))) by {
            assert(q.spec_encoded() == pe <==> q == pair);
        }
        assert forall|j: int| 0 <= j < self.entries@.len() implies self.in_index(
            (#[trigger] self.entries@[j].pair).own_key,
            self.entries@[j].pair,
        ) && self.in_index(self.entries@[j].pair.sampling_key, self.entries@[j].pair) by {
            if j < n {
                assert(pre.in_index(pre.entries@[j].pair.own_key, pre.entries@[j].pair));
                assert(pre.in_index(pre.entries@[j].pair.sampling_key, pre.entries@[j].pair));
            } else {
                assert(pair.contains_key(pair.own_key));
                assert(pair.contains_key(pair.sampling_key));
            }
        }
        assert forall|kv: u128, pe2: (u128, u128)|
            index_pairs(self.stacks_by_project).dom().contains(kv) && #[trigger] index_pairs(
                self.stacks_by_project,
            )[kv].contains(pe2) implies exists|j: int|
            0 <= j < self.entries@.len() && (#[trigger] self.entries@[j].pair).spec_encoded()
                == pe2 && (self.entries@[j].pair.own_key.value == kv
                || self.entries@[j].pair.sampling_key.value == kv) by {
            if pe2 == pe && (kv == pair.own_key.value || kv == pair.sampling_key.value) {
                assert(self.entries@[n].pair.spec_encoded() == pe2);
            } else {
                assert(index_pairs(pre.stacks_by_project).dom().contains(kv) && index_pairs(
                    pre.stacks_by_project,
                )[kv].contains(pe2));
                let j = choose|j: int|
                    0 <= j < pre.entries@.len() && (#[trigger] pre.entries@[j].pair).spec_encoded()
                        == pe2 && (pre.entries@[j].pair.own_key.value == kv
                        || pre.entries@[j].pair.sampling_key.value == kv);
                assert(self.entries@[j].pair.spec_encoded() == pe2);
            }
        }
    }

    /// `p` is buffered and no buffered stack outranks it.
    pub open spec fn is_top_pair(b: Self, p: ProjectKeyPair) -> bool {
        b.has_pair(p) && forall|q: ProjectKeyPair| #[trigger]
            b.has_pair(q) ==> prio_le(b.prio_of(q), b.prio_of(p))
    }

    /// What a look at `p`'s stack reveals.
    pub open spec fn peek_for(b: Self, p: ProjectKeyPair) -> Peek {
        if b.prio_of(p).readiness.spec_ready() {
            Peek::Ready { project_key_pair: p, last_received_at: b.prio_of(p).received_at }
        } else {
            Peek::NotReady {
                project_key_pair: p,
                next_project_fetch: b.prio_of(p).next_project_fetch,
                last_received_at: b.prio_of(p).received_at,
            }
        }
    }

    /// What a peek shows: a pure function of the buffer value — `Empty`
    /// when nothing is buffered, else the view of the pair at the queue's
    /// root. Because it is a function, two peeks of one unchanged buffer
    /// return the same value, the tied pair included.
    pub closed spec fn spec_peek(&self) -> Peek {
        match queue_top(self.priority_queue) {
            None => Peek::Empty,
            Some(t) => {
                let p = choose|p: ProjectKeyPair|
                    self.has_pair(p) && p.spec_encoded() == t.0;
                Self::peek_for(*self, p)
            },
        }
    }

    /// The result a peek at `b` may return: `Empty` exactly when nothing is
    /// buffered, else the view of some top-ranked pair.
    pub open spec fn peek_matches(b: Self, pk: Peek) -> bool {
        if b.pair_count() == 0 {
            pk == Peek::Empty
        } else {
            exists|p: ProjectKeyPair| #[trigger] Self::is_top_pair(b, p) && pk == Self::peek_for(b, p)
        }
    }

    /// Every buffered stack ranks at or below the entry at `i`, whose
    /// priority encodes to a greatest element of the queue.
    proof fn lemma_top_from_queue(&self, i: int, top: (bool, u64, u64))
        requires
            self.wf(),
            0 <= i < self.entries@.len(),
            enc_prio(self.entries@[i].priority) == top,
            forall|j: (u128, u128)| #[trigger]
                queue_entries(self.priority_queue).dom().contains(j) ==> crate::priority::tup_le(
                    queue_entries(self.priority_queue)[j],
                    top,
                ),
        ensures
            Self::is_top_pair(*self, self.entries@[i].pair),
    {
        self.lemma_at(i);
        assert forall|q: ProjectKeyPair| #[trigger]
            self.has_pair(q) implies prio_le(self.prio_of(q), self.prio_of(
            self.entries@[i].pair,
        )) by {
            let j = self.index_of_pair(q);
            self.lemma_at(j);
            assert(queue_entries(self.priority_queue).contains_pair(
                q.spec_encoded(),
                enc_prio(self.entries@[j].priority),
            ));
            assert(queue_entries(self.priority_queue).dom().contains(q.spec_encoded()));
            lemma_enc_prio_order(self.entries@[j].priority, self.entries@[i].priority);
        }
    }

    /// Inspects the next-in-line stack without changing anything: the ready
    /// or not-ready view of a top-ranked pair, or `Empty` when nothing is
    /// buffered. The result equals [`Self::spec_peek`], a function of the
    /// buffer value, so peeking is idempotent: an unchanged buffer shows
    /// the same view again, the tied pair included.
    pub fn peek(&self) -> (pk: Peek)
        requires
            self.wf(),
        ensures
            pk == self.spec_peek(),
            Self::peek_matches(*self, pk),
    {
        match queue_peek(&self.priority_queue) {
            None => {
                proof {
                    if self.entries@.len() > 0 {
                        assert(queue_entries(self.priority_queue).contains_pair(
                            self.entries@[0].pair.spec_encoded(),
                            enc_prio(self.entries@[0].priority),
                        ));
                        assert(false);
                    }
                    assert(self.spec_peek() == Peek::Empty);
                }
                Peek::Empty
            },
            Some(top) => {
                match self.find_entry(top.0) {
                    None => {
                        proof {
                            assert(queue_entries(self.priority_queue).dom().contains(top.0));
                            let j = choose|j: int|
                                0 <= j < self.entries@.len() && (
                                #[trigger] self.entries@[j].pair).spec_encoded() == top.0;
                            assert(false);
                        }
                        vstd::pervasive::unreached()
                    },
                    Some(i) => {
                        proof {
                            self.lemma_at(i as int);
                            assert(queue_entries(self.priority_queue).contains_pair(
                                self.entries@[i as int].pair.spec_encoded(),
                                enc_prio(self.entries@[i as int].priority),
                            ));
                            assert(enc_prio(self.entries@[i as int].priority) == top.1);
                            self.lemma_top_from_queue(i as int, top.1);
                            let chosen = choose|p: ProjectKeyPair|
                                self.has_pair(p) && p.spec_encoded() == top.0;
                            assert(self.has_pair(self.entries@[i as int].pair)
                                && self.entries@[i as int].pair.spec_encoded() == top.0);
                            let j = self.index_of_pair(chosen);
                            self.lemma_at(j);
                            assert(chosen == self.entries@[i as int].pair);
                            assert(self.spec_peek() == Self::peek_for(
                                *self,
                                self.entries@[i as int].pair,
                            ));
                        }
                        let e = &self.entries[i];
                        if e.priority.readiness.ready() {
                            Peek::Ready {
                                project_key_pair: e.pair,
                                last_received_at: e.priority.received_at,
                            }
                        } else {
                            Peek::NotReady {
                                project_key_pair: e.pair,
                                next_project_fetch: e.priority.next_project_fetch,
                                last_received_at: e.priority.received_at,
                            }
                        }
                    },
                }
            },
        }
    }

    /// Any two results that fit a peek at one buffer agree in variant,
    /// received-at and fetch deadline — even without the exact pinning of
    /// [`Self::spec_peek`], equal ranks carry equal fields.
    pub proof fn lemma_peek_deterministic(b: Self, r1: Peek, r2: Peek)
        requires
            b.wf(),
            Self::peek_matches(b, r1),
            Self::peek_matches(b, r2),
        ensures
            (r1 is Empty) == (r2 is Empty),
            (r1 is Ready) == (r2 is Ready),
            r1.spec_last_received_at() == r2.spec_last_received_at(),
            r1.spec_next_project_fetch() == r2.spec_next_project_fetch(),
    {
        if b.pair_count() != 0 {
            let p1 = choose|p: ProjectKeyPair| #[trigger]
                Self::is_top_pair(b, p) && r1 == Self::peek_for(b, p);
            let p2 = choose|p: ProjectKeyPair| #[trigger]
                Self::is_top_pair(b, p) && r2 == Self::peek_for(b, p);
            assert(prio_le(b.prio_of(p1), b.prio_of(p2)));
            assert(prio_le(b.prio_of(p2), b.prio_of(p1)));
            crate::priority::lemma_prio_order_total(b.prio_of(p1), b.prio_of(p2));
        }
    }

    /// What a successful pop of top pair `p` changes: its top envelope comes
    /// off, the stack's priority follows the new top or the whole entry
    /// leaves the buffer and index, everything else stays, and both counters
    /// shrink by one, `tracked_count` clamped at zero.
    pub open spec fn pop_effect(pre: Self, post: Self, p: ProjectKeyPair, envelope: Envelope) -> bool {
        &&& Self::is_top_pair(pre, p)
        &&& envelope == pre.contents_of(p).last()
        &&& Self::others_preserved(pre, post, p)
        &&& (if pre.contents_of(p).len() == 1 {
            &&& !post.has_pair(p)
            &&& post.pair_count() == pre.pair_count() - 1
            &&& forall|k: ProjectKey, q: ProjectKeyPair| #[trigger]
                post.in_index(k, q) == (pre.in_index(k, q) && q != p)
            &&& forall|k: ProjectKey| (#[trigger] post.index_has_key(k)) == pre.index_has_key(k)
        } else {
            &&& post.has_pair(p)
            &&& post.contents_of(p) == pre.contents_of(p).drop_last()
            &&& post.prio_of(p).received_at == pre.contents_of(
                p,
            ).drop_last().last().received_at
            &&& post.prio_of(p).readiness == pre.prio_of(p).readiness
            &&& post.prio_of(p).next_project_fetch == pre.prio_of(p).next_project_fetch
            &&& post.pair_count() == pre.pair_count()
            &&& Self::index_preserved(pre, post)
        })
        &&& post.spec_tracked_count() == (if pre.spec_tracked_count() > 0 {
            pre.spec_tracked_count() - 1
        } else {
            0int
        })
        &&& post.spec_total_count() == (if pre.spec_total_count() > i64::MIN {
            pre.spec_total_count() - 1
        } else {
            pre.spec_total_count() as int
        })
        &&& post.spec_total_count_initialized() == pre.spec_total_count_initialized()
        &&& post.spec_partition_id() == pre.spec_partition_id()
    }

    /// Counts one envelope out, `total_count` free to go negative and
    /// `tracked_count` clamped at zero.
    fn drop_counts(&mut self)
        ensures
            final(self).spec_tracked_count() == (if old(self).spec_tracked_count() > 0 {
                old(self).spec_tracked_count() - 1
            } else {
                0int
            }),
            final(self).spec_total_count() == (if old(self).spec_total_count() > i64::MIN {
                old(self).spec_total_count() - 1
            } else {
                old(self).spec_total_count() as int
            }),
            final(self).entries@ == old(self).entries@,
            final(self).priority_queue == old(self).priority_queue,
            final(self).stacks_by_project == old(self).stacks_by_project,
            final(self).spec_total_count_initialized() == old(
                self,
            ).spec_total_count_initialized(),
            final(self).provider() == old(self).provider(),
            final(self).spec_partition_id() == old(self).spec_partition_id(),
    {
        if self.total_count > i64::MIN {
            self.total_count = self.total_count - 1;
        }
        if self.tracked_count > 0 {
            self.tracked_count = self.tracked_count - 1;
        }
    }

    /// The queue mirror and index invariant after entry `i` left: the queue
    /// lost its item and the index lost the pair under each of its keys.
    proof fn lemma_wf_after_remove(&self, pre: Self, i: int)
        requires
            pre.wf(),
            0 <= i < pre.entries@.len(),
            self.entries@ == pre.entries@.remove(i),
            queue_entries(self.priority_queue) == queue_entries(pre.priority_queue).remove(
                pre.entries@[i].pair.spec_encoded(),
            ),
            index_pairs(self.stacks_by_project) == Self::index_after_remove(
                index_pairs(pre.stacks_by_project),
                pre.entries@[i].pair,
            ),
        ensures
            self.wf(),
            forall|k: ProjectKey, q: ProjectKeyPair| #[trigger]
                self.in_index(k, q) == (pre.in_index(k, q) && q != pre.entries@[i].pair),
    {
        let p = pre.entries@[i].pair;
        let pe = p.spec_encoded();
        let n = pre.entries@.len() as int;
        self.lemma_frame_remove(pre, i);
        assert forall|j: int| 0 <= j < n - 1 implies #[trigger] self.entries@[j] == (if j < i {
            pre.entries@[j]
        } else {
            pre.entries@[j + 1]
        }) by {}
        assert forall|k: ProjectKey, q: ProjectKeyPair| #[trigger]
            self.in_index(k, q) == (pre.in_index(k, q) && q != p) by {
            assert(q.spec_encoded() == pe <==> q == p);
            if pre.in_index(k, q) && q != p {
                assert(self.in_index(k, q));
            }
            if self.in_index(k, q) {
                assert(pre.in_index(k, q));
                if q == p {
                    if k.value == p.own_key.value || k.value == p.sampling_key.value {
                        assert(false);
                    } else {
                        let j = choose|j: int|
                            0 <= j < pre.entries@.len() && (
                            #[trigger] pre.entries@[j].pair).spec_encoded() == pe && (
                            pre.entries@[j].pair.own_key.value == k.value
                                || pre.entries@[j].pair.sampling_key.value == k.value);
                        if j < i {
                            pre.lemma_at(j);
                            pre.lemma_at(i);
                            assert(false);
                        } else if j > i {
                            pre.lemma_at(j);
                            pre.lemma_at(i);
                            assert(false);
                        } else {
                            assert(false);
                        }
                    }
                }
            }
        }
        assert forall|j: int| 0 <= j < self.entries@.len() implies queue_entries(
            self.priority_queue,
        ).contains_pair(
            (#[trigger] self.entries@[j].pair).spec_encoded(),
            enc_prio(self.entries@[j].priority),
        ) by {
            let jj: int = if j < i {
                j
            } else {
                j + 1
            };
            pre.lemma_at(jj);
            pre.lemma_at(i);
            assert(pre.entries@[jj].pair != p);
            assert(queue_entries(pre.priority_queue).contains_pair(
                pre.entries@[jj].pair.spec_encoded(),
                enc_prio(pre.entries@[jj].priority),
            ));
        }
        assert forall|ip: (u128, u128)| #[trigger]
            queue_entries(self.priority_queue).dom().contains(ip) implies exists|j: int|
            0 <= j < self.entries@.len() && (#[trigger] self.entries@[j].pair).spec_encoded()
                == ip by {
            assert(queue_entries(pre.priority_queue).dom().contains(ip));
            assert(ip != pe);
            let j = choose|j: int|
                0 <= j < pre.entries@.len() && (#[trigger] pre.entries@[j].pair).spec_encoded()
                    == ip;
            if j < i {
                assert(self.entries@[j].pair.spec_encoded() == ip);
            } else {
                pre.lemma_at(j);
                pre.lemma_at(i);
                assert(j != i);
                assert(self.entries@[j - 1].pair.spec_encoded() == ip);
            }
        }
        assert forall|j: int| 0 <= j < self.entries@.len() implies self.in_index(
            (#[trigger] self.entries@[j].pair).own_key,
            self.entries@[j].pair,
        ) && self.in_index(self.entries@[j].pair.sampling_key, self.entries@[j].pair) by {
            let jj: int = if j < i {
                j
            } else {
                j + 1
            };
            pre.lemma_at(jj);
            pre.lemma_at(i);
            assert(pre.in_index(pre.entries@[jj].pair.own_key, pre.entries@[jj].pair));
            assert(pre.in_index(pre.entries@[jj].pair.sampling_key, pre.entries@[jj].pair));
        }
        assert forall|kv: u128, pe2: (u128, u128)|
            index_pairs(self.stacks_by_project).dom().contains(kv) && #[trigger] index_pairs(
                self.stacks_by_project,
            )[kv].contains(pe2) implies exists|j: int|
            0 <= j < self.entries@.len() && (#[trigger] self.entries@[j].pair).spec_encoded()
                == pe2 && (self.entries@[j].pair.own_key.value == kv
                || self.entries@[j].pair.sampling_key.value == kv) by {
            assert(index_pairs(pre.stacks_by_project).dom().contains(kv) && index_pairs(
                pre.stacks_by_project,
            )[kv].contains(pe2));
            assert(pe2 != pe);
            let j = choose|j: int|
                0 <= j < pre.entries@.len() && (#[trigger] pre.entries@[j].pair).spec_encoded()
                    == pe2 && (pre.entries@[j].pair.own_key.value == kv
                    || pre.entries@[j].pair.sampling_key.value == kv);
            pre.lemma_at(j);
            pre.lemma_at(i);
            if j < i {
                assert(self.entries@[j].pair.spec_encoded() == pe2);
            } else {
                assert(self.entries@[j - 1].pair.spec_encoded() == pe2);
            }
        }
    }

    /// The reverse index after `pair` left the set of each of its keys.
    pub open spec fn index_after_remove(
        m0: Map<u128, Set<(u128, u128)>>,
        pair: ProjectKeyPair,
    ) -> Map<u128, Set<(u128, u128)>> {
        let pe = pair.spec_encoded();
        let m1 = if m0.dom().contains(pair.own_key.value) {
            m0.insert(pair.own_key.value, m0[pair.own_key.value].remove(pe))
        } else {
            m0
        };
        if pair.sampling_key.value != pair.own_key.value {
            if m1.dom().contains(pair.sampling_key.value) {
                m1.insert(pair.sampling_key.value, m1[pair.sampling_key.value].remove(pe))
            } else {
                m1
            }
        } else {
            m1
        }
    }

    /// Returns the next-in-line envelope, if any is buffered: pops a
    /// top-ranked stack, re-prioritizes it under its new top or retires it
    /// when drained. A storage failure leaves the buffer unchanged.
    pub fn pop(&mut self) -> (r: Result<Option<Envelope>, EnvelopeBufferError>)
        requires
            old(self).wf(),
        ensures
            final(self).wf(),
            old(self).pair_count() == 0 ==> (r matches Ok(None)),
            <P::Stack as EnvelopeStack>::spec_infallible() ==> (r is Ok),
            match r {
                Ok(Some(envelope)) => exists|p: ProjectKeyPair| #[trigger]
                    Self::pop_effect(*old(self), *final(self), p, envelope),
                Ok(None) => old(self).pair_count() == 0 && Self::all_preserved(
                    *old(self),
                    *final(self),
                ),
                Err(_) => Self::all_preserved(*old(self), *final(self)),
            },
    {
        match queue_peek(&self.priority_queue) {
            None => {
                proof {
                    if self.entries@.len() > 0 {
                        assert(queue_entries(self.priority_queue).contains_pair(
                            self.entries@[0].pair.spec_encoded(),
                            enc_prio(self.entries@[0].priority),
                        ));
                        assert(false);
                    }
                }
                Ok(None)
            },
            Some(top) => {
                let ip = top.0;
                match self.find_entry(ip) {
                    None => {
                        proof {
                            assert(queue_entries(self.priority_queue).dom().contains(ip));
                            let j = choose|j: int|
                                0 <= j < self.entries@.len() && (
                                #[trigger] self.entries@[j].pair).spec_encoded() == ip;
                            assert(false);
                        }
                        vstd::pervasive::unreached()
                    },
                    Some(i) => {
                        proof {
                            self.lemma_at(i as int);
                            assert(queue_entries(self.priority_queue).contains_pair(
                                self.entries@[i as int].pair.spec_encoded(),
                                enc_prio(self.entries@[i as int].priority),
                            ));
                            assert(enc_prio(self.entries@[i as int].priority) == top.1);
                            self.lemma_top_from_queue(i as int, top.1);
                        }
                        let ghost pre = *old(self);
                        let ghost p = pre.entries@[i as int].pair;
                        let mut entry = self.entries.remove(i);
                        let popped = entry.stack.pop();
                        match popped {
                            Err(er) => {
                                self.entries.insert(i, entry);
                                proof {
                                    assert(self.entries@ =~= pre.entries@.update(
                                        i as int,
                                        self.entries@[i as int],
                                    ));
                                    self.lemma_frame_update(pre, i as int);
                                    assert(queue_entries(self.priority_queue) =~= queue_entries(
                                        pre.priority_queue,
                                    ).insert(
                                        p.spec_encoded(),
                                        enc_prio(self.entries@[i as int].priority),
                                    ));
                                    self.lemma_queue_after_update(pre, i as int);
                                    self.lemma_index_after_same_pairs(pre);
                                }
                                Err(er)
                            },
                            Ok(None) => {
                                proof {
                                    assert(false);
                                }
                                vstd::pervasive::unreached()
                            },
                            Ok(Some((envelope, next))) => {
                                match next {
                                    Some(t) => {
                                        entry.priority.received_at = t;
                                        let ep = encode_priority(&entry.priority);
                                        self.entries.insert(i, entry);
                                        proof {
                                            assert(queue_entries(
                                                self.priority_queue,
                                            ).dom().contains(ip));
                                        }
                                        let _o = queue_change_priority(
                                            &mut self.priority_queue,
                                            ip,
                                            ep,
                                        );
                                        proof {
                                            assert(self.entries@ =~= pre.entries@.update(
                                                i as int,
                                                self.entries@[i as int],
                                            ));
                                            self.lemma_frame_update(pre, i as int);
                                            self.lemma_queue_after_update(pre, i as int);
                                            self.lemma_index_after_same_pairs(pre);
                                        }
                                    },
                                    None => {
                                        let _q = queue_remove(&mut self.priority_queue, ip);
                                        self.stacks_by_project.remove_pair(
                                            entry.pair.own_key.value,
                                            ip,
                                        );
                                        if entry.pair.sampling_key.value
                                            != entry.pair.own_key.value {
                                            self.stacks_by_project.remove_pair(
                                                entry.pair.sampling_key.value,
                                                ip,
                                            );
                                        }
                                        proof {
                                            self.lemma_wf_after_remove(pre, i as int);
                                        }
                                    },
                                }
                                self.drop_counts();
                                proof {
                                    if pre.contents_of(p).len() == 1 {
                                        self.lemma_frame_remove(pre, i as int);
                                        self.lemma_wf_after_remove(pre, i as int);
                                    } else {
                                        self.lemma_frame_update(pre, i as int);
                                        self.lemma_queue_after_update(pre, i as int);
                                        self.lemma_index_after_same_pairs(pre);
                                    }
                                    assert(Self::pop_effect(pre, *self, p, envelope));
                                }
                                Ok(Some(envelope))
                            },
                        }
                    },
                }
            },
        }
    }

    /// The deadline `mark_seen` computes from a clock reading `at` and a
    /// cooldown: their sum, clamped to the top of the range.
    pub open spec fn seen_deadline(at: u64, cooldown: u64) -> u64 {
        if at <= u64::MAX - cooldown {
            (at + cooldown) as u64
        } else {
            u64::MAX
        }
    }

    /// Re-schedules one stack for `next_fetch`: only the pair's fetch
    /// deadline changes, and a missing pair is left alone.
    pub fn mark_seen_at(&mut self, project_key_pair: &ProjectKeyPair, next_fetch: u64)
        requires
            old(self).wf(),
        ensures
            final(self).wf(),
            final(self).pair_count() == old(self).pair_count(),
            forall|q: ProjectKeyPair| (#[trigger] final(self).has_pair(q)) == old(self).has_pair(q),
            forall|q: ProjectKeyPair| #[trigger]
                old(self).has_pair(q) ==> final(self).contents_of(q) == old(self).contents_of(q),
            forall|q: ProjectKeyPair|
                q != *project_key_pair && #[trigger] old(self).has_pair(q)
                    ==> final(self).prio_of(q) == old(self).prio_of(q),
            old(self).has_pair(*project_key_pair) ==> final(self).prio_of(*project_key_pair)
                == (Priority {
                next_project_fetch: next_fetch,
                ..old(self).prio_of(*project_key_pair)
            }),
            Self::index_preserved(*old(self), *final(self)),
            Self::counts_preserved(*old(self), *final(self)),
            final(self).spec_partition_id() == old(self).spec_partition_id(),
    {
        let ip = project_key_pair.encoded();
        match self.find_entry(ip) {
            None => {
                proof {
                    if old(self).has_pair(*project_key_pair) {
                        let j = old(self).index_of_pair(*project_key_pair);
                        old(self).lemma_at(j);
                        assert(false);
                    }
                }
            },
            Some(i) => {
                proof {
                    old(self).lemma_at(i as int);
                    assert(old(self).entries@[i as int].pair == *project_key_pair);
                }
                let mut entry = self.entries.remove(i);
                entry.priority.next_project_fetch = next_fetch;
                let ep = encode_priority(&entry.priority);
                self.entries.insert(i, entry);
                proof {
                    assert(queue_entries(self.priority_queue).dom().contains(ip));
                }
                let _o = queue_change_priority(&mut self.priority_queue, ip, ep);
                proof {
                    let pre = *old(self);
                    assert(self.entries@ =~= pre.entries@.update(
                        i as int,
                        self.entries@[i as int],
                    ));
                    self.lemma_frame_update(pre, i as int);
                    self.lemma_queue_after_update(pre, i as int);
                    self.lemma_index_after_same_pairs(pre);
                }
            },
        }
    }

    /// Marks a stack as seen: its next fetch deadline moves `next_fetch`
    /// nanoseconds past now, saturating, so that not-ready stacks the
    /// consumer just looked at stop blocking the head of the line. Only this
    /// method advances the fetch debounce.
    pub fn mark_seen(&mut self, project_key_pair: &ProjectKeyPair, next_fetch: u64)
        requires
            old(self).wf(),
        ensures
            final(self).wf(),
            final(self).pair_count() == old(self).pair_count(),
            forall|q: ProjectKeyPair| (#[trigger] final(self).has_pair(q)) == old(self).has_pair(q),
            forall|q: ProjectKeyPair| #[trigger]
                old(self).has_pair(q) ==> final(self).contents_of(q) == old(self).contents_of(q),
            forall|q: ProjectKeyPair|
                q != *project_key_pair && #[trigger] old(self).has_pair(q)
                    ==> final(self).prio_of(q) == old(self).prio_of(q),
            old(self).has_pair(*project_key_pair)
                ==> final(self).prio_of(*project_key_pair).readiness
                    == old(self).prio_of(*project_key_pair).readiness
                    && final(self).prio_of(*project_key_pair).received_at
                    == old(self).prio_of(*project_key_pair).received_at,
            old(self).has_pair(*project_key_pair)
                ==> final(self).prio_of(*project_key_pair).next_project_fetch >= next_fetch,
            old(self).has_pair(*project_key_pair) ==> (exists|at: u64|
                final(self).prio_of(*project_key_pair).next_project_fetch
                    == #[trigger] Self::seen_deadline(at, next_fetch)),
            Self::index_preserved(*old(self), *final(self)),
            Self::counts_preserved(*old(self), *final(self)),
            final(self).spec_partition_id() == old(self).spec_partition_id(),
    {
        let at = crate::clock::current_instant();
        let deadline = if at <= u64::MAX - next_fetch {
            at + next_fetch
        } else {
            u64::MAX
        };
        proof {
            assert(deadline == Self::seen_deadline(at, next_fetch));
            assert(deadline >= next_fetch);
        }
        self.mark_seen_at(project_key_pair, deadline);
    }

    /// `p` as re-prioritized by `mark_ready(k, v)`: each readiness slot
    /// whose key is `k` is set to `v`.
    pub open spec fn readiness_toward(p: Priority, q: ProjectKeyPair, k: ProjectKey, v: bool) -> Priority {
        Priority {
            readiness: Readiness {
                own_project_ready: if q.own_key == k {
                    v
                } else {
                    p.readiness.own_project_ready
                },
                sampling_project_ready: if q.sampling_key == k {
                    v
                } else {
                    p.readiness.sampling_project_ready
                },
            },
            received_at: p.received_at,
            next_project_fetch: p.next_project_fetch,
        }
    }

    /// `mark_ready(k, v)` would change some readiness slot of `q`.
    pub open spec fn wants_flip(b: Self, q: ProjectKeyPair, k: ProjectKey, v: bool) -> bool {
        b.has_pair(q) && ((q.own_key == k && b.prio_of(q).readiness.own_project_ready != v) || (
        q.sampling_key == k && b.prio_of(q).readiness.sampling_project_ready != v))
    }

    /// Sets the readiness of `project` in every stack it participates in and
    /// re-sorts them; stacks, counters and the index stay. Returns whether
    /// any readiness flag actually changed.
    #[verifier::rlimit(100)]
    pub fn mark_ready(&mut self, project: &ProjectKey, is_ready: bool) -> (changed: bool)
        requires
            old(self).wf(),
        ensures
            final(self).wf(),
            final(self).pair_count() == old(self).pair_count(),
            forall|q: ProjectKeyPair| (#[trigger] final(self).has_pair(q)) == old(self).has_pair(q),
            forall|q: ProjectKeyPair| #[trigger]
                old(self).has_pair(q) ==> final(self).contents_of(q) == old(self).contents_of(q)
                    && final(self).prio_of(q) == Self::readiness_toward(
                    old(self).prio_of(q),
                    q,
                    *project,
                    is_ready,
                ),
            Self::index_preserved(*old(self), *final(self)),
            Self::counts_preserved(*old(self), *final(self)),
            final(self).spec_partition_id() == old(self).spec_partition_id(),
            changed == exists|q: ProjectKeyPair| #[trigger]
                Self::wants_flip(*old(self), q, *project, is_ready),
    {
        let ghost pre = *old(self);
        let ghost key = *project;
        let pairs = self.stacks_by_project.pairs_for(project.value);
        let mut changed = false;
        let mut n: usize = 0;
        while n < pairs.len()
            invariant
                pre == *old(self),
                key == *project,
                pre.wf(),
                self.wf(),
                0 <= n <= pairs@.len(),
                pairs@.no_duplicates(),
                forall|pe: (u128, u128)| #[trigger]
                    pairs@.contains(pe) <==> (index_pairs(pre.stacks_by_project).dom().contains(
                        key.value,
                    ) && index_pairs(pre.stacks_by_project)[key.value].contains(pe)),
                self.stacks_by_project == pre.stacks_by_project,
                self.pair_count() == pre.pair_count(),
                forall|q: ProjectKeyPair| (#[trigger] self.has_pair(q)) == pre.has_pair(q),
                forall|q: ProjectKeyPair| #[trigger]
                    pre.has_pair(q) ==> self.contents_of(q) == pre.contents_of(q),
                forall|q: ProjectKeyPair| #[trigger]
                    pre.has_pair(q) ==> self.prio_of(q) == (if pairs@.take(n as int).contains(
                        q.spec_encoded(),
                    ) {
                        Self::readiness_toward(pre.prio_of(q), q, key, is_ready)
                    } else {
                        pre.prio_of(q)
                    }),
                Self::counts_preserved(pre, *self),
                self.spec_partition_id() == pre.spec_partition_id(),
                changed == exists|q: ProjectKeyPair|
                    #![trigger Self::wants_flip(pre, q, key, is_ready)]
                    Self::wants_flip(pre, q, key, is_ready) && pairs@.take(n as int).contains(
                        q.spec_encoded(),
                    ),
            decreases pairs@.len() - n,
        {
            let pe = pairs[n];
            proof {
                assert(pairs@.contains(pe));
            }
            match self.find_entry(pe) {
                None => {
                    proof {
                        let j = choose|j: int|
                            0 <= j < pre.entries@.len() && (
                            #[trigger] pre.entries@[j].pair).spec_encoded() == pe && (
                            pre.entries@[j].pair.own_key.value == key.value
                                || pre.entries@[j].pair.sampling_key.value == key.value);
                        pre.lemma_at(j);
                        assert(self.has_pair(pre.entries@[j].pair));
                        let jj = self.index_of_pair(pre.entries@[j].pair);
                        self.lemma_at(jj);
                        assert(false);
                    }
                    vstd::pervasive::unreached()
                },
                Some(i) => {
                    let ghost mid = *self;
                    proof {
                        mid.lemma_at(i as int);
                    }
                    let ghost qp = mid.entries@[i as int].pair;
                    proof {
                        let j = choose|j: int|
                            0 <= j < pre.entries@.len() && (
                            #[trigger] pre.entries@[j].pair).spec_encoded() == pe && (
                            pre.entries@[j].pair.own_key.value == key.value
                                || pre.entries@[j].pair.sampling_key.value == key.value);
                        pre.lemma_at(j);
                        assert(pre.entries@[j].pair.spec_encoded() == qp.spec_encoded());
                        assert(qp == pre.entries@[j].pair);
                        assert(qp.own_key == key || qp.sampling_key == key);
                        assert(pre.has_pair(qp));
                        assert(!pairs@.take(n as int).contains(qp.spec_encoded())) by {
                            if pairs@.take(n as int).contains(qp.spec_encoded()) {
                                let m = choose|m: int|
                                    #![trigger pairs@.take(n as int)[m]]
                                    0 <= m < n && pairs@.take(n as int)[m] == qp.spec_encoded();
                                assert(pairs@[m] == pairs@[n as int]);
                                assert(false);
                            }
                        }
                        assert(mid.prio_of(qp) == pre.prio_of(qp));
                    }
                    let mut entry = self.entries.remove(i);
                    if entry.pair.own_key.value == project.value {
                        proof {
                            assert(qp.own_key == key);
                        }
                        if entry.priority.readiness.own_project_ready != is_ready {
                            changed = true;
                        }
                        entry.priority.readiness.own_project_ready = is_ready;
                    }
                    if entry.pair.sampling_key.value == project.value {
                        proof {
                            assert(qp.sampling_key == key);
                        }
                        if entry.priority.readiness.sampling_project_ready != is_ready {
                            changed = true;
                        }
                        entry.priority.readiness.sampling_project_ready = is_ready;
                    }
                    let ep = encode_priority(&entry.priority);
                    self.entries.insert(i, entry);
                    proof {
                        assert(queue_entries(self.priority_queue).dom().contains(pe));
                    }
                    let _o = queue_change_priority(&mut self.priority_queue, pe, ep);
                    proof {
                        assert(self.entries@ =~= mid.entries@.update(
                            i as int,
                            self.entries@[i as int],
                        ));
                        self.lemma_frame_update(mid, i as int);
                        self.lemma_queue_after_update(mid, i as int);
                        self.lemma_index_after_same_pairs(mid);
                        assert(self.prio_of(qp) == Self::readiness_toward(
                            pre.prio_of(qp),
                            qp,
                            key,
                            is_ready,
                        ));
                        assert(pairs@.take(n + 1).drop_last() =~= pairs@.take(n as int));
                        assert(pairs@.take(n + 1).last() == pe);
                        assert forall|q: ProjectKeyPair| #[trigger]
                            pre.has_pair(q) implies self.prio_of(q) == (if pairs@.take(
                            n + 1,
                        ).contains(q.spec_encoded()) {
                            Self::readiness_toward(pre.prio_of(q), q, key, is_ready)
                        } else {
                            pre.prio_of(q)
                        }) by {
                            if q == qp {
                                assert(pairs@.take(n + 1)[n as int] == pe);
                                assert(pairs@.take(n + 1).contains(q.spec_encoded()));
                            } else {
                                assert(q.spec_encoded() != pe);
                                assert(pairs@.take(n + 1).contains(q.spec_encoded())
                                    == pairs@.take(n as int).contains(q.spec_encoded())) by {
                                    if pairs@.take(n + 1).contains(q.spec_encoded()) {
                                        let m = choose|m: int|
                                            #![trigger pairs@.take(n + 1)[m]]
                                            0 <= m < n + 1 && pairs@.take(n + 1)[m]
                                                == q.spec_encoded();
                                        assert(m != n);
                                        assert(pairs@.take(n as int)[m] == q.spec_encoded());
                                        assert(pairs@.take(n as int).contains(q.spec_encoded()));
                                    }
                                    if pairs@.take(n as int).contains(q.spec_encoded()) {
                                        let m = choose|m: int|
                                            #![trigger pairs@.take(n as int)[m]]
                                            0 <= m < n && pairs@.take(n as int)[m]
                                                == q.spec_encoded();
                                        assert(pairs@.take(n + 1)[m] == q.spec_encoded());
                                        assert(pairs@.take(n + 1).contains(q.spec_encoded()));
                                    }
                                }
                            }
                        }
                        assert(changed == exists|q: ProjectKeyPair|
                            #![trigger Self::wants_flip(pre, q, key, is_ready)]
                            Self::wants_flip(pre, q, key, is_ready) && pairs@.take(n + 1).contains(
                                q.spec_encoded(),
                            )) by {
                            if changed {
                                if Self::wants_flip(pre, qp, key, is_ready) {
                                    assert(pairs@.take(n + 1)[n as int] == pe);
                                    assert(pairs@.take(n + 1).contains(qp.spec_encoded()));
                                } else {
                                    let q0 = choose|q: ProjectKeyPair|
                                        #![trigger Self::wants_flip(pre, q, key, is_ready)]
                                        Self::wants_flip(pre, q, key, is_ready) && pairs@.take(
                                            n as int,
                                        ).contains(q.spec_encoded());
                                    let m = choose|m: int|
                                        #![trigger pairs@.take(n as int)[m]]
                                        0 <= m < n && pairs@.take(n as int)[m]
                                            == q0.spec_encoded();
                                    assert(pairs@.take(n + 1)[m] == q0.spec_encoded());
                                    assert(pairs@.take(n + 1).contains(q0.spec_encoded()));
                                }
                            } else {
                                assert forall|q: ProjectKeyPair|
                                    #![trigger Self::wants_flip(pre, q, key, is_ready)]
                                    !(Self::wants_flip(pre, q, key, is_ready) && pairs@.take(
                                        n + 1,
                                    ).contains(q.spec_encoded())) by {
                                    if Self::wants_flip(pre, q, key, is_ready) && pairs@.take(
                                        n + 1,
                                    ).contains(q.spec_encoded()) {
                                        if q == qp {
                                            assert(false);
                                        } else {
                                            let m = choose|m: int|
                                                #![trigger pairs@.take(n + 1)[m]]
                                                0 <= m < n + 1 && pairs@.take(n + 1)[m]
                                                    == q.spec_encoded();
                                            assert(m != n);
                                            assert(pairs@.take(n as int)[m]
                                                == q.spec_encoded());
                                            assert(pairs@.take(n as int).contains(
                                                q.spec_encoded(),
                                            ));
                                            assert(false);
                                        }
                                    }
                                }
                            }
                        }
                    }
                    n = n + 1;
                },
            }
        }
        proof {
            assert(pairs@.take(pairs@.len() as int) =~= pairs@);
            assert forall|q: ProjectKeyPair| #[trigger]
                pre.has_pair(q) implies self.prio_of(q) == Self::readiness_toward(
                pre.prio_of(q),
                q,
                key,
                is_ready,
            ) by {
                if pairs@.contains(q.spec_encoded()) {
                } else {
                    let j = pre.index_of_pair(q);
                    pre.lemma_at(j);
                    assert(pre.in_index(q.own_key, q));
                    assert(pre.in_index(q.sampling_key, q));
                    if q.own_key == key || q.sampling_key == key {
                        assert(pre.in_index(key, q));
                        assert(pairs@.contains(q.spec_encoded()));
                        assert(false);
                    }
                    assert(Self::readiness_toward(pre.prio_of(q), q, key, is_ready)
                        == pre.prio_of(q));
                }
            }
            assert(changed == exists|q: ProjectKeyPair| #[trigger]
                Self::wants_flip(pre, q, key, is_ready)) by {
                if changed {
                } else {
                    if exists|q: ProjectKeyPair| #[trigger]
                        Self::wants_flip(pre, q, key, is_ready) {
                        let q = choose|q: ProjectKeyPair| #[trigger]
                            Self::wants_flip(pre, q, key, is_ready);
                        let j = pre.index_of_pair(q);
                        pre.lemma_at(j);
                        assert(pre.in_index(key, q));
                        assert(pairs@.contains(q.spec_encoded()));
                        assert(false);
                    }
                }
            }
        }
        changed
    }

    /// Re-materializes a stack for every listed pair that still holds
    /// envelopes in the store, keyed by its surviving top envelope; pairs
    /// already buffered, and pairs whose stack comes back empty, are left
    /// alone. A storage failure stops the loading and is passed on.
    pub fn load_stacks(&mut self, project_key_pairs: Vec<ProjectKeyPair>) -> (r: Result<
        (),
        EnvelopeBufferError,
    >)
        requires
            old(self).wf(),
        ensures
            final(self).wf(),
            Self::counts_preserved(*old(self), *final(self)),
            forall|q: ProjectKeyPair| #[trigger]
                old(self).has_pair(q) ==> final(self).has_pair(q)
                    && final(self).contents_of(q) == old(self).contents_of(q)
                    && final(self).prio_of(q) == old(self).prio_of(q),
            forall|q: ProjectKeyPair| #[trigger]
                final(self).has_pair(q)
                    ==> old(self).has_pair(q) || project_key_pairs@.contains(q),
            forall|q: ProjectKeyPair|
                #[trigger] final(self).has_pair(q) && !old(self).has_pair(q)
                    ==> final(self).prio_of(q).readiness.own_project_ready
                    && final(self).prio_of(q).readiness.sampling_project_ready,
            (forall|i: int|
                0 <= i < project_key_pairs@.len() ==> old(self).has_pair(
                    #[trigger] project_key_pairs@[i],
                )) ==> (r is Ok),
            <P::Stack as EnvelopeStack>::spec_infallible() ==> (r is Ok),
            final(self).spec_partition_id() == old(self).spec_partition_id(),
    {
        let ghost pre = *old(self);
        let mut n: usize = 0;
        while n < project_key_pairs.len()
            invariant
                pre == *old(self),
                pre.wf(),
                self.wf(),
                0 <= n <= project_key_pairs@.len(),
                Self::counts_preserved(pre, *self),
                forall|q: ProjectKeyPair| #[trigger]
                    pre.has_pair(q) ==> self.has_pair(q) && self.contents_of(q)
                        == pre.contents_of(q) && self.prio_of(q) == pre.prio_of(q),
                forall|q: ProjectKeyPair| #[trigger]
                    self.has_pair(q) ==> pre.has_pair(q) || project_key_pairs@.contains(q),
                forall|q: ProjectKeyPair|
                    #[trigger] self.has_pair(q) && !pre.has_pair(q)
                        ==> self.prio_of(q).readiness.own_project_ready
                        && self.prio_of(q).readiness.sampling_project_ready,
                self.spec_partition_id() == pre.spec_partition_id(),
            decreases project_key_pairs@.len() - n,
        {
            let pair = project_key_pairs[n];
            let ip = pair.encoded();
            match self.find_entry(ip) {
                Some(_) => {},
                None => {
                    proof {
                        if self.has_pair(pair) {
                            let j = self.index_of_pair(pair);
                            self.lemma_at(j);
                            assert(false);
                        }
                    }
                    let ghost mid = *self;
                    let mut stack = self.stack_provider.create_stack(
                        StackCreationType::Initialization,
                        pair,
                    );
                    let peeked = stack.peek();
                    match peeked {
                        Err(er) => {
                            proof {
                                self.lemma_core_eq(mid);
                                assert(!pre.has_pair(project_key_pairs@[n as int]));
                            }
                            return Err(er);
                        },
                        Ok(None) => {
                            proof {
                                self.lemma_core_eq(mid);
                            }
                        },
                        Ok(Some(t)) => {
                            let now = crate::clock::current_instant();
                            let ghost mid2 = *self;
                            proof {
                                mid2.lemma_core_eq(mid);
                            }
                            self.push_stack(pair, stack, t, now);
                            proof {
                                assert forall|q: ProjectKeyPair| #[trigger]
                                    self.has_pair(q) implies pre.has_pair(q)
                                    || project_key_pairs@.contains(q) by {
                                    if q != pair {
                                        assert(self.has_pair(q) == mid2.has_pair(q));
                                        assert(mid2.has_pair(q) == mid.has_pair(q));
                                    } else {
                                        assert(project_key_pairs@[n as int] == pair);
                                    }
                                }
                                assert forall|q: ProjectKeyPair| #[trigger]
                                    pre.has_pair(q) implies self.has_pair(q)
                                    && self.contents_of(q) == pre.contents_of(q)
                                    && self.prio_of(q) == pre.prio_of(q) by {
                                    assert(q != pair);
                                    assert(mid.has_pair(q) && mid.contents_of(q)
                                        == pre.contents_of(q) && mid.prio_of(q) == pre.prio_of(
                                        q,
                                    ));
                                    assert(mid2.has_pair(q) && mid2.contents_of(q)
                                        == mid.contents_of(q) && mid2.prio_of(q) == mid.prio_of(
                                        q,
                                    ));
                                    assert(self.has_pair(q));
                                    assert(self.contents_of(q) == mid2.contents_of(q)
                                        && self.prio_of(q) == mid2.prio_of(q));
                                }
                                assert forall|q: ProjectKeyPair|
                                    #[trigger] self.has_pair(q) && !pre.has_pair(q)
                                    implies self.prio_of(q).readiness.own_project_ready
                                    && self.prio_of(q).readiness.sampling_project_ready by {
                                    if q != pair {
                                        assert(self.has_pair(q) == mid2.has_pair(q));
                                        assert(mid2.has_pair(q) == mid.has_pair(q));
                                        assert(mid.has_pair(q) && !pre.has_pair(q));
                                        assert(mid.prio_of(q).readiness.own_project_ready
                                            && mid.prio_of(q).readiness.sampling_project_ready);
                                        assert(mid2.prio_of(q) == mid.prio_of(q));
                                        assert(self.prio_of(q) == mid2.prio_of(q));
                                    }
                                }
                            }
                        },
                    }
                },
            }
            n = n + 1;
        }
        Ok(())
    }

    /// The counter state a store report yields: a reported count is clamped
    /// into the counter's range and marked initialized; a missing report —
    /// the store could not answer in bounded time — resets the count to
    /// zero with the flag down.
    pub open spec fn spec_applied_count(reported: Option<u64>) -> (i64, bool) {
        match reported {
            Some(c) => (
                (if c <= i64::MAX as u64 {
                    c as i64
                } else {
                    i64::MAX
                }),
                true,
            ),
            None => (0i64, false),
        }
    }

    /// Fixes the counters from the store's report: the contracted step that
    /// [`Self::load_store_total_count`] applies to exactly what the
    /// provider returned.
    pub fn apply_store_count(&mut self, reported: Option<u64>)
        requires
            old(self).wf(),
        ensures
            final(self).wf(),
            final(self).pair_count() == old(self).pair_count(),
            forall|q: ProjectKeyPair| (#[trigger] final(self).has_pair(q)) == old(self).has_pair(q),
            forall|q: ProjectKeyPair| #[trigger]
                old(self).has_pair(q) ==> final(self).contents_of(q) == old(self).contents_of(q)
                    && final(self).prio_of(q) == old(self).prio_of(q),
            Self::index_preserved(*old(self), *final(self)),
            final(self).spec_tracked_count() == old(self).spec_tracked_count(),
            final(self).spec_partition_id() == old(self).spec_partition_id(),
            final(self).spec_total_count() == Self::spec_applied_count(reported).0,
            final(self).spec_total_count_initialized() == Self::spec_applied_count(reported).1,
    {
        match reported {
            Some(count) => {
                self.total_count = if count <= i64::MAX as u64 {
                    count as i64
                } else {
                    i64::MAX
                };
                self.total_count_initialized = true;
            },
            None => {
                self.total_count = 0;
                self.total_count_initialized = false;
            },
        }
    }

    /// Loads the store's surviving envelope count and applies it through
    /// the contracted [`Self::apply_store_count`] step: the counters equal
    /// what some report of the provider yields — a taken report clamped and
    /// flagged, or the zero-and-downgraded state when none came in time.
    /// Only telemetry accuracy is affected.
    pub fn load_store_total_count(&mut self)
        requires
            old(self).wf(),
        ensures
            final(self).wf(),
            final(self).pair_count() == old(self).pair_count(),
            forall|q: ProjectKeyPair| (#[trigger] final(self).has_pair(q)) == old(self).has_pair(q),
            forall|q: ProjectKeyPair| #[trigger]
                old(self).has_pair(q) ==> final(self).contents_of(q) == old(self).contents_of(q)
                    && final(self).prio_of(q) == old(self).prio_of(q),
            Self::index_preserved(*old(self), *final(self)),
            final(self).spec_tracked_count() == old(self).spec_tracked_count(),
            final(self).spec_partition_id() == old(self).spec_partition_id(),
            exists|reported: Option<u64>|
                final(self).spec_total_count() == (#[trigger] Self::spec_applied_count(
                    reported,
                )).0 && final(self).spec_total_count_initialized() == Self::spec_applied_count(
                    reported,
                ).1,
            final(self).spec_total_count_initialized() ==> final(self).spec_total_count() >= 0,
            !final(self).spec_total_count_initialized() ==> final(self).spec_total_count() == 0,
    {
        let reported = self.stack_provider.store_total_count();
        let ghost s1 = *self;
        proof {
            self.lemma_core_eq(*old(self));
        }
        self.apply_store_count(reported);
        proof {
            assert forall|q: ProjectKeyPair| #[trigger]
                old(self).has_pair(q) implies self.contents_of(q) == old(self).contents_of(q)
                && self.prio_of(q) == old(self).prio_of(q) by {
                assert(s1.has_pair(q));
            }
            assert(self.spec_total_count() == Self::spec_applied_count(reported).0
                && self.spec_total_count_initialized() == Self::spec_applied_count(reported).1);
        }
    }

    /// Initializes the buffer: re-materializes the stacks that survived in
    /// the provider's store, then loads the store's envelope count for
    /// telemetry. Called once before use; a storage failure is passed on
    /// with the count not yet loaded.
    pub fn initialize(&mut self) -> (r: Result<(), EnvelopeBufferError>)
        requires
            old(self).wf(),
        ensures
            final(self).wf(),
            final(self).spec_tracked_count() == old(self).spec_tracked_count(),
            forall|q: ProjectKeyPair| #[trigger]
                old(self).has_pair(q) ==> final(self).has_pair(q)
                    && final(self).contents_of(q) == old(self).contents_of(q)
                    && final(self).prio_of(q) == old(self).prio_of(q),
            r is Ok ==> (final(self).spec_total_count_initialized()
                ==> final(self).spec_total_count() >= 0),
            r is Ok ==> (!final(self).spec_total_count_initialized()
                ==> final(self).spec_total_count() == 0),
            r is Ok ==> (exists|reported: Option<u64>|
                final(self).spec_total_count() == (#[trigger] Self::spec_applied_count(
                    reported,
                )).0 && final(self).spec_total_count_initialized() == Self::spec_applied_count(
                    reported,
                ).1),
            <P::Stack as EnvelopeStack>::spec_infallible() ==> (r is Ok),
            forall|q: ProjectKeyPair|
                #[trigger] final(self).has_pair(q) && !old(self).has_pair(q)
                    ==> final(self).prio_of(q).readiness.own_project_ready
                    && final(self).prio_of(q).readiness.sampling_project_ready,
            final(self).spec_partition_id() == old(self).spec_partition_id(),
    {
        let pairs = self.stack_provider.initialize();
        let ghost s1 = *self;
        proof {
            self.lemma_core_eq(*old(self));
        }
        match self.load_stacks(pairs) {
            Ok(_) => {},
            Err(er) => {
                proof {
                    assert forall|q: ProjectKeyPair| #[trigger]
                        old(self).has_pair(q) implies self.has_pair(q) && self.contents_of(q)
                        == old(self).contents_of(q) && self.prio_of(q) == old(self).prio_of(
                        q,
                    ) by {
                        assert(s1.has_pair(q));
                    }
                }
                return Err(er);
            },
        }
        let ghost s2 = *self;
        self.load_store_total_count();
        proof {
            assert forall|q: ProjectKeyPair| #[trigger]
                old(self).has_pair(q) implies self.has_pair(q) && self.contents_of(q) == old(
                self,
            ).contents_of(q) && self.prio_of(q) == old(self).prio_of(q) by {
                assert(s1.has_pair(q));
                assert(s2.has_pair(q) && s2.contents_of(q) == s1.contents_of(q) && s2.prio_of(q)
                    == s1.prio_of(q));
            }
            assert forall|q: ProjectKeyPair|
                #[trigger] self.has_pair(q) && !old(self).has_pair(q) implies self.prio_of(
                q,
            ).readiness.own_project_ready && self.prio_of(
                q,
            ).readiness.sampling_project_ready by {
                assert(s2.has_pair(q));
                assert(!s1.has_pair(q));
                assert(s2.prio_of(q).readiness.own_project_ready
                    && s2.prio_of(q).readiness.sampling_project_ready);
            }
        }
        Ok(())
    }

    /// Removes every stack from the buffer — queue and reverse index
    /// emptied in the same step — and hands them all back: one per
    /// previously buffered pair, each with its contents intact, so that
    /// nothing is dropped on the way to the provider. The counters are left
    /// as they were.
    pub fn drain_stacks(&mut self) -> (r: Vec<P::Stack>)
        requires
            old(self).wf(),
        ensures
            final(self).wf(),
            final(self).pair_count() == 0,
            forall|q: ProjectKeyPair| !(#[trigger] final(self).has_pair(q)),
            forall|k: ProjectKey, q: ProjectKeyPair| !(#[trigger] final(self).in_index(k, q)),
            forall|k: ProjectKey| !(#[trigger] final(self).index_has_key(k)),
            Self::counts_preserved(*old(self), *final(self)),
            final(self).spec_partition_id() == old(self).spec_partition_id(),
            r@.len() == old(self).pair_count(),
            forall|q: ProjectKeyPair| #[trigger]
                old(self).has_pair(q) ==> exists|i: int|
                    0 <= i < r@.len() && (#[trigger] r@[i].contents()) == old(self).contents_of(
                        q,
                    ),
    {
        self.priority_queue = queue_new();
        self.stacks_by_project = ProjectIndex::new();
        let mut stacks: Vec<P::Stack> = Vec::new();
        while self.entries.len() > 0
            invariant
                queue_entries(self.priority_queue).dom() == Set::<(u128, u128)>::empty(),
                index_pairs(self.stacks_by_project).dom() == Set::<u128>::empty(),
                self.total_count == old(self).spec_total_count(),
                self.tracked_count == old(self).spec_tracked_count(),
                self.total_count_initialized == old(self).spec_total_count_initialized(),
                self.partition_id == old(self).spec_partition_id(),
                self.entries@.len() + stacks@.len() == old(self).pair_count(),
                self.entries@ == old(self).entries@.take(self.entries@.len() as int),
                forall|j: int|
                    0 <= j < stacks@.len() ==> (#[trigger] stacks@[j].contents())
                        == old(self).entries@[old(self).pair_count() - 1 - j].stack.contents(),
            decreases self.entries@.len(),
        {
            let ghost len_before = self.entries@.len();
            match self.entries.pop() {
                Some(entry) => {
                    proof {
                        assert(entry == old(self).entries@.take(len_before as int).last());
                        assert(old(self).entries@.take(len_before as int).last()
                            == old(self).entries@[len_before - 1]);
                        assert(self.entries@ =~= old(self).entries@.take(len_before - 1));
                    }
                    stacks.push(entry.stack);
                },
                None => {},
            }
        }
        proof {
            assert forall|q: ProjectKeyPair| #[trigger]
                old(self).has_pair(q) implies exists|i: int|
                0 <= i < stacks@.len() && (#[trigger] stacks@[i].contents()) == old(
                    self,
                ).contents_of(q) by {
                let j = old(self).index_of_pair(q);
                old(self).lemma_at(j);
                let i = old(self).pair_count() - 1 - j;
                assert(stacks@[i].contents() == old(self).entries@[j].stack.contents());
            }
        }
        stacks
    }

    /// Empties the buffer, handing every stack — drained by the contracted
    /// [`Self::drain_stacks`] step — to the provider, to be persisted where
    /// a store exists. The buffer stays usable; the counters are left as
    /// they were.
    pub fn flush(&mut self)
        requires
            old(self).wf(),
        ensures
            final(self).wf(),
            final(self).pair_count() == 0,
            forall|q: ProjectKeyPair| !(#[trigger] final(self).has_pair(q)),
            forall|k: ProjectKey, q: ProjectKeyPair| !(#[trigger] final(self).in_index(k, q)),
            forall|k: ProjectKey| !(#[trigger] final(self).index_has_key(k)),
            Self::counts_preserved(*old(self), *final(self)),
            final(self).spec_partition_id() == old(self).spec_partition_id(),
    {
        let stacks = self.drain_stacks();
        let ghost mid = *self;
        self.stack_provider.flush(stacks);
        proof {
            self.lemma_core_eq(mid);
        }
    }

    /// The pairs the reverse index lists under `project`: with the buffer
    /// well-formed, exactly the buffered pairs that contain the key.
    pub fn project_pairs(&self, project: &ProjectKey) -> (r: Vec<ProjectKeyPair>)
        ensures
            forall|q: ProjectKeyPair| #[trigger] r@.contains(q) <==> self.in_index(*project, q),
    {
        let encoded = self.stacks_by_project.pairs_for(project.value);
        let mut r: Vec<ProjectKeyPair> = Vec::new();
        let mut n: usize = 0;
        while n < encoded.len()
            invariant
                0 <= n <= encoded@.len(),
                forall|pe: (u128, u128)| #[trigger]
                    encoded@.contains(pe) <==> (index_pairs(self.stacks_by_project).dom().contains(
                        project.value,
                    ) && index_pairs(self.stacks_by_project)[project.value].contains(pe)),
                r@.len() == n,
                forall|m: int|
                    0 <= m < n ==> (#[trigger] r@[m]).spec_encoded() == encoded@[m],
            decreases encoded@.len() - n,
        {
            let pe = encoded[n];
            r.push(
                ProjectKeyPair {
                    own_key: ProjectKey { value: pe.0 },
                    sampling_key: ProjectKey { value: pe.1 },
                },
            );
            n = n + 1;
        }
        proof {
            assert forall|q: ProjectKeyPair| #[trigger]
                r@.contains(q) <==> self.in_index(*project, q) by {
                if r@.contains(q) {
                    let m = choose|m: int| 0 <= m < r@.len() && r@[m] == q;
                    assert(encoded@[m] == q.spec_encoded());
                    assert(encoded@.contains(q.spec_encoded()));
                }
                if self.in_index(*project, q) {
                    assert(encoded@.contains(q.spec_encoded()));
                    let m = choose|m: int|
                        0 <= m < encoded@.len() && encoded@[m] == q.spec_encoded();
                    assert(r@[m].spec_encoded() == q.spec_encoded());
                    assert(r@[m] == q);
                    assert(r@.contains(q));
                }
            }
        }
        r
    }

    /// The reverse index lists exactly the buffered pairs, each under
    /// exactly the keys it contains: the index and the queue never drift
    /// apart.
    pub proof fn lemma_index_exact(&self, k: ProjectKey, p: ProjectKeyPair)
        requires
            self.wf(),
        ensures
            self.in_index(k, p) <==> (self.has_pair(p) && p.contains_key(k)),
    {
        if self.in_index(k, p) {
            let j = choose|j: int|
                0 <= j < self.entries@.len() && (#[trigger] self.entries@[j].pair).spec_encoded()
                    == p.spec_encoded() && (self.entries@[j].pair.own_key.value == k.value
                    || self.entries@[j].pair.sampling_key.value == k.value);
            self.lemma_at(j);
            assert(self.entries@[j].pair == p);
        }
        if self.has_pair(p) && p.contains_key(k) {
            let j = self.index_of_pair(p);
            self.lemma_at(j);
            assert(self.in_index(p.own_key, p));
            assert(self.in_index(p.sampling_key, p));
        }
    }

    /// Every buffered stack is non-empty and its priority carries the
    /// received-at of the envelope the next pop would return.
    pub proof fn lemma_priority_tracks_top(&self, p: ProjectKeyPair)
        requires
            self.wf(),
            self.has_pair(p),
        ensures
            self.contents_of(p).len() > 0,
            self.prio_of(p).received_at == self.contents_of(p).last().received_at,
    {
        let j = self.index_of_pair(p);
        self.lemma_at(j);
    }

    /// A buffered pair means a non-empty buffer.
    pub proof fn lemma_has_pair_nonempty(&self, p: ProjectKeyPair)
        requires
            self.has_pair(p),
        ensures
            self.pair_count() > 0,
    {
    }

    /// Every envelope on `p`'s stack belongs to `p`: stacks are homogeneous.
    pub proof fn lemma_contents_belong(&self, p: ProjectKeyPair)
        requires
            self.wf(),
            self.has_pair(p),
        ensures
            forall|e: int|
                0 <= e < self.contents_of(p).len() ==> ProjectKeyPair::spec_from_envelope(
                    #[trigger] self.contents_of(p)[e],
                ) == p,
    {
        let j = self.index_of_pair(p);
        self.lemma_at(j);
    }

    /// The reverse index after a pair is recorded under each of its keys.
    pub open spec fn index_after_create(
        m0: Map<u128, Set<(u128, u128)>>,
        pair: ProjectKeyPair,
    ) -> Map<u128, Set<(u128, u128)>> {
        let pe = pair.spec_encoded();
        let m1 = m0.insert(
            pair.own_key.value,
            (if m0.dom().contains(pair.own_key.value) {
                m0[pair.own_key.value]
            } else {
                Set::<(u128, u128)>::empty()
            }).insert(pe),
        );
        if pair.sampling_key.value != pair.own_key.value {
            m1.insert(
                pair.sampling_key.value,
                (if m1.dom().contains(pair.sampling_key.value) {
                    m1[pair.sampling_key.value]
                } else {
                    Set::<(u128, u128)>::empty()
                }).insert(pe),
            )
        } else {
            m1
        }
    }
}

} // verus!
