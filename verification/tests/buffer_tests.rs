use envelope_buffer::buffer::{EnvelopeBuffer, Peek};
use envelope_buffer::envelope::Envelope;
use envelope_buffer::keys::{ProjectKey, ProjectKeyPair};
use envelope_buffer::provider::MemoryStackProvider;

fn new_envelope(own_key: ProjectKey, sampling_key: Option<ProjectKey>, received_at: i64) -> Envelope {
    Envelope::new(own_key, sampling_key, received_at, 0)
}

fn mock_buffer() -> EnvelopeBuffer<MemoryStackProvider> {
    EnvelopeBuffer::new(0, MemoryStackProvider::new(true))
}

fn peek_received_at(buffer: &mut EnvelopeBuffer<MemoryStackProvider>) -> i64 {
    buffer.peek().last_received_at().unwrap()
}

#[test]
fn test_insert_pop() {
    let mut buffer = mock_buffer();

    let project_key1 = ProjectKey::parse("a94ae32be2584e0bbd7a4cbb95971fed").unwrap();
    let project_key2 = ProjectKey::parse("a94ae32be2584e0bbd7a4cbb95971fee").unwrap();
    let project_key3 = ProjectKey::parse("a94ae32be2584e0bbd7a4cbb95971fef").unwrap();

    assert!(buffer.pop().unwrap().is_none());
    assert!(matches!(buffer.peek(), Peek::Empty));

    let envelope1 = new_envelope(project_key1, None, 1000);
    let time1 = envelope1.received_at;
    buffer.push(envelope1).unwrap();

    let envelope2 = new_envelope(project_key2, None, 2000);
    let time2 = envelope2.received_at;
    buffer.push(envelope2).unwrap();

    // Both projects are ready, so project 2 is on top (has the newest envelopes):
    assert_eq!(peek_received_at(&mut buffer), time2);

    buffer.mark_ready(&project_key1, false);
    buffer.mark_ready(&project_key2, false);

    // Both projects are not ready, so project 1 is on top (has the oldest envelopes):
    assert_eq!(peek_received_at(&mut buffer), time1);

    let envelope3 = new_envelope(project_key3, None, 3000);
    let time3 = envelope3.received_at;
    buffer.push(envelope3).unwrap();
    buffer.mark_ready(&project_key3, false);

    // All projects are not ready, so project 1 is on top (has the oldest envelopes):
    assert_eq!(peek_received_at(&mut buffer), time1);

    // After marking a project ready, it goes to the top:
    buffer.mark_ready(&project_key3, true);
    assert_eq!(peek_received_at(&mut buffer), time3);
    assert_eq!(buffer.pop().unwrap().unwrap().own_project_key, project_key3);

    // After popping, project 1 is on top again:
    assert_eq!(peek_received_at(&mut buffer), time1);

    // Mark project 1 as ready (still on top):
    buffer.mark_ready(&project_key1, true);
    assert_eq!(peek_received_at(&mut buffer), time1);

    // Mark project 2 as ready as well (now on top because most recent):
    buffer.mark_ready(&project_key2, true);
    assert_eq!(peek_received_at(&mut buffer), time2);
    assert_eq!(buffer.pop().unwrap().unwrap().own_project_key, project_key2);

    // Pop last element:
    assert_eq!(buffer.pop().unwrap().unwrap().own_project_key, project_key1);
    assert!(buffer.pop().unwrap().is_none());
    assert!(matches!(buffer.peek(), Peek::Empty));
}

#[test]
fn test_project_internal_order() {
    let mut buffer = mock_buffer();

    let project_key = ProjectKey::parse("a94ae32be2584e0bbd7a4cbb95971fed").unwrap();

    let envelope1 = new_envelope(project_key, None, 1000);
    let time1 = envelope1.received_at;
    let envelope2 = new_envelope(project_key, None, 2000);
    let time2 = envelope2.received_at;

    assert!(time2 > time1);

    buffer.push(envelope1).unwrap();
    buffer.push(envelope2).unwrap();

    assert_eq!(buffer.pop().unwrap().unwrap().received_at, time2);
    assert_eq!(buffer.pop().unwrap().unwrap().received_at, time1);
    assert!(buffer.pop().unwrap().is_none());
}

#[test]
fn test_sampling_projects() {
    let mut buffer = mock_buffer();

    let project_key1 = ProjectKey::parse("a94ae32be2584e0bbd7a4cbb95971fed").unwrap();
    let project_key2 = ProjectKey::parse("a94ae32be2584e0bbd7a4cbb95971fef").unwrap();

    let envelope1 = new_envelope(project_key1, None, 1000);
    let time1 = envelope1.received_at;
    buffer.push(envelope1).unwrap();

    let envelope2 = new_envelope(project_key2, None, 2000);
    let time2 = envelope2.received_at;
    buffer.push(envelope2).unwrap();

    let envelope3 = new_envelope(project_key1, Some(project_key2), 3000);
    let time3 = envelope3.received_at;
    buffer.push(envelope3).unwrap();

    buffer.mark_ready(&project_key1, false);
    buffer.mark_ready(&project_key2, false);

    // Nothing is ready, time1 is on top:
    assert_eq!(buffer.peek().last_received_at().unwrap(), time1);

    // Mark project 2 ready, gets on top:
    buffer.mark_ready(&project_key2, true);
    assert_eq!(buffer.peek().last_received_at().unwrap(), time2);

    // Revert
    buffer.mark_ready(&project_key2, false);
    assert_eq!(buffer.peek().last_received_at().unwrap(), time1);

    // Project 1 ready:
    buffer.mark_ready(&project_key1, true);
    assert_eq!(buffer.peek().last_received_at().unwrap(), time1);

    // when both projects are ready, envelope no 3 ends up on top:
    buffer.mark_ready(&project_key2, true);
    assert_eq!(buffer.pop().unwrap().unwrap().received_at, time3);
    assert_eq!(buffer.peek().last_received_at().unwrap(), time2);

    buffer.mark_ready(&project_key2, false);
    assert_eq!(buffer.pop().unwrap().unwrap().received_at, time1);
    assert_eq!(buffer.pop().unwrap().unwrap().received_at, time2);

    assert!(buffer.pop().unwrap().is_none());
}

#[test]
fn test_project_keys_distinct() {
    let project_key1 = ProjectKey::parse("a94ae32be2584e0bbd7a4cbb95971fed").unwrap();
    let project_key2 = ProjectKey::parse("a94ae32be2584e0bbd7a4cbb95971fef").unwrap();

    let project_key_pair1 = ProjectKeyPair::new(project_key1, project_key2);
    let project_key_pair2 = ProjectKeyPair::new(project_key2, project_key1);

    assert_ne!(project_key_pair1, project_key_pair2);

    let mut buffer = mock_buffer();
    buffer.push(new_envelope(project_key1, Some(project_key2), 1000)).unwrap();
    buffer.push(new_envelope(project_key2, Some(project_key1), 2000)).unwrap();
    assert_eq!(buffer.stack_count(), 2);
}

#[test]
fn test_last_peek_internal_order() {
    let mut buffer = mock_buffer();

    let project_key_1 = ProjectKey::parse("a94ae32be2584e0bbd7a4cbb95971fed").unwrap();
    let envelope1 = new_envelope(project_key_1, None, 1000);
    let time1 = envelope1.received_at;

    let project_key_2 = ProjectKey::parse("b56ae32be2584e0bbd7a4cbb95971fed").unwrap();
    let envelope2 = new_envelope(project_key_2, None, 2000);
    let time2 = envelope2.received_at;

    buffer.push(envelope1).unwrap();
    buffer.push(envelope2).unwrap();

    buffer.mark_ready(&project_key_1, false);
    buffer.mark_ready(&project_key_2, false);

    // The first key pair is the first element:
    let Peek::NotReady { last_received_at, .. } = buffer.peek() else {
        panic!();
    };
    assert_eq!(last_received_at, time1);

    // Second peek returns the same element:
    let Peek::NotReady { last_received_at, project_key_pair, .. } = buffer.peek() else {
        panic!();
    };
    assert_eq!(last_received_at, time1);
    assert_ne!(last_received_at, time2);

    buffer.mark_seen(&project_key_pair, 0);

    // After mark_seen, envelope 2 is on top:
    let Peek::NotReady { last_received_at, .. } = buffer.peek() else {
        panic!();
    };
    assert_eq!(last_received_at, time2);
    assert_ne!(last_received_at, time1);

    let Peek::NotReady { last_received_at, project_key_pair, .. } = buffer.peek() else {
        panic!();
    };
    assert_eq!(last_received_at, time2);
    assert_ne!(last_received_at, time1);

    buffer.mark_seen(&project_key_pair, 0);

    // After another mark_seen, cycle back to envelope 1:
    let Peek::NotReady { last_received_at, .. } = buffer.peek() else {
        panic!();
    };
    assert_eq!(last_received_at, time1);
    assert_ne!(last_received_at, time2);
}

#[test]
fn test_tracked_count_follows_pushes_and_pops() {
    let mut buffer = mock_buffer();
    let project_key = ProjectKey::parse("a94ae32be2584e0bbd7a4cbb95971fed").unwrap();

    assert_eq!(buffer.item_count(), 0);
    buffer.push(new_envelope(project_key, None, 1000)).unwrap();
    buffer.push(new_envelope(project_key, None, 2000)).unwrap();
    assert_eq!(buffer.item_count(), 2);
    buffer.pop().unwrap();
    assert_eq!(buffer.item_count(), 1);
    buffer.pop().unwrap();
    assert_eq!(buffer.item_count(), 0);
    // A pop on an empty buffer keeps the count clamped at zero.
    assert!(buffer.pop().unwrap().is_none());
    assert_eq!(buffer.item_count(), 0);
}

#[test]
fn test_reverse_index_follows_stacks() {
    let mut buffer = mock_buffer();
    let project_key1 = ProjectKey::parse("a94ae32be2584e0bbd7a4cbb95971fed").unwrap();
    let project_key2 = ProjectKey::parse("a94ae32be2584e0bbd7a4cbb95971fef").unwrap();
    let pair = ProjectKeyPair::new(project_key1, project_key2);

    assert!(buffer.project_pairs(&project_key1).is_empty());

    buffer.push(new_envelope(project_key1, Some(project_key2), 1000)).unwrap();

    // Both keys of the pair point back at the one stack:
    assert_eq!(buffer.project_pairs(&project_key1), vec![pair]);
    assert_eq!(buffer.project_pairs(&project_key2), vec![pair]);
    assert_eq!(buffer.indexed_key_count(), 2);
    assert_eq!(buffer.stack_count(), 1);

    // Draining the stack clears the index entries (the keys may remain with
    // empty sets).
    buffer.pop().unwrap().unwrap();
    assert!(buffer.project_pairs(&project_key1).is_empty());
    assert!(buffer.project_pairs(&project_key2).is_empty());
    assert_eq!(buffer.stack_count(), 0);
}

#[test]
fn test_self_pair_indexes_one_key() {
    let mut buffer = mock_buffer();
    let project_key = ProjectKey::parse("a94ae32be2584e0bbd7a4cbb95971fed").unwrap();

    buffer.push(new_envelope(project_key, Some(project_key), 1000)).unwrap();
    // A self-pair contributes one entry under one key.
    assert_eq!(buffer.indexed_key_count(), 1);
    assert_eq!(buffer.project_pairs(&project_key), vec![ProjectKeyPair::new(project_key, project_key)]);
}

#[test]
fn test_mark_ready_reports_changes() {
    let mut buffer = mock_buffer();
    let project_key = ProjectKey::parse("a94ae32be2584e0bbd7a4cbb95971fed").unwrap();

    buffer.push(new_envelope(project_key, None, 1000)).unwrap();

    // New stacks are optimistically ready, so re-marking ready changes nothing.
    assert!(!buffer.mark_ready(&project_key, true));
    assert!(buffer.mark_ready(&project_key, false));
    assert!(!buffer.mark_ready(&project_key, false));
    assert!(buffer.mark_ready(&project_key, true));

    // A key nothing points at changes nothing.
    let other = ProjectKey::parse("a94ae32be2584e0bbd7a4cbb95971fef").unwrap();
    assert!(!buffer.mark_ready(&other, false));
}

#[test]
fn test_flush_empties_buffer() {
    let mut buffer = mock_buffer();
    let project_key = ProjectKey::parse("a94ae32be2584e0bbd7a4cbb95971fed").unwrap();

    buffer.push(new_envelope(project_key, None, 1000)).unwrap();
    buffer.push(new_envelope(project_key, None, 2000)).unwrap();
    buffer.flush();

    assert!(matches!(buffer.peek(), Peek::Empty));
    assert_eq!(buffer.stack_count(), 0);
    assert!(buffer.project_pairs(&project_key).is_empty());
    // Flush hands the stacks away without counting envelopes out.
    assert_eq!(buffer.item_count(), 2);

    // The buffer remains usable.
    buffer.push(new_envelope(project_key, None, 3000)).unwrap();
    assert_eq!(peek_received_at(&mut buffer), 3000);
}

#[test]
fn test_initialize_memory_buffer() {
    let mut buffer = mock_buffer();
    buffer.initialize().unwrap();

    // The storeless backend re-materializes nothing and reports zero.
    assert_eq!(buffer.stack_count(), 0);
    assert_eq!(buffer.item_count(), 0);

    // Pushes still succeed and the tracked count advances.
    let project_key = ProjectKey::parse("a94ae32be2584e0bbd7a4cbb95971fed").unwrap();
    buffer.push(new_envelope(project_key, None, 1000)).unwrap();
    assert_eq!(buffer.item_count(), 1);
}

#[test]
fn test_has_capacity_follows_provider() {
    let roomy = EnvelopeBuffer::new(0, MemoryStackProvider::new(true));
    assert!(roomy.has_capacity());
    let full = EnvelopeBuffer::new(0, MemoryStackProvider::new(false));
    assert!(!full.has_capacity());
}

#[test]
fn test_load_stacks_memory_provider_has_nothing_to_load() {
    let mut buffer = mock_buffer();
    let project_key1 = ProjectKey::parse("a94ae32be2584e0bbd7a4cbb95971fed").unwrap();
    let project_key2 = ProjectKey::parse("a94ae32be2584e0bbd7a4cbb95971fef").unwrap();

    // The storeless provider re-materializes every listed pair as an empty
    // stack, and empty stacks are not scheduled.
    let pairs = vec![
        ProjectKeyPair::new(project_key1, project_key1),
        ProjectKeyPair::new(project_key1, project_key2),
    ];
    buffer.load_stacks(pairs).unwrap();
    assert_eq!(buffer.stack_count(), 0);
    assert_eq!(buffer.item_count(), 0);
}

#[test]
fn test_mark_seen_at_explicit_deadline_cycles_stacks() {
    let mut buffer = mock_buffer();
    let project_key1 = ProjectKey::parse("a94ae32be2584e0bbd7a4cbb95971fed").unwrap();
    let project_key2 = ProjectKey::parse("a94ae32be2584e0bbd7a4cbb95971fef").unwrap();

    buffer.push(new_envelope(project_key1, None, 1000)).unwrap();
    buffer.push(new_envelope(project_key2, None, 2000)).unwrap();
    buffer.mark_ready(&project_key1, false);
    buffer.mark_ready(&project_key2, false);

    // Push a far fetch deadline onto the first pair: the second takes over.
    let pair1 = ProjectKeyPair::new(project_key1, project_key1);
    buffer.mark_seen_at(&pair1, u64::MAX);
    assert_eq!(peek_received_at(&mut buffer), 2000);

    // An even farther deadline on the second pair brings the first back.
    let pair2 = ProjectKeyPair::new(project_key2, project_key2);
    buffer.mark_seen_at(&pair2, u64::MAX);
    assert_eq!(peek_received_at(&mut buffer), 1000);
}

#[test]
fn test_push_at_explicit_instants_not_ready_order() {
    // With the fetch-debounce instants made explicit, the not-ready order is
    // fully determined: neither stack was seen yet, so the older traffic
    // wins however the deadlines fall.
    let mut buffer = mock_buffer();
    let project_key1 = ProjectKey::parse("a94ae32be2584e0bbd7a4cbb95971fed").unwrap();
    let project_key2 = ProjectKey::parse("a94ae32be2584e0bbd7a4cbb95971fef").unwrap();

    buffer.push_at(new_envelope(project_key1, None, 1000), 100).unwrap();
    buffer.push_at(new_envelope(project_key2, None, 2000), 200).unwrap();

    assert_eq!(peek_received_at(&mut buffer), 2000);

    buffer.mark_ready(&project_key1, false);
    buffer.mark_ready(&project_key2, false);

    // All not ready: the stack with the earlier deadline (and the oldest
    // envelope) is on top.
    assert_eq!(peek_received_at(&mut buffer), 1000);
}

#[test]
fn test_drain_stacks_returns_every_stack() {
    let mut buffer = mock_buffer();
    let project_key1 = ProjectKey::parse("a94ae32be2584e0bbd7a4cbb95971fed").unwrap();
    let project_key2 = ProjectKey::parse("a94ae32be2584e0bbd7a4cbb95971fef").unwrap();

    buffer.push(new_envelope(project_key1, None, 1000)).unwrap();
    buffer.push(new_envelope(project_key2, None, 2000)).unwrap();
    buffer.push(new_envelope(project_key2, None, 3000)).unwrap();

    let stacks = buffer.drain_stacks();
    assert_eq!(stacks.len(), 2);
    assert_eq!(buffer.stack_count(), 0);
    assert!(matches!(buffer.peek(), Peek::Empty));
    // Draining hands the stacks away without counting envelopes out.
    assert_eq!(buffer.item_count(), 3);
}

#[test]
fn test_mark_seen_deadline_not_below_cooldown() {
    let mut buffer = mock_buffer();
    let project_key = ProjectKey::parse("a94ae32be2584e0bbd7a4cbb95971fed").unwrap();

    buffer.push(new_envelope(project_key, None, 1000)).unwrap();
    buffer.mark_ready(&project_key, false);

    let pair = ProjectKeyPair::new(project_key, project_key);
    let cooldown: u64 = 5_000_000_000;
    buffer.mark_seen(&pair, cooldown);

    let Peek::NotReady { next_project_fetch, .. } = buffer.peek() else {
        panic!();
    };
    assert!(next_project_fetch >= cooldown);
}
