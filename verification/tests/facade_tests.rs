use envelope_buffer::envelope::Envelope;
use envelope_buffer::error::EnvelopeBufferError;
use envelope_buffer::facade::PolymorphicEnvelopeBuffer;
use envelope_buffer::buffer::Peek;
use envelope_buffer::keys::ProjectKey;

#[test]
fn test_facade_forwards_operations() {
    let mut buffer = PolymorphicEnvelopeBuffer::in_memory(7, true);
    assert!(buffer.is_memory());
    assert_eq!(buffer.partition_id(), 7);
    assert!(buffer.has_capacity());
    assert_eq!(buffer.total_size(), None);

    buffer.initialize().unwrap();

    let project_key = ProjectKey::parse("a94ae32be2584e0bbd7a4cbb95971fed").unwrap();
    buffer.push(Envelope::new(project_key, None, 1000, 64)).unwrap();
    assert_eq!(buffer.item_count(), 1);

    match buffer.peek() {
        Peek::Ready { last_received_at, .. } => assert_eq!(last_received_at, 1000),
        _ => panic!(),
    }

    assert!(!buffer.mark_ready(&project_key, true));
    assert!(buffer.mark_ready(&project_key, false));
    match buffer.peek() {
        Peek::NotReady { project_key_pair, last_received_at, .. } => {
            assert_eq!(last_received_at, 1000);
            buffer.mark_seen(&project_key_pair, 0);
        },
        _ => panic!(),
    }
    buffer.mark_ready(&project_key, true);

    let popped = buffer.pop().unwrap().unwrap();
    assert_eq!(popped.own_project_key, project_key);
    assert_eq!(popped.body_size, 64);
    assert!(buffer.pop().unwrap().is_none());

    // The in-memory backend has no flush work to do at shutdown.
    assert!(!buffer.shutdown());
}

#[test]
fn test_error_messages() {
    assert_eq!(
        EnvelopeBufferError::PushFailed.message(),
        "failed to push envelope to the buffer"
    );
    assert_eq!(EnvelopeBufferError::Store.message(), "failed to read or write the envelope store");
    assert_eq!(EnvelopeBufferError::Stack.message(), "an envelope stack failed");
    assert_ne!(EnvelopeBufferError::Store, EnvelopeBufferError::Stack);
}
