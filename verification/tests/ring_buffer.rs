use ring_buffer::reference::BoundedBuffer;
use ring_buffer::{RingBuffer, Tail};

#[test]
fn tail_conversion() {
    for locked in &[true, false] {
        for value in 0..100 {
            let tail = Tail { locked: *locked, value };
            assert_eq!(Tail::decode(tail.encode()), tail)
        }
    }

    for i in -20isize..=20isize {
        assert_eq!(Tail::decode(i).encode(), i)
    }
}

#[test]
fn eviction_keeps_most_recent() {
    let mut buffer: RingBuffer<char> = RingBuffer::new(3);
    for c in ['A', 'B', 'C', 'D', 'E'] {
        buffer.write(c);
    }
    assert_eq!(buffer.drain_all(), vec!['C', 'D', 'E']);
}

#[test]
fn drain_empties_and_stays_empty() {
    let mut buffer: RingBuffer<char> = RingBuffer::new(2);
    buffer.write('A');
    assert_eq!(buffer.drain_all(), vec!['A']);
    assert_eq!(buffer.drain_all(), Vec::<char>::new());
}

#[test]
fn abandoned_drain_resumes() {
    let mut buffer: RingBuffer<char> = RingBuffer::new(2);
    buffer.write('A');
    buffer.write('B');
    let mut iter = buffer.read();
    assert_eq!(iter.next(&mut buffer), Some('A'));
    iter.abandon(&mut buffer);
    buffer.write('C');
    assert_eq!(buffer.drain_all(), vec!['B', 'C']);
}

#[test]
fn no_loss_under_capacity() {
    let mut buffer: RingBuffer<u64> = RingBuffer::new(5);
    buffer.write(10);
    buffer.write(20);
    buffer.write(30);
    assert_eq!(buffer.len(), 3);
    assert_eq!(buffer.drain_all(), vec![10, 20, 30]);
}

#[test]
fn drain_lock_is_exclusive() {
    let mut buffer: RingBuffer<u64> = RingBuffer::new(2);
    buffer.write(7);
    assert!(!buffer.is_draining());
    let mut iter = buffer.read();
    // While this drain is live the lock is held: beginning another drain is
    // rejected rather than interleaved, as `read` demands a free lock.
    assert!(buffer.is_draining());
    assert_eq!(iter.next(&mut buffer), Some(7));
    assert_eq!(iter.next(&mut buffer), None);
    assert!(!buffer.is_draining());
}

#[test]
fn exhausted_iterator_keeps_yielding_nothing() {
    let mut buffer: RingBuffer<u64> = RingBuffer::new(2);
    buffer.write(1);
    let mut iter = buffer.read();
    assert_eq!(iter.next(&mut buffer), Some(1));
    assert_eq!(iter.next(&mut buffer), None);
    assert_eq!(iter.next(&mut buffer), None);
    assert!(!buffer.is_draining());
}

#[test]
fn write_during_drain_defers_eviction() {
    let mut buffer: RingBuffer<u64> = RingBuffer::new(1);
    buffer.write(1);
    let mut iter = buffer.read();
    assert!(buffer.can_write());
    buffer.write(2);
    // The buffer was full and locked: the write went in and the eviction was
    // deferred, so both elements are briefly buffered. Another write would
    // have to wait for the drain to move on.
    assert_eq!(buffer.len(), 2);
    assert!(!buffer.can_write());
    // The drain only reaches the head captured when it began.
    assert_eq!(iter.next(&mut buffer), Some(1));
    assert_eq!(iter.next(&mut buffer), None);
    assert_eq!(buffer.drain_all(), vec![2]);
}

#[test]
fn read_helps_after_abandoned_deferred_eviction() {
    let mut buffer: RingBuffer<u64> = RingBuffer::new(1);
    buffer.write(1);
    let iter = buffer.read();
    buffer.write(2);
    iter.abandon(&mut buffer);
    // The abandoned drain left the deferred eviction open; the next drain
    // finishes it on the writer's behalf, dropping the oldest element.
    assert_eq!(buffer.len(), 2);
    assert_eq!(buffer.drain_all(), vec![2]);
}

#[test]
fn reference_model_matches_engine_on_scenarios() {
    let mut oracle: BoundedBuffer<char> = BoundedBuffer::new(3);
    let mut engine: RingBuffer<char> = RingBuffer::new(3);
    for c in ['A', 'B', 'C', 'D', 'E'] {
        oracle.write(c);
        engine.write(c);
    }
    assert_eq!(oracle.read(), engine.drain_all());
    assert_eq!(oracle.read(), Vec::<char>::new());
    assert_eq!(engine.drain_all(), Vec::<char>::new());
}
