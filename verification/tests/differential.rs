//! Differential tests: a randomized sequence of push/pop style operations is
//! applied to the engine (driven single-threaded) and to the sequential
//! reference model, and every observed result must match exactly.

use rand::rngs::StdRng;
use rand::{Rng, SeedableRng};
use ring_buffer::reference::BoundedBuffer;
use ring_buffer::RingBuffer;

#[derive(Debug, Clone, Copy, PartialEq, Eq)]
enum Op {
    Push(u32),
    Pop,
}

fn random_ops(rng: &mut StdRng, count: usize) -> Vec<Op> {
    let mut ops = Vec::new();
    for _ in 0..count {
        if rng.gen_range(0..4) == 0 {
            ops.push(Op::Pop);
        } else {
            ops.push(Op::Push(rng.gen_range(0..1000)));
        }
    }
    ops
}

fn run_differential(seed: u64, capacity: usize, count: usize) {
    let mut rng = StdRng::seed_from_u64(seed);
    let ops = random_ops(&mut rng, count);
    let mut engine: RingBuffer<u32> = RingBuffer::new(capacity);
    let mut oracle: BoundedBuffer<u32> = BoundedBuffer::new(capacity);
    for op in ops {
        match op {
            Op::Push(x) => {
                engine.write(x);
                oracle.write(x);
            }
            Op::Pop => {
                let got = engine.drain_all();
                let expected = oracle.read();
                assert_eq!(got, expected);
            }
        }
    }
    assert_eq!(engine.drain_all(), oracle.read());
}

#[test]
fn differential_small_capacity() {
    run_differential(0x5eed_0001, 1, 500);
    run_differential(0x5eed_0002, 2, 500);
}

#[test]
fn differential_medium_capacity() {
    run_differential(0x5eed_0003, 7, 2000);
    run_differential(0x5eed_0004, 16, 2000);
}

#[test]
fn differential_partial_drains() {
    // Same idea, but the engine pops through the cursor and may abandon it
    // midway; the oracle is popped the same observed number of elements.
    let mut rng = StdRng::seed_from_u64(0x5eed_0005);
    let capacity = 5;
    let mut engine: RingBuffer<u32> = RingBuffer::new(capacity);
    let mut model: Vec<u32> = Vec::new();
    for _ in 0..2000 {
        if rng.gen_range(0..4) == 0 {
            let pending = engine.len();
            let take = if pending == 0 { 0 } else { rng.gen_range(0..=pending) };
            let mut iter = engine.read();
            for _ in 0..take {
                let got = iter.next(&mut engine);
                assert_eq!(got, Some(model.remove(0)));
            }
            iter.abandon(&mut engine);
        } else {
            let x = rng.gen_range(0..1000);
            engine.write(x);
            model.push(x);
            if model.len() > capacity {
                model.remove(0);
            }
        }
    }
    assert_eq!(engine.drain_all(), model);
}
