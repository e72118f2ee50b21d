use std::sync::atomic::{AtomicBool, Ordering};

use crossbeam_channel::unbounded;
use huffrs::block::encode_block;
use huffrs::dict::DictItem;
use huffrs::heap::Heap;
use huffrs::pipeline::{consumer_loop, producer_loop, worker_loop, IdWeight, Item, WorkItem,
    WorkerData};
use huffrs::stream::{compress_bytes, decompress_stream};
use huffrs::tree::Weight;

struct MemSource {
    data: Vec<u8>,
    pos: usize,
}

struct Scratch {
    dict: Vec<DictItem>,
}

impl WorkerData for Scratch {
    fn new() -> Self {
        Scratch { dict: vec![DictItem { bits: 0, width: 0 }; 256] }
    }
}

struct Job {
    input: Vec<u8>,
    meta: Vec<u8>,
    payload: Vec<u8>,
}

impl WorkItem<Scratch, MemSource, Vec<u8>> for Job {
    fn new() -> Self {
        Job { input: Vec::new(), meta: Vec::new(), payload: Vec::new() }
    }

    fn produce(&mut self, input: &mut MemSource) -> Result<bool, String> {
        let remaining = input.data.len() - input.pos;
        if remaining == 0 {
            return Ok(false);
        }
        let k = remaining.min(65536);
        self.input = input.data[input.pos..input.pos + k].to_vec();
        input.pos += k;
        Ok(true)
    }

    fn work(&mut self, aux: &mut Scratch) {
        let (meta, payload) = encode_block(&self.input, &mut aux.dict, 65536);
        self.meta = meta;
        self.payload = payload;
    }

    fn consume(&mut self, output: &mut Vec<u8>) -> Result<(), String> {
        output.extend_from_slice(&self.meta);
        output.extend_from_slice(&self.payload);
        Ok(())
    }
}

fn lcg_bytes(n: usize, mut seed: u64) -> Vec<u8> {
    let mut v = Vec::with_capacity(n);
    for _ in 0..n {
        seed = seed.wrapping_mul(6364136223846793005).wrapping_add(1442695040888963407);
        v.push((seed >> 33) as u8);
    }
    v
}

// Drive the three pipeline stages to completion on one thread.  The item
// pool is larger than the number of blocks, so the producer never waits on
// the recycling channel.
fn run_pipeline(data: Vec<u8>) -> (Vec<u8>, bool) {
    let (available_s, available_r) = unbounded();
    let (ready_s, ready_r) = unbounded();
    let (done_s, done_r) = unbounded();
    let error_flag = AtomicBool::new(false);
    let mut items: Vec<Item<Job>> = Vec::new();
    for _ in 0..8 {
        items.push(Item { id: 0, it: Box::new(Job::new()) });
    }
    let source = MemSource { data, pos: 0 };
    let _assigned = producer_loop::<Scratch, MemSource, Job, Vec<u8>>(
        &error_flag,
        items,
        done_r,
        available_s,
        source,
    );
    worker_loop::<Scratch, MemSource, Job, Vec<u8>>(available_r, ready_s);
    let (out, has_error, _emitted, _consumed) =
        consumer_loop::<Scratch, MemSource, Job, Vec<u8>>(&error_flag, ready_r, done_s, Vec::new());
    (out, has_error)
}

// The pipeline's output is byte-identical to the sequential compressor's:
// parallel structure never changes the emitted bytes.
#[test]
fn pipeline_matches_sequential() {
    let data = lcg_bytes(200000, 42);
    let (piped, has_error) = run_pipeline(data.clone());
    assert!(!has_error);
    assert_eq!(piped, compress_bytes(&data));
    assert_eq!(decompress_stream(&piped).expect("round trip"), data);
}

#[test]
fn pipeline_empty_input_emits_nothing() {
    let (piped, has_error) = run_pipeline(Vec::new());
    assert!(!has_error);
    assert!(piped.is_empty());
}

// Items that reach the consumer out of order (as under variable per-item
// delay in `work`) are still written in strictly increasing id order.
#[test]
fn consumer_reorders_jittered_completions() {
    let (ready_s, ready_r) = unbounded();
    let (done_s, done_r) = unbounded();
    let error_flag = AtomicBool::new(false);
    let blocks: Vec<Vec<u8>> = (0..6u8).map(|i| vec![i; 3]).collect();
    for &id in [3usize, 0, 5, 1, 4, 2].iter() {
        let mut job = Job::new();
        job.meta = Vec::new();
        job.payload = blocks[id].clone();
        ready_s
            .send(Item { id, it: Box::new(job) })
            .expect("receiver alive");
    }
    drop(ready_s);
    let (out, has_error, _emitted, _consumed) = consumer_loop::<Scratch, MemSource, Job, Vec<u8>>(
        &error_flag,
        ready_r,
        done_s,
        Vec::new(),
    );
    assert!(!has_error);
    let expected: Vec<u8> = blocks.concat();
    assert_eq!(out, expected);
    // every item was recycled into the pool in id order
    let mut recycled = 0;
    while done_r.try_recv().is_ok() {
        recycled += 1;
    }
    assert_eq!(recycled, 6);
}

// When the workers go away while an id is still missing, the stranded
// items can never be emitted; the consumer reports the failure instead of
// dropping them silently.
#[test]
fn consumer_reports_stranded_items() {
    let (ready_s, ready_r) = unbounded();
    let (done_s, done_r) = unbounded();
    let error_flag = AtomicBool::new(false);
    for &id in [2usize, 1].iter() {
        // id 0 never arrives
        let mut job = Job::new();
        job.payload = vec![id as u8];
        ready_s.send(Item { id, it: Box::new(job) }).expect("receiver alive");
    }
    drop(ready_s);
    let (out, has_error, _emitted, _consumed) = consumer_loop::<Scratch, MemSource, Job, Vec<u8>>(
        &error_flag,
        ready_r,
        done_s,
        Vec::new(),
    );
    assert!(has_error);
    assert!(error_flag.load(Ordering::Relaxed));
    assert!(out.is_empty());
    // nothing was emitted, so nothing was recycled either
    assert!(done_r.try_recv().is_err());
}

#[test]
fn heap_extracts_by_count_then_serial() {
    let mut heap: Heap<&str, Weight> = Heap::new();
    heap.insert(Weight { serial: 0, weight: 5 }, "a");
    heap.insert(Weight { serial: 1, weight: 3 }, "b");
    heap.insert(Weight { serial: 2, weight: 1 }, "c");
    heap.insert(Weight { serial: 3, weight: 1 }, "d");
    assert_eq!(heap.len(), 4);
    // the lowest count outranks; ties go to the lower serial
    assert_eq!(heap.max_weight(), Weight { serial: 2, weight: 1 });
    assert_eq!(heap.extract_max(), ("c", Weight { serial: 2, weight: 1 }));
    assert_eq!(heap.extract_max(), ("d", Weight { serial: 3, weight: 1 }));
    assert_eq!(heap.extract_max(), ("b", Weight { serial: 1, weight: 3 }));
    assert_eq!(heap.extract_max(), ("a", Weight { serial: 0, weight: 5 }));
    assert_eq!(heap.len(), 0);
}

#[test]
fn heap_orders_ids_ascending() {
    let mut heap: Heap<usize, IdWeight> = Heap::new();
    for id in [9usize, 2, 7, 0, 4, 1, 8, 3, 6, 5] {
        heap.insert(IdWeight { id }, id);
    }
    let mut drained = Vec::new();
    while heap.len() > 0 {
        let (v, w) = heap.extract_max();
        assert_eq!(v, w.id);
        drained.push(v);
    }
    assert_eq!(drained, (0..10).collect::<Vec<_>>());
}
