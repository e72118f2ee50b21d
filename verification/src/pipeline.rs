//! Single-producer, multiple-worker, single-consumer pipeline.
//!
//! A fixed pool of reusable work items flows through three channels: the
//! producer fills free items and stamps them with strictly increasing
//! sequence ids, workers transform them in parallel, and the consumer
//! reorders completed items by sequence id so that output leaves in exactly
//! the order the items were produced.  The caller spawns the worker and
//! consumer threads and runs the producer; the loops here hold the logic.
//! The producer's and consumer's contracts carry ghost id logs pinning that
//! order, and `lemma_emission_order` states the same discipline over every
//! possible arrival order at once.

use vstd::prelude::*;

verus! {

use core::sync::atomic::{AtomicBool, Ordering};
use vstd::set_lib::group_set_lib_default;
use crate::heap::{Heap, HeapWeight};

broadcast use group_set_lib_default, vstd::set::group_set_axioms;

/// Per-worker scratch state, created once per worker thread and reused
/// across that worker's items; never shared across workers.
pub trait WorkerData: Sized {
    fn new() -> Self;
}

/// A reusable work item.  `produce` fills the item from the source and
/// returns false on orderly end of input; `work` transforms it in place;
/// `consume` emits its result to the sink.
pub trait WorkItem<Aux: WorkerData, Source, Sink>: Sized {
    fn new() -> Self;

    fn produce(&mut self, input: &mut Source) -> Result<bool, String>;

    fn work(&mut self, aux: &mut Aux);

    fn consume(&mut self, output: &mut Sink) -> Result<(), String>;
}

/// A pooled work item together with its sequence id.
pub struct Item<Work> {
    pub id: usize,
    pub it: Box<Work>,
}

/// Reorder key for the consumer: the smallest sequence id outranks all
/// larger ones, so the heap surfaces the next block to write.
#[derive(Clone, Copy, Debug, PartialEq, Eq, Structural)]
pub struct IdWeight {
    pub id: usize,
}

impl HeapWeight for IdWeight {
    open spec fn gt_spec(self, other: Self) -> bool {
        self.id < other.id
    }

    proof fn lemma_gt_order(a: Self, b: Self, c: Self) {
    }

    fn gt(self, other: Self) -> (r: bool) {
        self.id < other.id
    }
}

/// Relies on crossbeam_channel::Sender::send: delivers the message to the
/// channel, or returns it inside the error when all receivers are gone.
pub assume_specification<T>[ crossbeam_channel::Sender::<T>::send ](
    s: &crossbeam_channel::Sender<T>,
    msg: T,
) -> (r: Result<(), crossbeam_channel::SendError<T>>);

/// Relies on crossbeam_channel::Receiver::recv: blocks until a message
/// arrives, or fails when the channel is empty and all senders are gone.
pub assume_specification<T>[ crossbeam_channel::Receiver::<T>::recv ](
    r: &crossbeam_channel::Receiver<T>,
) -> (res: Result<T, crossbeam_channel::RecvError>);

#[verifier::external_type_specification]
#[verifier::external_body]
#[verifier::reject_recursive_types(T)]
pub struct ExSender<T>(crossbeam_channel::Sender<T>);

#[verifier::external_type_specification]
#[verifier::external_body]
#[verifier::reject_recursive_types(T)]
pub struct ExReceiver<T>(crossbeam_channel::Receiver<T>);

#[verifier::external_type_specification]
#[verifier::external_body]
#[verifier::reject_recursive_types(T)]
pub struct ExSendError<T>(crossbeam_channel::SendError<T>);

#[verifier::external_type_specification]
#[verifier::external_body]
pub struct ExRecvError(crossbeam_channel::RecvError);

/// The producer: pull a free item from the pool, waiting on `done` when the
/// pool is momentarily empty (the pipeline's backpressure), fill it from the
/// source, stamp it with the next sequence id, and hand it to the workers.
/// Returning closes `available`, which shuts the workers down in turn.
/// Returns the ids assigned to the items handed out: always exactly
/// 0, 1, 2, ... in order -- strictly increasing with no gaps.
pub fn producer_loop<Aux: WorkerData, Source, Work: WorkItem<Aux, Source, Sink>, Sink>(
    error_flag: &AtomicBool,
    items: Vec<Item<Work>>,
    done: crossbeam_channel::Receiver<Item<Work>>,
    available: crossbeam_channel::Sender<Item<Work>>,
    input: Source,
) -> (r: Ghost<Seq<nat>>)
    ensures
        r@ == range_seq(0, r@.len()),
{
    let mut items = items;
    let mut input = input;
    let mut next_read_id: usize = 0;
    let mut failed = false;
    let ghost mut assigned: Seq<nat> = Seq::empty();
    proof {
        assert(assigned =~= range_seq(0, assigned.len()));
    }
    loop
        invariant
            assigned == range_seq(0, assigned.len()),
            assigned.len() == next_read_id,
        decreases
                usize::MAX - next_read_id,
                (if failed {
                    0int
                } else {
                    1int
                }),
    {
        if failed || error_flag.load(Ordering::Relaxed) {
            return Ghost(assigned);
        }
        if items.len() == 0 {
            match done.recv() {
                Ok(item) => items.push(item),
                Err(_) => {
                    // the consumer is gone; nothing can be recycled
                    return Ghost(assigned);
                },
            }
        }
        let mut item = match items.pop() {
            Some(item) => item,
            None => {
                return Ghost(assigned);
            },
        };
        match item.it.produce(&mut input) {
            Ok(got_input) => {
                if !got_input {
                    return Ghost(assigned);
                }
                item.id = next_read_id;
                if next_read_id == usize::MAX {
                    // the id space is exhausted; give up rather than reuse ids
                    error_flag.store(true, Ordering::Relaxed);
                    return Ghost(assigned);
                }
                let ghost this_id = next_read_id as nat;
                next_read_id = next_read_id + 1;
                if available.send(item).is_err() {
                    return Ghost(assigned);
                }
                proof {
                    assigned = assigned.push(this_id);
                    assert(assigned =~= range_seq(0, assigned.len()));
                }
            },
            Err(_) => {
                error_flag.store(true, Ordering::Relaxed);
                failed = true;
            },
        }
    }
}

/// A worker: receive an item, transform it with this worker's private
/// scratch state, and pass it on.  Exits when the producer closes
/// `available`; dropping `ready` lets the consumer shut down once all
/// workers are done.  Its only effects flow through the opaque channels and
/// the caller's `work`, so there is nothing here a contract could pin.
pub fn worker_loop<Aux: WorkerData, Source, Work: WorkItem<Aux, Source, Sink>, Sink>(
    available: crossbeam_channel::Receiver<Item<Work>>,
    ready: crossbeam_channel::Sender<Item<Work>>,
)
{
    let mut aux = Aux::new();
    // the producer issues at most usize::MAX items, so this many iterations
    // always suffice; the channel closes long before the bound is reached
    let mut seen: usize = 0;
    loop
        decreases usize::MAX - seen,
    {
        match available.recv() {
            Ok(mut b) => {
                b.it.work(&mut aux);
                if ready.send(b).is_err() {
                    return ;
                }
                if seen == usize::MAX {
                    return ;
                }
                seen = seen + 1;
            },
            Err(_) => {
                return ;
            },
        }
    }
}

/// The consumer: collect finished items in a priority queue keyed by
/// sequence id and emit them in strictly increasing id order, recycling each
/// into the pool; when the error flag is set, drain without emitting.
/// Returns the sink (so the caller can sync it after the run), whether any
/// failure occurred -- a failed `consume`, or items left stranded in the
/// reorder queue when the workers went away -- and two id logs: the items
/// emitted, in order, are always exactly ids 0, 1, ..., n-1, whatever order
/// they arrived in; `consume` ran exactly once per emitted item, in that
/// order, up to the first failure -- on all of them when nothing failed.
pub fn consumer_loop<Aux: WorkerData, Source, Work: WorkItem<Aux, Source, Sink>, Sink>(
    error_flag: &AtomicBool,
    ready: crossbeam_channel::Receiver<Item<Work>>,
    done: crossbeam_channel::Sender<Item<Work>>,
    output: Sink,
) -> (r: (Sink, bool, Ghost<Seq<nat>>, Ghost<Seq<nat>>))
    ensures
        r.2@ == range_seq(0, r.2@.len()),
        r.3@.len() <= r.2@.len(),
        r.3@ == r.2@.take(r.3@.len() as int),
        !r.1 ==> r.3@ == r.2@,
{
    let mut output = output;
    let mut next_write_id: usize = 0;
    let mut queue = Heap::<Item<Work>, IdWeight>::new();
    let mut has_error = false;
    let mut give_up = false;
    // the producer issues at most usize::MAX items, so this many arrivals
    // always suffice; the channel closes long before the bound is reached
    let mut seen: usize = 0;
    let ghost mut emitted: Seq<nat> = Seq::empty();
    let ghost mut consumed: Seq<nat> = Seq::empty();
    proof {
        assert(emitted =~= range_seq(0, emitted.len()));
        assert(consumed =~= emitted.take(consumed.len() as int));
    }
    loop
        invariant
            queue.wf(),
            forall|p: (IdWeight, Item<Work>)| queue@.contains(p) ==> #[trigger] p.0.id == p.1.id,
            emitted == range_seq(0, emitted.len()),
            emitted.len() == next_write_id,
            consumed.len() <= emitted.len(),
            consumed == emitted.take(consumed.len() as int),
            !has_error ==> consumed == emitted,
        decreases usize::MAX - seen,
    {
        match ready.recv() {
            Ok(item) => {
                if seen == usize::MAX {
                    // too many arrivals to count: report rather than lose one
                    error_flag.store(true, Ordering::Relaxed);
                    has_error = true;
                    break ;
                }
                seen = seen + 1;
                let w = IdWeight { id: item.id };
                queue.insert(w, item);
                loop
                    invariant
                        queue.wf(),
                        forall|p: (IdWeight, Item<Work>)| queue@.contains(p)
                            ==> #[trigger] p.0.id == p.1.id,
                        emitted == range_seq(0, emitted.len()),
                        emitted.len() == next_write_id,
                        consumed.len() <= emitted.len(),
                        consumed == emitted.take(consumed.len() as int),
                        !has_error ==> consumed == emitted,
                    decreases queue@.len(),
                {
                    if queue.len() == 0 {
                        break ;
                    }
                    let top = queue.max_weight();
                    if top.id != next_write_id {
                        break ;
                    }
                    if next_write_id == usize::MAX {
                        // the id space is exhausted; report and stop
                        error_flag.store(true, Ordering::Relaxed);
                        has_error = true;
                        give_up = true;
                        break ;
                    }
                    let ghost qpre = queue@;
                    let (mut item, w) = queue.extract_max();
                    proof {
                        // the extracted weight and the peeked weight are both
                        // maximal, so they carry the same id: the consumer
                        // emits exactly the next expected block
                        let tw = crate::heap::w2p_witness(qpre, top);
                        assert(!tw.0.gt_spec(w));
                        assert(!w.gt_spec(tw.0));
                        assert(w.id == next_write_id);
                        assert(item.id == next_write_id);
                    }
                    let ran_consume = !has_error;
                    if ran_consume {
                        if item.it.consume(&mut output).is_err() {
                            error_flag.store(true, Ordering::Relaxed);
                            has_error = true;
                        }
                    }
                    item.id = 0;
                    proof {
                        let id_n = next_write_id as nat;
                        emitted = emitted.push(id_n);
                        if ran_consume {
                            consumed = consumed.push(id_n);
                        }
                        assert(emitted =~= range_seq(0, emitted.len()));
                        assert(consumed =~= emitted.take(consumed.len() as int));
                    }
                    next_write_id = next_write_id + 1;
                    let _ = done.send(item);
                }
                if give_up {
                    break ;
                }
            },
            Err(_) => {
                break ;
            },
        }
    }
    if queue.len() > 0 {
        // items arrived whose turn never came: the output is incomplete
        error_flag.store(true, Ordering::Relaxed);
        has_error = true;
    }
    (output, has_error, Ghost(emitted), Ghost(consumed))
}

/// The consumer's reordering discipline, in the abstract: starting from the
/// pending set and the next expected id, release the longest contiguous run
/// of ids.  Returns the released ids in order, the remaining pending set,
/// and the new next expected id.
pub open spec fn drain_step(pending: Set<nat>, next: nat) -> (Seq<nat>, Set<nat>, nat)
    decreases pending.len(),
    when pending.finite()
{
    if pending.contains(next) {
        let r = drain_step(pending.remove(next), next + 1);
        (seq![next] + r.0, r.1, r.2)
    } else {
        (Seq::empty(), pending, next)
    }
}

/// The whole run: each arriving id is added to the pending set and the
/// contiguous run from the next expected id is released.
pub open spec fn process(arrivals: Seq<nat>, pending: Set<nat>, next: nat) -> Seq<nat>
    decreases arrivals.len(),
{
    if arrivals.len() == 0 {
        Seq::empty()
    } else {
        let st = drain_step(pending.insert(arrivals[0]), next);
        st.0 + process(arrivals.drop_first(), st.1, st.2)
    }
}

/// The ids `lo`, `lo + 1`, ..., `hi - 1`, in order.
pub open spec fn range_seq(lo: nat, hi: nat) -> Seq<nat> {
    Seq::new((hi - lo) as nat, |i: int| (lo + i) as nat)
}

/// The set of ids `lo`, ..., `hi - 1`.
pub open spec fn range_set(lo: nat, hi: nat) -> Set<nat> {
    Set::new(|x: nat| lo <= x < hi)
}

proof fn lemma_range_set_finite(lo: nat, hi: nat)
    ensures
        range_set(lo, hi).finite(),
        range_set(lo, hi).len() == if hi >= lo {
            (hi - lo) as nat
        } else {
            0
        },
    decreases hi,
{
    if hi <= lo {
        assert(range_set(lo, hi) =~= Set::<nat>::empty());
    } else {
        lemma_range_set_finite(lo, (hi - 1) as nat);
        assert(range_set(lo, hi) =~= range_set(lo, (hi - 1) as nat).insert((hi - 1) as nat));
    }
}

proof fn lemma_drain_step(p: Set<nat>, next: nat)
    requires
        p.finite(),
    ensures
        ({
            let r = drain_step(p, next);
            &&& r.2 >= next
            &&& r.0 == range_seq(next, r.2)
            &&& r.1 == p.difference(range_set(next, r.2))
            &&& r.1.finite()
            &&& !r.1.contains(r.2)
            &&& range_set(next, r.2).subset_of(p)
        }),
    decreases p.len(),
{
    let r = drain_step(p, next);
    if p.contains(next) {
        lemma_drain_step(p.remove(next), next + 1);
        let r2 = drain_step(p.remove(next), next + 1);
        assert(r.0 =~= range_seq(next, r.2)) by {
            assert(r2.0 == range_seq(next + 1, r2.2));
            assert(r.0 == seq![next] + r2.0);
        }
        assert(r.1 =~= p.difference(range_set(next, r.2))) by {
            assert(r2.1 == p.remove(next).difference(range_set(next + 1, r2.2)));
        }
        assert(range_set(next, r.2).subset_of(p)) by {
            assert(range_set(next + 1, r2.2).subset_of(p.remove(next)));
        }
    } else {
        assert(r.0 =~= range_seq(next, next));
        assert(r.1 =~= p.difference(range_set(next, next)));
    }
}

proof fn lemma_process_emits(arrivals: Seq<nat>, pending: Set<nat>, next: nat, m: nat)
    requires
        next <= m,
        pending.finite(),
        !pending.contains(next),
        arrivals.no_duplicates(),
        forall|i: int| 0 <= i < arrivals.len() ==> !pending.contains(#[trigger] arrivals[i]),
        pending.union(arrivals.to_set()) == range_set(next, m),
    ensures
        process(arrivals, pending, next) == range_seq(next, m),
    decreases arrivals.len(),
{
    broadcast use vstd::seq_lib::group_seq_properties;

    if arrivals.len() == 0 {
        assert(arrivals.to_set() =~= Set::<nat>::empty());
        assert(pending =~= range_set(next, m));
        assert(m <= next) by {
            if m > next {
                assert(range_set(next, m).contains(next));
            }
        }
        assert(process(arrivals, pending, next) =~= range_seq(next, m));
    } else {
        let a0 = arrivals[0];
        let p2 = pending.insert(a0);
        let st = drain_step(p2, next);
        lemma_drain_step(p2, next);
        let rest = arrivals.drop_first();
        // the new pending set and the remaining arrivals still cover exactly
        // the range from the new next id up
        assert(rest.no_duplicates());
        assert(forall|i: int| 0 <= i < rest.len() ==> rest[i] == arrivals[i + 1]);
        assert(a0 < m && next <= a0) by {
            assert(arrivals.to_set().contains(a0));
            assert(pending.union(arrivals.to_set()).contains(a0));
            assert(range_set(next, m).contains(a0));
        }
        assert forall|i: int| 0 <= i < rest.len() implies !st.1.contains(#[trigger] rest[i]) by {
            assert(rest[i] == arrivals[i + 1]);
            if st.1.contains(arrivals[i + 1]) {
                assert(p2.contains(arrivals[i + 1]));
                if arrivals[i + 1] == a0 {
                    assert(false);
                } else {
                    assert(pending.contains(arrivals[i + 1]));
                }
            }
        }
        assert(st.1.union(rest.to_set()) =~= range_set(st.2, m)) by {
            assert forall|x: nat| st.1.union(rest.to_set()).contains(x) implies range_set(
                st.2,
                m,
            ).contains(x) by {
                if st.1.contains(x) {
                    assert(p2.contains(x));
                    assert(range_set(next, m).contains(x));
                    assert(!range_set(next, st.2).contains(x));
                } else {
                    assert(rest.to_set().contains(x));
                    let i = choose|i: int| 0 <= i < rest.len() && rest[i] == x;
                    assert(rest[i] == arrivals[i + 1]);
                    assert(arrivals.to_set().contains(x));
                    assert(range_set(next, m).contains(x));
                    assert(!range_set(next, st.2).contains(x)) by {
                        if next <= x < st.2 {
                            assert(range_set(next, st.2).subset_of(p2));
                            assert(p2.contains(x));
                            if x == a0 {
                                assert(arrivals[0] == arrivals[i + 1]);
                                assert(false);
                            } else {
                                assert(pending.contains(x));
                                assert(false);
                            }
                        }
                    }
                }
            }
            assert forall|x: nat| range_set(st.2, m).contains(x) implies st.1.union(
                rest.to_set(),
            ).contains(x) by {
                assert(range_set(next, m).contains(x));
                assert(pending.union(arrivals.to_set()).contains(x));
                if pending.contains(x) {
                    assert(p2.contains(x));
                    assert(!range_set(next, st.2).contains(x)) by {
                        assert(x >= st.2);
                    }
                    assert(st.1.contains(x));
                } else {
                    let i = choose|i: int| 0 <= i < arrivals.len() && arrivals[i] == x;
                    if i == 0 {
                        assert(x == a0);
                        assert(p2.contains(x));
                        assert(st.1.contains(x)) by {
                            assert(x >= st.2);
                        }
                    } else {
                        assert(rest[i - 1] == x);
                        assert(rest.to_set().contains(x));
                    }
                }
            }
        }
        assert(!st.1.contains(st.2));
        assert(st.2 <= m) by {
            if st.2 > m {
                assert(range_set(st.2, m) =~= Set::<nat>::empty());
                assert(st.1.union(rest.to_set()) =~= Set::<nat>::empty());
                assert(range_set(next, st.2).subset_of(p2));
                assert(p2.contains(a0));
                assert(a0 < m);
                let prev = (st.2 - 1) as nat;
                assert(range_set(next, st.2).contains(prev));
                assert(p2.contains(prev));
                assert(pending.union(arrivals.to_set()).contains(prev) || prev == a0);
                assert(range_set(next, m).contains(prev) || prev == a0);
                assert(prev < m || prev == a0);
                assert(false);
            }
        }
        lemma_process_emits(rest, st.1, st.2, m);
        assert(process(arrivals, pending, next) =~= range_seq(next, m)) by {
            assert(process(arrivals, pending, next) == st.0 + process(rest, st.1, st.2));
            assert(st.0 == range_seq(next, st.2));
            assert(process(rest, st.1, st.2) == range_seq(st.2, m));
        }
    }
}

/// Strict ordering under any completion order: if the ids 0, ..., n-1 reach
/// the consumer in any order whatever, the consumer releases exactly the ids
/// 0, 1, ..., n-1, in that order.  Worker scheduling and per-item delays can
/// therefore never change the order or content of what is written.
pub proof fn lemma_emission_order(arrivals: Seq<nat>, n: nat)
    requires
        arrivals.no_duplicates(),
        arrivals.to_set() == range_set(0, n),
    ensures
        process(arrivals, Set::empty(), 0) == range_seq(0, n),
{
    assert(Set::<nat>::empty().union(arrivals.to_set()) =~= range_set(0, n));
    lemma_process_emits(arrivals, Set::empty(), 0, n);
}

} // verus!
