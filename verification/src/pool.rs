//! The pool of synthesis workers and the round-robin choice among them.

use crate::digits::{digits, push_digits};
use vstd::prelude::*;

verus! {

/// The label of worker `index`: its number in lower-case hexadecimal, with
/// a leading zero where that is a single digit.
pub open spec fn worker_label(index: nat) -> Seq<char> {
    if index < 16 {
        seq!['0'] + digits(index, 16)
    } else {
        digits(index, 16)
    }
}

/// A fixed, non-empty set of workers, chosen from in turn.
pub struct TTSWorkerPool<W> {
    tts_instances: Vec<W>,
}

impl<W> TTSWorkerPool<W> {
    #[verifier::type_invariant]
    spec fn holds_a_worker(self) -> bool {
        self.tts_instances@.len() >= 1
    }

    /// The workers of the pool, in the order given at construction.
    pub closed spec fn instances(self) -> Seq<W> {
        self.tts_instances@
    }

    /// The position of the worker that serves dispatch `worker_id`.
    pub open spec fn slot_of(self, worker_id: nat) -> nat {
        worker_id % self.instances().len()
    }

    /// A pool of the given workers. There must be at least one.
    pub fn new(tts_instances: Vec<W>) -> (pool: Self)
        requires
            tts_instances@.len() >= 1,
        ensures
            pool.instances() == tts_instances@,
    {
        TTSWorkerPool { tts_instances }
    }

    /// The worker that serves dispatch `worker_id`, with its label: workers
    /// take turns in the order of the pool.
    pub fn get_instance(&self, worker_id: usize) -> (r: (&W, String))
        ensures
            self.instances().len() >= 1,
            *r.0 == self.instances()[self.slot_of(worker_id as nat) as int],
            r.1@ == worker_label(self.slot_of(worker_id as nat)),
    {
        proof {
            use_type_invariant(self);
        }
        let index = worker_id % self.tts_instances.len();
        let mut instance_id = String::new();
        if index < 16 {
            instance_id.push('0');
            assert(instance_id@ == seq!['0']);
        }
        push_digits(&mut instance_id, index as u128, 16);
        (&self.tts_instances[index], instance_id)
    }

    /// How many workers the pool holds: at least one.
    pub fn instance_count(&self) -> (n: usize)
        ensures
            n == self.instances().len(),
            n >= 1,
    {
        proof {
            use_type_invariant(self);
        }
        self.tts_instances.len()
    }
}

} // verus!
