//! Per-worker uniform sources: a seeded 64-bit LCG, or the thread's generator.
//! A draw is a `u32` `u`, read as the fraction `u / 2^32` in `[0, 1)`.
use vstd::prelude::*;
use vstd::wrapping::u64_specs;

verus! {

#[verifier::external_type_specification]
#[verifier::external_body]
pub struct ExThreadRng(rand::rngs::ThreadRng);

/// The generator a worker draws from: resolved once per worker, so the hot
/// path makes no indirect call.
pub enum WorkerRng {
    Seeded(u64),
    Thread(rand::rngs::ThreadRng),
}

/// One LCG step: `s * 1664525 + 1013904223`, wrapping.
pub open spec fn lcg_step(s: u64) -> u64 {
    u64_specs::wrapping_add(u64_specs::wrapping_mul(s, 1664525), 1013904223)
}

/// The draw a state yields: its upper 32 bits.
pub open spec fn lcg_output(s: u64) -> u32 {
    (s >> 32u64) as u32
}

/// Seed of worker `k`: `seed + k * 10^9`, wrapping.
pub open spec fn worker_seed(seed: u64, k: u64) -> u64 {
    u64_specs::wrapping_add(seed, u64_specs::wrapping_mul(k, 1_000_000_000))
}

/// Relies on `rand::thread_rng`: a handle on the thread's generator.
#[verifier::external_body]
fn thread_rng() -> rand::rngs::ThreadRng {
    rand::thread_rng()
}

/// Relies on `rand::Rng::gen::<u32>` for `ThreadRng`: a uniform `u32`.
#[verifier::external_body]
fn thread_next_u32(r: &mut rand::rngs::ThreadRng) -> u32 {
    <rand::rngs::ThreadRng as rand::Rng>::gen::<u32>(r)
}

impl WorkerRng {
    /// Worker `worker_id`'s generator: seeded with `seed + worker_id * 10^9`
    /// when a seed is given, else the thread's generator.
    pub fn new(seed: Option<u64>, worker_id: u64) -> (r: WorkerRng)
        ensures
            seed is Some ==> r == WorkerRng::Seeded(worker_seed(seed->Some_0, worker_id)),
            seed is None ==> r is Thread,
    {
        match seed {
            Some(s) => WorkerRng::Seeded(s.wrapping_add(worker_id.wrapping_mul(1_000_000_000))),
            None => WorkerRng::Thread(thread_rng()),
        }
    }

    /// The next uniform draw.
    pub fn next_u32(&mut self) -> (r: u32)
        ensures
            *old(self) is Seeded ==> *final(self) == WorkerRng::Seeded(
                lcg_step((*old(self))->Seeded_0),
            ) && r == lcg_output(lcg_step((*old(self))->Seeded_0)),
            *old(self) is Thread ==> *final(self) is Thread,
    {
        match self {
            WorkerRng::Seeded(s) => {
                let n = s.wrapping_mul(1664525).wrapping_add(1013904223);
                *s = n;
                (n >> 32) as u32
            },
            WorkerRng::Thread(t) => thread_next_u32(t),
        }
    }
}

/// A seeded generator, for reproducible runs.
pub fn seeded_rng(seed: u64) -> (r: WorkerRng)
    ensures
        r == WorkerRng::Seeded(seed),
{
    WorkerRng::Seeded(seed)
}

} // verus!
