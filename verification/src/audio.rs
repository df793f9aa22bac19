use vstd::prelude::*;
use crate::cloth::{Window, WindowView};

verus! {

/// The shortest tick of the sound effect, in samples.
pub const TICK_MIN: usize = 80;

/// One more than the longest tick of the sound effect, in samples.
pub const TICK_END: usize = 100;

/// `fastrand::usize(low..high)`: a number drawn from the thread-local
/// generator, at least `low` and below `high`. Which one is left to chance.
#[verifier::external_body]
fn random_below(low: usize, high: usize) -> (r: usize)
    requires
        low < high,
    ensures
        low <= r < high,
{
    fastrand::usize(low..high)
}

/// Tick `i` of `frequency` ticks spread evenly over `n` samples starts at
/// sample `i * (n / frequency)` and lasts `length` samples, and covers sample `k`.
pub open spec fn tick_covers(n: int, frequency: int, length: int, i: int, k: int) -> bool {
    &&& 0 <= i < frequency
    &&& i * (n / frequency) <= k < i * (n / frequency) + length
}

/// Sample `k` of `n` lies under one of the ticks.
pub open spec fn is_tick(n: int, frequency: int, length: int, k: int) -> bool {
    exists|i: int| #[trigger] tick_covers(n, frequency, length, i, k)
}

proof fn lemma_tick_start(n: int, f: int, i: int)
    requires
        0 <= i < f,
        0 < n,
    ensures
        0 <= i * (n / f),
        i * (n / f) + (n / f) <= n,
        i * (n / f) < n,
{
    let q = n / f;
    assert(f * q <= n) by (nonlinear_arith)
        requires
            0 < f,
            q == n / f,
    ;
    assert(0 <= q) by (nonlinear_arith)
        requires
            0 < f,
            0 < n,
            q == n / f,
    ;
    assert(i * q + q <= f * q) by (nonlinear_arith)
        requires
            0 <= i < f,
            0 <= q,
    ;
    assert(0 <= i * q) by (nonlinear_arith)
        requires
            0 <= i,
            0 <= q,
    ;
    if q == 0 {
        assert(i * q == 0) by (nonlinear_arith)
            requires
                q == 0,
        ;
    }
}

/// Marks the samples of a sound effect that carry a tick: `frequency` ticks
/// of `length` samples each, spread evenly over the buffer (a tick that would
/// run past the end is cut short there). Every other sample is cleared.
pub fn generate_ticks(data: &mut Vec<bool>, frequency: usize, length: usize)
    requires
        frequency == 0 || length == 0 || old(data).len() > 0,
    ensures
        final(data).len() == old(data).len(),
        forall|k: int|
            0 <= k < final(data).len() ==> #[trigger] final(data)[k] == is_tick(
                final(data).len() as int,
                frequency as int,
                length as int,
                k,
            ),
{
    let n = data.len();
    let mut k: usize = 0;
    while k < n
        invariant
            data.len() == n,
            k <= n,
            forall|t: int| 0 <= t < k ==> !#[trigger] data[t],
        decreases n - k,
    {
        data[k] = false;
        k += 1;
    }
    let len = length;
    let mut f: usize = 0;
    while f < frequency
        invariant
            data.len() == n,
            f <= frequency,
            frequency == 0 || len == 0 || n > 0,
            forall|t: int|
                0 <= t < n ==> #[trigger] data[t] == exists|i: int|
                    0 <= i < f && #[trigger] tick_covers(n as int, frequency as int, len as int, i, t),
        decreases frequency - f,
    {
        let mut l: usize = 0;
        while l < len
            invariant
                data.len() == n,
                f < frequency,
                l <= len,
                len == 0 || n > 0,
                forall|t: int|
                    0 <= t < n ==> #[trigger] data[t] == ((exists|i: int|
                        0 <= i < f && #[trigger] tick_covers(n as int, frequency as int, len as int, i, t)) || (f
                        * (n / frequency) <= t < f * (n / frequency) + l)),
            decreases len - l,
        {
            proof {
                lemma_tick_start(n as int, frequency as int, f as int);
            }
            let offset = f * (data.len() / frequency);
            let last = data.len() - offset - 1;
            let idx = (if l < last {
                l
            } else {
                last
            }) + offset;
            let ghost before = data@;
            data[idx] = true;
            proof {
                assert forall|t: int|
                    0 <= t < n implies #[trigger] data[t] == ((exists|i: int|
                        0 <= i < f && #[trigger] tick_covers(n as int, frequency as int, len as int, i, t)) || (f
                        * (n / frequency) <= t < f * (n / frequency) + l + 1)) by {
                    if t != idx {
                        assert(data[t] == before[t]);
                    }
                }
            }
            l += 1;
        }
        proof {
            assert forall|t: int|
                0 <= t < n implies #[trigger] data[t] == exists|i: int|
                    0 <= i < f + 1 && #[trigger] tick_covers(n as int, frequency as int, len as int, i, t) by {
                if f * (n / frequency) <= t < f * (n / frequency) + len {
                    assert(tick_covers(n as int, frequency as int, len as int, f as int, t));
                }
                if exists|i: int| 0 <= i < f + 1 && #[trigger] tick_covers(n as int, frequency as int, len as int, i, t) {
                    let i = choose|i: int| 0 <= i < f + 1 && #[trigger] tick_covers(n as int, frequency as int, len as int, i, t);
                    if i < f {
                        assert(0 <= i < f && tick_covers(n as int, frequency as int, len as int, i, t));
                    }
                }
            }
        }
        f += 1;
    }
    proof {
        assert forall|t: int| 0 <= t < n implies #[trigger] data[t] == is_tick(n as int, frequency as int, length as int, t) by {
            if is_tick(n as int, frequency as int, length as int, t) {
                let i = choose|i: int| #[trigger] tick_covers(n as int, frequency as int, length as int, i, t);
                assert(0 <= i < f && tick_covers(n as int, frequency as int, len as int, i, t));
            }
        }
    }
}

impl<P: Copy, L: Copy> Window<P, L> {
    /// The tick pattern of this frame's sound effect over `samples` samples:
    /// one tick per stick cut or snapped since the last sound, each of the
    /// same random length, at least `TICK_MIN` and below `TICK_END` samples
    /// (returned beside the pattern). The count starts again from zero.
    pub fn sfx_ticks(&mut self, samples: usize) -> (r: (Vec<bool>, usize))
        requires
            old(self)@.wf(),
            old(self)@.counter == 0 || samples > 0,
        ensures
            final(self)@.wf(),
            old(self)@.counts_exact() ==> final(self)@.counts_exact(),
            final(self)@ == (WindowView { counter: 0, ..old(self)@ }),
            TICK_MIN <= r.1 < TICK_END,
            r.0.len() == samples,
            forall|k: int|
                0 <= k < samples ==> #[trigger] r.0[k] == is_tick(
                    samples as int,
                    old(self)@.counter as int,
                    r.1 as int,
                    k,
                ),
    {
        let mut data: Vec<bool> = Vec::new();
        let mut k: usize = 0;
        while k < samples
            invariant
                k <= samples,
                data.len() == k,
            decreases samples - k,
        {
            data.push(false);
            k += 1;
        }
        let frequency = self.take_counter();
        let length = random_below(TICK_MIN, TICK_END);
        generate_ticks(&mut data, frequency, length);
        (data, length)
    }
}

} // verus!
