//! Frame timing: a sliding window of the most recent frame durations.
use vstd::prelude::*;

verus! {

/// Keeps the durations of the last `max_samples` frames, in nanoseconds.
pub struct FpsCounter {
    frame_times: Vec<u64>,
    max_samples: usize,
}

/// Sum of the durations in `times`.
pub open spec fn sum_times(times: Seq<u64>) -> int
    decreases times.len(),
{
    if times.len() == 0 {
        0
    } else {
        sum_times(times.drop_last()) + times.last()
    }
}

/// The window after one more duration `delta`: it is appended, and the
/// oldest is dropped once the window holds more than `max_samples`.
pub open spec fn window_after(times: Seq<u64>, max_samples: int, delta: u64) -> Seq<u64> {
    let pushed = times.push(delta);
    if pushed.len() > max_samples {
        pushed.subrange(1, pushed.len() as int)
    } else {
        pushed
    }
}

impl FpsCounter {
    /// The window keeps at least one duration and never more than
    /// `max_samples`.
    #[verifier::type_invariant]
    spec fn window_in_bounds(self) -> bool {
        self.max_samples >= 1 && self.frame_times.len() <= self.max_samples
    }

    /// What every counter keeps: room for at least one duration, and no
    /// more durations than that room.
    pub open spec fn in_bounds(self) -> bool {
        self.spec_max_samples() >= 1 && self.spec_frame_times().len() <= self.spec_max_samples()
    }

    pub closed spec fn spec_frame_times(self) -> Seq<u64> {
        self.frame_times@
    }

    pub closed spec fn spec_max_samples(self) -> usize {
        self.max_samples
    }

    /// A counter with no frames yet, keeping the last 60.
    pub fn new() -> (r: FpsCounter)
        ensures
            r.spec_frame_times().len() == 0,
            r.spec_max_samples() == 60,
            r.in_bounds(),
    {
        FpsCounter { frame_times: Vec::with_capacity(60), max_samples: 60 }
    }

    /// Records the duration of one more frame.
    pub fn record_frame_time(&mut self, delta_nanos: u64)
        ensures
            final(self).spec_max_samples() == old(self).spec_max_samples(),
            final(self).spec_frame_times() == window_after(
                old(self).spec_frame_times(),
                old(self).spec_max_samples() as int,
                delta_nanos,
            ),
            old(self).in_bounds(),
            final(self).in_bounds(),
    {
        proof {
            use_type_invariant(&*self);
        }
        let mut times: Vec<u64> = Vec::new();
        std::mem::swap(&mut times, &mut self.frame_times);
        times.push(delta_nanos);
        if times.len() > self.max_samples {
            let ghost pushed = times@;
            times.remove(0);
            assert(times@ =~= pushed.subrange(1, pushed.len() as int));
        }
        self.frame_times = times;
    }

    /// Number of frame durations in the window.
    pub fn sample_count(&self) -> (r: usize)
        ensures
            r == self.spec_frame_times().len(),
            self.in_bounds(),
    {
        proof {
            use_type_invariant(self);
        }
        self.frame_times.len()
    }

    /// Sum of the frame durations in the window, in nanoseconds.
    pub fn total_frame_time(&self) -> (r: u128)
        ensures
            r == sum_times(self.spec_frame_times()),
    {
        let mut total: u128 = 0;
        let mut i: usize = 0;
        let ghost times = self.frame_times@;
        assert(times.take(0) =~= Seq::<u64>::empty());
        while i < self.frame_times.len()
            invariant
                times == self.frame_times@,
                0 <= i <= times.len(),
                total == sum_times(times.take(i as int)),
                total <= i * 0xffff_ffff_ffff_ffff,
            decreases times.len() - i,
        {
            proof {
                assert(times.take(i + 1).drop_last() =~= times.take(i as int));
                assert(times.len() < 0x1_0000_0000_0000_0000) by {
                    assert(times.len() <= usize::MAX);
                }
            }
            total = total + self.frame_times[i] as u128;
            i = i + 1;
        }
        assert(times.take(times.len() as int) =~= times);
        total
    }
}

/// Recording a frame keeps the window within `max_samples` durations and
/// keeps the most recent ones: the new window is the newest durations of the
/// old one, in order, followed by the new duration.
pub proof fn lemma_window_bounded(times: Seq<u64>, max_samples: int, delta: u64)
    requires
        max_samples >= 1,
        times.len() <= max_samples,
    ensures
        window_after(times, max_samples, delta).len() <= max_samples,
        window_after(times, max_samples, delta).last() == delta,
        window_after(times, max_samples, delta).len() == if times.len() < max_samples {
            times.len() + 1int
        } else {
            max_samples
        },
        forall|j: int|
            0 <= j < window_after(times, max_samples, delta).len() - 1 ==> #[trigger] window_after(
                times,
                max_samples,
                delta,
            )[j] == times[j + times.len() + 1 - window_after(times, max_samples, delta).len()],
{
}

} // verus!
