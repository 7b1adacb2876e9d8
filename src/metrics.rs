use vstd::prelude::*;

use std::time::{Duration, Instant};

verus! {

#[verifier::external_type_specification]
#[verifier::external_body]
pub struct ExInstant(Instant);

/// Relies on `Instant::now`: a sample of the monotonic clock; nothing is
/// known of its value.
pub assume_specification[ Instant::now ]() -> Instant;

/// Relies on `Instant::elapsed`: the time since the sample was taken;
/// nothing is known of its value.
pub assume_specification[ Instant::elapsed ](this: &Instant) -> Duration;

/// Runs `f` once between two samples of the monotonic clock and returns its
/// result with the time it took.
pub fn measure_time<F, R>(f: F) -> (res: (R, Duration)) where F: FnOnce() -> R
    requires
        f.requires(()),
    ensures
        f.ensures((), res.0),
{
    let start = Instant::now();
    let result = f();
    let dt = start.elapsed();
    (result, dt)
}

/// The fraction `num / den`; `den` is never 0.
#[derive(Clone, Copy, Debug, PartialEq, Eq)]
pub struct Ratio {
    pub num: u128,
    pub den: u128,
}

/// The ratio of a sequential time to a parallel one, both in nanoseconds;
/// 0 when the parallel time is 0.
pub fn parallel_speedup(t_seq_ns: u64, t_par_ns: u64) -> (r: Ratio)
    ensures
        r.den > 0,
        t_par_ns == 0 ==> r.num == 0 && r.den == 1,
        t_par_ns > 0 ==> r.num == t_seq_ns && r.den == t_par_ns,
{
    if t_par_ns == 0 {
        return Ratio { num: 0, den: 1 };
    }
    Ratio { num: t_seq_ns as u128, den: t_par_ns as u128 }
}

/// The speedup per thread, clamped to at most 1; 0 when the parallel time or
/// the thread count is 0.
pub fn parallel_efficiency(t_seq_ns: u64, t_par_ns: u64, num_threads: u64) -> (r: Ratio)
    ensures
        r.den > 0,
        r.num <= r.den,
        t_par_ns == 0 || num_threads == 0 ==> r.num == 0 && r.den == 1,
        t_par_ns > 0 && num_threads > 0 && t_seq_ns >= t_par_ns * num_threads ==> r.num == 1
            && r.den == 1,
        t_par_ns > 0 && num_threads > 0 && t_seq_ns < t_par_ns * num_threads ==> r.num
            == t_seq_ns && r.den == t_par_ns * num_threads,
{
    if t_par_ns == 0 || num_threads == 0 {
        return Ratio { num: 0, den: 1 };
    }
    let speedup = parallel_speedup(t_seq_ns, t_par_ns);
    proof {
        assert(1 <= t_par_ns * num_threads <= u64::MAX * u64::MAX) by (nonlinear_arith)
            requires
                t_par_ns >= 1,
                num_threads >= 1,
                t_par_ns <= u64::MAX,
                num_threads <= u64::MAX,
        ;
    }
    let den = speedup.den * (num_threads as u128);
    if speedup.num >= den {
        Ratio { num: 1, den: 1 }
    } else {
        Ratio { num: speedup.num, den }
    }
}

} // verus!
