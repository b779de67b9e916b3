//! The cooking-time estimator: the initial cooking time of a new order line.

use vstd::prelude::*;
use rand::Rng;

verus! {

/// The least cooking time that an estimator assigns.
pub const MIN_COOKING_TIME: i64 = 5;

/// The greatest cooking time that an estimator assigns.
pub const MAX_COOKING_TIME: i64 = 15;

/// Whether a cooking time is one that an estimator may assign.
pub open spec fn is_estimate(t: i64) -> bool {
    MIN_COOKING_TIME <= t <= MAX_COOKING_TIME
}

/// Draws an integer from the thread-local generator of `rand`, by
/// `rand::thread_rng` and `Rng::gen_range` on the inclusive range from `low`
/// to `high`. Trusted: the value lies in that range. `gen_range` panics on an
/// empty range, which `low <= high` rules out. Nothing is claimed of which
/// value is drawn. The generator seeds itself from the operating system on
/// its first use in a thread, and `rand` panics where the system gives no
/// seed.
#[verifier::external_body]
fn random_in_range(low: i64, high: i64) -> (r: i64)
    requires
        low <= high,
    ensures
        low <= r <= high,
{
    rand::thread_rng().gen_range(low..=high)
}

/// A source of initial cooking times. The engine asks it once for each line
/// that it creates, and never when it merges or removes.
pub trait Estimator {
    /// Whether this estimator may answer `t`.
    spec fn offers(&self, t: i64) -> bool;

    /// How often this estimator has been asked.
    spec fn asked(&self) -> nat;

    /// The cooking time of the next new line: admissible, and one that this
    /// estimator offers. What it offers does not change with the call, which
    /// is counted.
    fn estimate(&mut self) -> (t: i64)
        ensures
            is_estimate(t),
            old(self).offers(t),
            forall|u: i64| final(self).offers(u) == old(self).offers(u),
            final(self).asked() == old(self).asked() + 1,
    ;
}

/// An estimator that draws each cooking time at random.
pub struct RandomEstimator {
    asked: Ghost<nat>,
}

impl RandomEstimator {
    /// A random estimator that has not been asked yet.
    pub fn new() -> (e: RandomEstimator)
        ensures
            e.asked() == 0,
    {
        RandomEstimator { asked: Ghost(0) }
    }
}

impl Estimator for RandomEstimator {
    /// Every admissible cooking time.
    open spec fn offers(&self, t: i64) -> bool {
        is_estimate(t)
    }

    closed spec fn asked(&self) -> nat {
        self.asked@
    }

    fn estimate(&mut self) -> (t: i64) {
        proof {
            self.asked@ = self.asked@ + 1;
        }
        random_in_range(MIN_COOKING_TIME, MAX_COOKING_TIME)
    }
}

/// An estimator that assigns the same cooking time to every line, and
/// counts how often it is asked.
pub struct FixedEstimator {
    value: i64,
    calls: u64,
    beyond: Ghost<nat>,
}

impl FixedEstimator {
    /// The cooking time that this estimator assigns.
    pub closed spec fn value(&self) -> i64 {
        if self.value < MIN_COOKING_TIME {
            MIN_COOKING_TIME
        } else if self.value > MAX_COOKING_TIME {
            MAX_COOKING_TIME
        } else {
            self.value
        }
    }

    /// An estimator that always answers `value`, where `value` is a cooking
    /// time that an estimator may assign, and none otherwise.
    pub fn new(value: i64) -> (e: Option<FixedEstimator>)
        ensures
            e is Some <==> is_estimate(value),
            e matches Some(f) ==> f.value() == value && f.asked() == 0,
    {
        if MIN_COOKING_TIME <= value && value <= MAX_COOKING_TIME {
            Some(FixedEstimator { value: value, calls: 0, beyond: Ghost(0) })
        } else {
            None
        }
    }

    /// How often this estimator has been asked, as far as a `u64` counts.
    pub fn times_asked(&self) -> (n: u64)
        ensures
            n == if self.asked() <= u64::MAX {
                self.asked()
            } else {
                u64::MAX as nat
            },
    {
        self.calls
    }
}

impl Estimator for FixedEstimator {
    /// The one cooking time that this estimator holds.
    open spec fn offers(&self, t: i64) -> bool {
        t == self.value()
    }

    closed spec fn asked(&self) -> nat {
        if self.calls < u64::MAX {
            self.calls as nat
        } else {
            u64::MAX as nat + self.beyond@
        }
    }

    fn estimate(&mut self) -> (t: i64)
        ensures
            t == old(self).value(),
            final(self).value() == old(self).value(),
    {
        if self.calls < u64::MAX {
            self.calls = self.calls + 1;
            proof {
                self.beyond@ = 0;
            }
        } else {
            proof {
                self.beyond@ = self.beyond@ + 1;
            }
        }
        if self.value < MIN_COOKING_TIME {
            MIN_COOKING_TIME
        } else if self.value > MAX_COOKING_TIME {
            MAX_COOKING_TIME
        } else {
            self.value
        }
    }
}

} // verus!
