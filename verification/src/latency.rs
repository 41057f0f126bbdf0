//! How long things take, as a histogram keeps it.

use vstd::multiset::Multiset;
use vstd::prelude::*;

use histogram::Histogram;

verus! {

/// The largest sample that a histogram keeps.
pub const LARGEST_KEPT: u64 = 60_000_000_000;

/// Up to here a histogram keeps samples as they are. Larger ones it keeps to three figures.
pub const LARGEST_EXACT: u64 = 1024;

/// Up to so many samples a histogram finds the largest among them.
pub const MOST_TOLD_APART: u64 = 9_007_199_254_740_992;

/// `histogram`'s `Histogram`, of which only what the wrappers say is known.
#[verifier::external_type_specification]
#[verifier::external_body]
pub struct ExHistogram(Histogram);

/// The samples that were recorded, those that are too large to be kept among them.
pub uninterp spec fn samples(histogram: Histogram) -> Multiset<u64>;

/// The histogram was made with the default configuration.
pub uninterp spec fn by_default(histogram: Histogram) -> bool;

/// What a histogram made with the default configuration takes for the smallest of the samples.
pub uninterp spec fn smallest_told(samples: Multiset<u64>) -> Option<u64>;

/// What a histogram made with the default configuration takes for the largest of the samples.
pub uninterp spec fn largest_told(samples: Multiset<u64>) -> Option<u64>;

/// `Histogram::new`: a histogram with the default configuration, without samples.
#[verifier::external_body]
fn new_histogram() -> (r: Histogram)
    ensures
        samples(r) == Multiset::<u64>::empty(),
        by_default(r),
{
    Histogram::new()
}

/// `Histogram::increment`: one more sample. Where it is too large to be kept, it is counted all the same.
#[verifier::external_body]
fn add_sample(histogram: &mut Histogram, sample: u64)
    ensures
        samples(*final(histogram)) == samples(*old(histogram)).insert(sample),
        by_default(*final(histogram)) == by_default(*old(histogram)),
    no_unwind
{
    let _ = histogram.increment(sample);
}

/// `Histogram::entries`: how many samples were recorded, as far as they can be counted.
#[verifier::external_body]
fn sample_count(histogram: &Histogram) -> (r: u64)
    ensures
        r == (if samples(*histogram).len() < u64::MAX {
            samples(*histogram).len()
        } else {
            u64::MAX as nat
        }),
{
    histogram.entries()
}

/// `Histogram::minimum`, with the default configuration: the smallest sample, where there is one among
/// those that are kept as they are; nothing where no sample is kept. How others are rounded is left to
/// that function.
#[verifier::external_body]
fn smallest_sample(histogram: &Histogram) -> (r: Option<u64>)
    requires
        by_default(*histogram),
    ensures
        r == smallest_told(samples(*histogram)),
        r is None <==> forall|v: u64| samples(*histogram).contains(v) ==> v > LARGEST_KEPT,
        forall|v: u64|
            #[trigger] is_smallest(samples(*histogram), v) && v <= LARGEST_EXACT ==> r == Some(v),
{
    histogram.minimum().ok()
}

/// `Histogram::maximum`, with the default configuration: the largest sample, where all are kept as they
/// are; nothing where there is none, or where one is too large to be kept. How others are rounded is left
/// to that function, and so is what it finds where there are too many samples to be told apart.
#[verifier::external_body]
fn largest_sample(histogram: &Histogram) -> (r: Option<u64>)
    requires
        by_default(*histogram),
        samples(*histogram).len() <= u64::MAX,
    ensures
        r == largest_told(samples(*histogram)),
        samples(*histogram).len() <= MOST_TOLD_APART ==> (r is None <==> samples(*histogram).len() == 0
            || exists|v: u64| samples(*histogram).contains(v) && v > LARGEST_KEPT),
        forall|v: u64|
            #[trigger] is_largest(samples(*histogram), v) && v <= LARGEST_EXACT
                && samples(*histogram).len() <= MOST_TOLD_APART ==> r == Some(v),
{
    histogram.maximum().ok()
}

/// The smallest of the samples.
pub open spec fn is_smallest(samples: Multiset<u64>, v: u64) -> bool {
    &&& samples.contains(v)
    &&& forall|w: u64| #[trigger] samples.contains(w) ==> v <= w
}

/// The largest of the samples.
pub open spec fn is_largest(samples: Multiset<u64>, v: u64) -> bool {
    &&& samples.contains(v)
    &&& forall|w: u64| #[trigger] samples.contains(w) ==> w <= v
}

/// The number, or zero where there is none.
pub open spec fn or_zero(number: Option<u64>) -> u64 {
    match number {
        Some(number) => number,
        None => 0,
    }
}

/// How long something took, each time, in microseconds.
pub struct Latencies {
    histogram: Histogram,
}

impl View for Latencies {
    type V = Multiset<u64>;

    closed spec fn view(&self) -> Multiset<u64> {
        samples(self.histogram)
    }
}

impl Latencies {
    #[verifier::type_invariant]
    spec fn well_formed(self) -> bool {
        &&& by_default(self.histogram)
        &&& samples(self.histogram).len() <= u64::MAX
    }

    /// Nothing has been recorded.
    pub fn new() -> (r: Self)
        ensures
            r@ == Multiset::<u64>::empty(),
    {
        broadcast use vstd::multiset::group_multiset_axioms;

        Latencies { histogram: new_histogram() }
    }

    /// Records how long it took.
    pub fn record(&mut self, us: u64)
        requires
            old(self)@.len() < u64::MAX,
        ensures
            final(self)@ == old(self)@.insert(us),
    {
        proof {
            broadcast use vstd::multiset::group_multiset_axioms;

            use_type_invariant(&*self);
        }
        add_sample(&mut self.histogram, us);
    }

    /// How many times something was recorded.
    pub fn recorded(&self) -> (r: u64)
        ensures
            r == self@.len(),
    {
        proof {
            use_type_invariant(self);
        }
        sample_count(&self.histogram)
    }

    /// The shortest that it took, or zero where that is not known.
    pub fn shortest(&self) -> (r: u64)
        ensures
            r == or_zero(smallest_told(self@)),
            (forall|v: u64| self@.contains(v) ==> v > LARGEST_KEPT) ==> r == 0,
            forall|v: u64| #[trigger] is_smallest(self@, v) && v <= LARGEST_EXACT ==> r == v,
    {
        proof {
            use_type_invariant(self);
        }
        match smallest_sample(&self.histogram) {
            Some(us) => us,
            None => 0,
        }
    }

    /// The longest that it took, or zero where that is not known.
    pub fn longest(&self) -> (r: u64)
        ensures
            r == or_zero(largest_told(self@)),
            self@.len() <= MOST_TOLD_APART && (self@.len() == 0 || exists|v: u64|
                self@.contains(v) && v > LARGEST_KEPT) ==> r == 0,
            forall|v: u64|
                #[trigger] is_largest(self@, v) && v <= LARGEST_EXACT && self@.len()
                    <= MOST_TOLD_APART ==> r == v,
    {
        proof {
            use_type_invariant(self);
        }
        match largest_sample(&self.histogram) {
            Some(us) => us,
            None => 0,
        }
    }

    /// The histogram that keeps what was recorded.
    pub fn histogram(&self) -> (r: &Histogram)
        ensures
            samples(*r) == self@,
            by_default(*r),
    {
        proof {
            use_type_invariant(self);
        }
        &self.histogram
    }
}

/// The smallest and the largest of the samples are among them, and none is smaller or larger; a number
/// that is not known is taken for zero.
pub proof fn law_smallest_and_largest(samples: Multiset<u64>, v: u64, number: Option<u64>)
    ensures
        is_smallest(samples, v) <==> samples.contains(v) && forall|w: u64| #[trigger]
            samples.contains(w) ==> v <= w,
        is_largest(samples, v) <==> samples.contains(v) && forall|w: u64| #[trigger]
            samples.contains(w) ==> v >= w,
        number matches Some(n) ==> or_zero(number) == n,
        number is None ==> or_zero(number) == 0,
        LARGEST_KEPT == 60_000_000_000,
        LARGEST_EXACT == 1024,
        MOST_TOLD_APART == 9_007_199_254_740_992,
{
}

} // verus!
