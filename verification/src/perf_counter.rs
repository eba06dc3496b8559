//! Latency counter for add / update / cancel operations, and the summary
//! statistics (min, max, mean, median) reported for each.
use vstd::prelude::*;
use vstd::relations::sorted_by;

use crate::clock::duration_nanos;

verus! {

#[verifier::external_type_specification]
#[verifier::external_body]
pub struct ExInstant(std::time::Instant);

/// `Instant::now()`: a reading of the monotonic clock. Nothing is stated of it.
#[verifier::external_body]
fn instant_now() -> std::time::Instant {
    std::time::Instant::now()
}

/// `Instant::elapsed`: the time since `start`. Nothing is stated of it: it is
/// whatever the clock says.
#[verifier::external_body]
fn elapsed(start: &std::time::Instant) -> std::time::Duration {
    start.elapsed()
}

/// Ascending order on values.
pub open spec fn ascending() -> spec_fn(u64, u64) -> bool {
    |a: u64, b: u64| a <= b
}

/// `slice::sort_unstable`: the same values, in ascending order.
#[verifier::external_body]
fn sort_values(v: &mut Vec<u64>)
    ensures
        final(v)@.to_multiset() == old(v)@.to_multiset(),
        sorted_by(final(v)@, ascending()),
{
    v.sort_unstable();
}

/// Sum of the values.
pub open spec fn seq_sum(s: Seq<u64>) -> nat
    decreases s.len(),
{
    if s.len() == 0 {
        0
    } else {
        seq_sum(s.drop_last()) + s.last() as nat
    }
}

/// The median: the middle value of the sorted values, or the floor of the mean of
/// the two middle ones when there is an even number of them.
pub open spec fn median_of(s: Seq<u64>) -> int {
    let t = s.sort_by(ascending());
    let n = s.len() as int;
    if n % 2 == 1 {
        t[n / 2] as int
    } else {
        (t[n / 2 - 1] + t[n / 2]) / 2
    }
}

/// The smallest value of a non-empty sequence.
pub open spec fn is_least(s: Seq<u64>, m: u64) -> bool {
    &&& s.contains(m)
    &&& forall|i: int| 0 <= i < s.len() ==> m <= #[trigger] s[i]
}

/// The largest value of a non-empty sequence.
pub open spec fn is_greatest(s: Seq<u64>, m: u64) -> bool {
    &&& s.contains(m)
    &&& forall|i: int| 0 <= i < s.len() ==> #[trigger] s[i] <= m
}

proof fn lemma_ascending_total()
    ensures
        vstd::relations::total_ordering(ascending()),
{
}

proof fn lemma_sum_bound(s: Seq<u64>)
    ensures
        seq_sum(s) <= s.len() * (u64::MAX as nat),
    decreases s.len(),
{
    if s.len() > 0 {
        lemma_sum_bound(s.drop_last());
        assert(seq_sum(s.drop_last()) + s.last() as nat <= (s.len() - 1) * (u64::MAX as nat)
            + u64::MAX) by (nonlinear_arith)
            requires
                seq_sum(s.drop_last()) <= (s.len() - 1) * (u64::MAX as nat),
                s.last() <= u64::MAX,
        ;
        assert((s.len() - 1) * (u64::MAX as nat) + u64::MAX == s.len() * (u64::MAX as nat))
            by (nonlinear_arith);
    }
}

/// Minimum, maximum, mean (rounded down) and median (see `median_of`) of the data;
/// all zero for no data.
pub fn compute_stats(data: &[u64]) -> (r: (u64, u64, u64, u64))
    ensures
        data@.len() == 0 ==> r == (0u64, 0u64, 0u64, 0u64),
        data@.len() > 0 ==> {
            &&& is_least(data@, r.0)
            &&& is_greatest(data@, r.1)
            &&& r.2 == seq_sum(data@) / data@.len()
            &&& r.3 == median_of(data@)
        },
{
    if data.len() == 0 {
        return (0, 0, 0, 0);
    }
    let n = data.len();
    let mut min = data[0];
    let mut max = data[0];
    let mut sum: u128 = 0;
    let mut i: usize = 0;
    while i < n
        invariant
            n == data@.len(),
            n > 0,
            i <= n,
            i == 0 ==> min == data@[0] && max == data@[0],
            i > 0 ==> data@.subrange(0, i as int).contains(min) && data@.subrange(0, i as int).contains(max),
            forall|j: int| 0 <= j < i ==> min <= #[trigger] data@[j] && data@[j] <= max,
            sum == seq_sum(data@.subrange(0, i as int)),
        decreases n - i,
    {
        let x = data[i];
        proof {
            let t = data@.subrange(0, i as int + 1);
            assert(t.drop_last() =~= data@.subrange(0, i as int));
            lemma_sum_bound(t);
            assert(t.len() * (u64::MAX as nat) <= u64::MAX as nat * u64::MAX as nat) by (nonlinear_arith)
                requires
                    t.len() <= u64::MAX,
            ;
        }
        if x < min {
            min = x;
        }
        if x > max {
            max = x;
        }
        sum = sum + x as u128;
        proof {
            let t0 = data@.subrange(0, i as int);
            let t = data@.subrange(0, i as int + 1);
            if i > 0 {
                if t0.contains(min) {
                    let k = choose|k: int| 0 <= k < t0.len() && t0[k] == min;
                    assert(t[k] == min);
                }
                if t0.contains(max) {
                    let k = choose|k: int| 0 <= k < t0.len() && t0[k] == max;
                    assert(t[k] == max);
                }
            }
            assert(t[i as int] == x);
            if min == x {
                assert(t.contains(min));
            } else if i == 0 {
                assert(t[0] == min);
            }
            if max == x {
                assert(t.contains(max));
            } else if i == 0 {
                assert(t[0] == max);
            }
        }
        i = i + 1;
    }
    proof {
        assert(data@.subrange(0, n as int) =~= data@);
        lemma_sum_bound(data@);
        let total = seq_sum(data@);
        assert(total / (n as nat) <= u64::MAX) by (nonlinear_arith)
            requires
                total <= (n as nat) * (u64::MAX as nat),
                n > 0,
        ;
    }
    let mean = (sum / (n as u128)) as u64;
    let mut sorted = vstd::slice::slice_to_vec(data);
    sort_values(&mut sorted);
    proof {
        broadcast use vstd::seq_lib::group_to_multiset_ensures;
        assert(sorted@.to_multiset().len() == data@.to_multiset().len());
        assert(sorted@.len() == data@.len());
        lemma_ascending_total();
        data@.lemma_sort_by_ensures(ascending());
        vstd::seq_lib::lemma_sorted_unique(sorted@, data@.sort_by(ascending()), ascending());
    }
    let med = if n % 2 == 1 {
        sorted[n / 2]
    } else {
        let lo = sorted[n / 2 - 1];
        let hi = sorted[n / 2];
        proof {
            assert((ascending())(sorted@[n / 2 - 1], sorted@[(n / 2) as int]));
        }
        lo + (hi - lo) / 2
    };
    (min, max, mean, med)
}

pub struct PerfCounter {
    add_stats: Vec<u64>,
    update_stats: Vec<u64>,
    cancel_stats: Vec<u64>,
    output_file: String,
}

/// Call `f` and measure how long it took, in nanoseconds (truncated to 64 bits).
fn timed<F: FnOnce() -> R, R>(f: F) -> (r: (R, u64))
    requires
        f.requires(()),
    ensures
        f.ensures((), r.0),
{
    let start = instant_now();
    let r = f();
    let ns = duration_nanos(&elapsed(&start)) as u64;
    (r, ns)
}

impl PerfCounter {
    pub fn new(output_file: String) -> (p: Self)
        ensures
            p.adds() == Seq::<u64>::empty(),
            p.updates() == Seq::<u64>::empty(),
            p.cancels() == Seq::<u64>::empty(),
            p.file_name() == output_file@,
    {
        PerfCounter {
            add_stats: Vec::new(),
            update_stats: Vec::new(),
            cancel_stats: Vec::new(),
            output_file,
        }
    }

    pub closed spec fn adds(&self) -> Seq<u64> {
        self.add_stats@
    }

    pub closed spec fn updates(&self) -> Seq<u64> {
        self.update_stats@
    }

    pub closed spec fn cancels(&self) -> Seq<u64> {
        self.cancel_stats@
    }

    pub closed spec fn file_name(&self) -> Seq<char> {
        self.output_file@
    }

    /// The recorded add timings, oldest first.
    pub fn add_samples(&self) -> (r: &Vec<u64>)
        ensures
            r@ == self.adds(),
    {
        &self.add_stats
    }

    /// The recorded update timings, oldest first.
    pub fn update_samples(&self) -> (r: &Vec<u64>)
        ensures
            r@ == self.updates(),
    {
        &self.update_stats
    }

    /// The recorded cancel timings, oldest first.
    pub fn cancel_samples(&self) -> (r: &Vec<u64>)
        ensures
            r@ == self.cancels(),
    {
        &self.cancel_stats
    }

    /// Where the timings are to be written.
    pub fn output_file(&self) -> (r: &str)
        ensures
            r@ == self.file_name(),
    {
        self.output_file.as_str()
    }

    /// Run `f`, recording how long it took among the add timings.
    pub fn time_add<F: FnOnce() -> R, R>(&mut self, f: F) -> (r: R)
        requires
            f.requires(()),
        ensures
            f.ensures((), r),
            final(self).adds().len() == old(self).adds().len() + 1,
            final(self).adds().drop_last() == old(self).adds(),
            final(self).updates() == old(self).updates(),
            final(self).cancels() == old(self).cancels(),
            final(self).file_name() == old(self).file_name(),
    {
        let (r, ns) = timed(f);
        self.add_stats.push(ns);
        assert(self.add_stats@.drop_last() =~= old(self).add_stats@);
        r
    }

    /// Run `f`, recording how long it took among the update timings.
    pub fn time_update<F: FnOnce() -> R, R>(&mut self, f: F) -> (r: R)
        requires
            f.requires(()),
        ensures
            f.ensures((), r),
            final(self).updates().len() == old(self).updates().len() + 1,
            final(self).updates().drop_last() == old(self).updates(),
            final(self).adds() == old(self).adds(),
            final(self).cancels() == old(self).cancels(),
            final(self).file_name() == old(self).file_name(),
    {
        let (r, ns) = timed(f);
        self.update_stats.push(ns);
        assert(self.update_stats@.drop_last() =~= old(self).update_stats@);
        r
    }

    /// Run `f`, recording how long it took among the cancel timings.
    pub fn time_cancel<F: FnOnce() -> R, R>(&mut self, f: F) -> (r: R)
        requires
            f.requires(()),
        ensures
            f.ensures((), r),
            final(self).cancels().len() == old(self).cancels().len() + 1,
            final(self).cancels().drop_last() == old(self).cancels(),
            final(self).adds() == old(self).adds(),
            final(self).updates() == old(self).updates(),
            final(self).file_name() == old(self).file_name(),
    {
        let (r, ns) = timed(f);
        self.cancel_stats.push(ns);
        assert(self.cancel_stats@.drop_last() =~= old(self).cancel_stats@);
        r
    }
}

} // verus!
