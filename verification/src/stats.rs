//! Statistics engine: exact integer aggregates over the durations of all
//! records matching one command signature.
//!
//! For matching durations `d_1 .. d_n` (nanoseconds) the summary carries the
//! count `n`, the minimum, the maximum, the sum `S`, and the deviation
//! numerator `D = n * (d_1^2 + .. + d_n^2) - S^2`. These determine the mean
//! `S / n` and the population standard deviation `sqrt(D) / n` (both in
//! nanoseconds), which the display layer derives in floating point.
use vstd::prelude::*;
use crate::history::{
    rec_matches, CommandSignature, History, RecordView, SigView, TimingRecord,
    record_matches, clone_strings,
};

verus! {

/// The durations (in order) of the records of `h` that match signature `s`.
pub open spec fn durations_of(h: Seq<RecordView>, s: SigView) -> Seq<u64>
    decreases h.len(),
{
    if h.len() == 0 {
        Seq::<u64>::empty()
    } else if rec_matches(h.last(), s) {
        durations_of(h.drop_last(), s).push(h.last().duration_ns)
    } else {
        durations_of(h.drop_last(), s)
    }
}

/// Sum of a sequence of durations.
pub open spec fn sum_of(ds: Seq<u64>) -> int
    decreases ds.len(),
{
    if ds.len() == 0 {
        0
    } else {
        sum_of(ds.drop_last()) + ds.last()
    }
}

/// Sum of the squares of a sequence of durations.
pub open spec fn sum_sq_of(ds: Seq<u64>) -> int
    decreases ds.len(),
{
    if ds.len() == 0 {
        0
    } else {
        sum_sq_of(ds.drop_last()) + ds.last() * ds.last()
    }
}

/// Minimum of a non-empty sequence of durations (0 on an empty one).
pub open spec fn min_of(ds: Seq<u64>) -> u64
    decreases ds.len(),
{
    if ds.len() == 0 {
        0u64
    } else if ds.len() == 1 {
        ds.last()
    } else if ds.last() < min_of(ds.drop_last()) {
        ds.last()
    } else {
        min_of(ds.drop_last())
    }
}

/// Maximum of a sequence of durations (0 on an empty one).
pub open spec fn max_of(ds: Seq<u64>) -> u64
    decreases ds.len(),
{
    if ds.len() == 0 {
        0u64
    } else if ds.last() > max_of(ds.drop_last()) {
        ds.last()
    } else {
        max_of(ds.drop_last())
    }
}

/// Whether the integer aggregates of `ds` all fit in a `u128`. The sum always
/// does; only the squared terms can outgrow the machine.
pub open spec fn aggregates_fit(ds: Seq<u64>) -> bool {
    sum_sq_of(ds) <= u128::MAX && ds.len() * sum_sq_of(ds) <= u128::MAX
}

/// The deviation numerator `n * sum of squares - (sum)^2`.
pub open spec fn dev_num_of(ds: Seq<u64>) -> int {
    ds.len() * sum_sq_of(ds) - sum_of(ds) * sum_of(ds)
}

/// Errors of the statistics engine: `NoSamples` when no record matches the
/// signature, `Overflow` when the exact aggregates do not fit in a `u128`
/// (durations are unbounded in principle, the machine is not).
#[derive(Debug)]
pub enum StatsError {
    NoSamples,
    Overflow,
}

/// Derived, never persisted summary of one signature's durations. All fields
/// are exact integers; mean and standard deviation in seconds follow as
/// `sum_ns / count / 1e9` and `sqrt(dev_num) / count / 1e9`.
pub struct StatisticsSummary {
    pub command: String,
    pub args: Vec<String>,
    pub count: usize,
    pub min_ns: u64,
    pub max_ns: u64,
    pub sum_ns: u128,
    pub dev_num: u128,
}

/// Every term of the sum is bounded, so the sum is bounded by count times the
/// largest duration value.
proof fn lemma_sum_bound(ds: Seq<u64>)
    ensures
        0 <= sum_of(ds) <= ds.len() * (u64::MAX as int),
    decreases ds.len(),
{
    if ds.len() > 0 {
        lemma_sum_bound(ds.drop_last());
    }
}

/// The sum of squares only grows as the sequence grows.
proof fn lemma_sum_sq_nonneg(ds: Seq<u64>)
    ensures
        0 <= sum_sq_of(ds),
    decreases ds.len(),
{
    if ds.len() > 0 {
        lemma_sum_sq_nonneg(ds.drop_last());
        assert(ds.last() * ds.last() >= 0) by (nonlinear_arith);
    }
}

/// Cauchy-Schwarz for the aggregates: the squared sum never exceeds the count
/// times the sum of squares, so the deviation numerator is never negative.
pub proof fn lemma_dev_num_nonneg(ds: Seq<u64>)
    ensures
        sum_of(ds) * sum_of(ds) <= ds.len() * sum_sq_of(ds),
    decreases ds.len(),
{
    if ds.len() == 0 {
    } else {
        let p = ds.drop_last();
        let d = ds.last() as int;
        lemma_dev_num_nonneg(p);
        lemma_sum_bound(p);
        lemma_sum_sq_nonneg(p);
        let s = sum_of(p);
        let q = sum_sq_of(p);
        let n = p.len() as int;
        if n == 0 {
            assert(s == 0);
            assert(q == 0);
            assert(2 * d * s <= n * (d * d) + q) by (nonlinear_arith)
                requires
                    s == 0,
                    q == 0,
                    n == 0,
            ;
        } else {
            // (n*d - s)^2 >= 0 gives 2*n*d*s <= n^2*d^2 + s^2 <= n^2*d^2 + n*q,
            // and dividing by n > 0 gives 2*d*s <= n*d^2 + q.
            assert((n * d - s) * (n * d - s) >= 0) by (nonlinear_arith);
            assert(2 * d * s <= n * (d * d) + q) by (nonlinear_arith)
                requires
                    n > 0,
                    s * s <= n * q,
                    (n * d - s) * (n * d - s) >= 0,
            ;
        }
        assert((s + d) * (s + d) <= (n + 1) * (q + d * d)) by (nonlinear_arith)
            requires
                s * s <= n * q,
                2 * d * s <= n * (d * d) + q,
                d * d >= 0,
            ;
    }
}

/// Collects, in order, the durations of the records of `h` matching `sig`.
pub fn durations_for(h: &History, sig: &CommandSignature) -> (out: Vec<u64>)
    ensures
        out@ == durations_of(h@, sig@),
{
    let mut out: Vec<u64> = Vec::new();
    let mut i: usize = 0;
    while i < h.timings.len()
        invariant
            i <= h@.len(),
            h@.len() == h.timings@.len(),
            forall|j: int| 0 <= j < h@.len() ==> h@[j] == h.timings@[j]@,
            out@ == durations_of(h@.subrange(0, i as int), sig@),
        decreases h@.len() - i,
    {
        let ghost pre = h@.subrange(0, i as int);
        let ghost post = h@.subrange(0, i as int + 1);
        proof {
            assert(post.drop_last() =~= pre);
            assert(post.last() == h@[i as int]);
        }
        if record_matches(&h.timings[i], sig) {
            out.push(h.timings[i].duration_ns);
        }
        i += 1;
    }
    proof {
        assert(h@.subrange(0, h@.len() as int) =~= h@);
    }
    out
}

/// Sum of the durations, exact: it always fits in a `u128`.
pub fn sum_ns(ds: &Vec<u64>) -> (s: u128)
    ensures
        s == sum_of(ds@),
{
    let mut acc: u128 = 0;
    let mut i: usize = 0;
    while i < ds.len()
        invariant
            i <= ds@.len(),
            acc == sum_of(ds@.subrange(0, i as int)),
        decreases ds@.len() - i,
    {
        let ghost pre = ds@.subrange(0, i as int);
        let ghost post = ds@.subrange(0, i as int + 1);
        proof {
            assert(post.drop_last() =~= pre);
            lemma_sum_bound(pre);
            assert(pre.len() * (u64::MAX as int) <= (usize::MAX as int) * (u64::MAX as int));
            assert((usize::MAX as int) * (u64::MAX as int) + (u64::MAX as int) <= u128::MAX as int);
        }
        acc = acc + ds[i] as u128;
        i += 1;
    }
    proof {
        assert(ds@.subrange(0, ds@.len() as int) =~= ds@);
    }
    acc
}

/// Sum of the squared durations; `None` exactly when the exact value does not
/// fit in a `u128`.
pub fn sum_sq_ns(ds: &Vec<u64>) -> (s: Option<u128>)
    ensures
        match s {
            Some(v) => v == sum_sq_of(ds@),
            None => sum_sq_of(ds@) > u128::MAX,
        },
{
    let mut acc: u128 = 0;
    let mut i: usize = 0;
    while i < ds.len()
        invariant
            i <= ds@.len(),
            acc == sum_sq_of(ds@.subrange(0, i as int)),
        decreases ds@.len() - i,
    {
        let ghost pre = ds@.subrange(0, i as int);
        let ghost post = ds@.subrange(0, i as int + 1);
        proof {
            assert(post.drop_last() =~= pre);
            assert((ds[i as int] as int) * (ds[i as int] as int) <= (u64::MAX as int) * (u64::MAX as int))
                by (nonlinear_arith)
                requires
                    0 <= ds[i as int] as int <= u64::MAX as int,
            ;
            assert((u64::MAX as int) * (u64::MAX as int) < u128::MAX as int);
        }
        let sq: u128 = (ds[i] as u128) * (ds[i] as u128);
        match acc.checked_add(sq) {
            Some(next) => {
                acc = next;
            },
            None => {
                proof {
                    lemma_sum_sq_grows(ds@, i as int + 1);
                }
                return None;
            },
        }
        i += 1;
    }
    proof {
        assert(ds@.subrange(0, ds@.len() as int) =~= ds@);
    }
    Some(acc)
}

/// The sum of squares over a prefix never exceeds the sum over the whole.
proof fn lemma_sum_sq_grows(ds: Seq<u64>, i: int)
    requires
        0 <= i <= ds.len(),
    ensures
        sum_sq_of(ds.subrange(0, i)) <= sum_sq_of(ds),
    decreases ds.len() - i,
{
    if i == ds.len() {
        assert(ds.subrange(0, i) =~= ds);
    } else {
        lemma_sum_sq_grows(ds, i + 1);
        let pre = ds.subrange(0, i);
        let post = ds.subrange(0, i + 1);
        assert(post.drop_last() =~= pre);
        assert(post.last() * post.last() >= 0) by (nonlinear_arith);
    }
}

/// Minimum of a non-empty duration vector.
pub fn min_ns(ds: &Vec<u64>) -> (m: u64)
    requires
        ds@.len() > 0,
    ensures
        m == min_of(ds@),
{
    let mut m: u64 = ds[0];
    proof {
        assert(ds@.subrange(0, 1) =~= seq![ds@[0]]);
        assert(min_of(ds@.subrange(0, 1)) == ds@[0]);
    }
    let mut i: usize = 1;
    while i < ds.len()
        invariant
            1 <= i <= ds@.len(),
            m == min_of(ds@.subrange(0, i as int)),
        decreases ds@.len() - i,
    {
        let ghost pre = ds@.subrange(0, i as int);
        let ghost post = ds@.subrange(0, i as int + 1);
        proof {
            assert(post.drop_last() =~= pre);
        }
        if ds[i] < m {
            m = ds[i];
        }
        i += 1;
    }
    proof {
        assert(ds@.subrange(0, ds@.len() as int) =~= ds@);
    }
    m
}

/// Maximum of a non-empty duration vector.
pub fn max_ns(ds: &Vec<u64>) -> (m: u64)
    requires
        ds@.len() > 0,
    ensures
        m == max_of(ds@),
{
    let mut m: u64 = ds[0];
    proof {
        assert(ds@.subrange(0, 1) =~= seq![ds@[0]]);
        assert(seq![ds@[0]].drop_last() =~= Seq::<u64>::empty());
        assert(max_of(Seq::<u64>::empty()) == 0);
        assert(max_of(seq![ds@[0]]) == ds@[0]);
    }
    let mut i: usize = 1;
    while i < ds.len()
        invariant
            1 <= i <= ds@.len(),
            m == max_of(ds@.subrange(0, i as int)),
        decreases ds@.len() - i,
    {
        let ghost pre = ds@.subrange(0, i as int);
        let ghost post = ds@.subrange(0, i as int + 1);
        proof {
            assert(post.drop_last() =~= pre);
        }
        if ds[i] > m {
            m = ds[i];
        }
        i += 1;
    }
    proof {
        assert(ds@.subrange(0, ds@.len() as int) =~= ds@);
    }
    m
}

/// The deviation numerator `n * sum of squares - sum^2` of a duration vector;
/// `None` exactly when one of the exact aggregates does not fit in a `u128`.
pub fn deviation_numerator(ds: &Vec<u64>) -> (r: Option<u128>)
    ensures
        match r {
            Some(v) => v == dev_num_of(ds@) && aggregates_fit(ds@),
            None => !aggregates_fit(ds@),
        },
{
    let s = sum_ns(ds);
    let qo = sum_sq_ns(ds);
    proof {
        lemma_sum_sq_nonneg(ds@);
    }
    let q = match qo {
        Some(q) => q,
        None => {
            return None;
        },
    };
    let n = ds.len();
    let nq = match (n as u128).checked_mul(q) {
        Some(nq) => nq,
        None => {
            return None;
        },
    };
    proof {
        lemma_dev_num_nonneg(ds@);
        lemma_sum_bound(ds@);
        // sum^2 <= n * sum_sq <= u128::MAX, so the square and the difference
        // both fit.
        assert(sum_of(ds@) * sum_of(ds@) <= u128::MAX as int);
    }
    let sq_of_sum = s * s;
    Some(nq - sq_of_sum)
}

/// Computes the statistics summary of `sig` over `h`: count, min, max, sum and
/// deviation numerator of the durations of exactly the records whose signature
/// equals `sig`. Fails with `NoSamples` iff no record matches, and with
/// `Overflow` iff records match but the exact aggregates exceed a `u128`.
pub fn summarize(h: &History, sig: &CommandSignature) -> (r: Result<StatisticsSummary, StatsError>)
    ensures
        match r {
            Ok(s) => {
                let ds = durations_of(h@, sig@);
                &&& ds.len() > 0
                &&& aggregates_fit(ds)
                &&& s.command@ == sig@.command
                &&& crate::history::strs_view(s.args@) == sig@.args
                &&& s.count == ds.len()
                &&& s.min_ns == min_of(ds)
                &&& s.max_ns == max_of(ds)
                &&& s.sum_ns == sum_of(ds)
                &&& s.dev_num == dev_num_of(ds)
            },
            Err(StatsError::NoSamples) => durations_of(h@, sig@).len() == 0,
            Err(StatsError::Overflow) => {
                &&& durations_of(h@, sig@).len() > 0
                &&& !aggregates_fit(durations_of(h@, sig@))
            },
        },
{
    let ds = durations_for(h, sig);
    if ds.len() == 0 {
        return Err(StatsError::NoSamples);
    }
    let dev_num = match deviation_numerator(&ds) {
        Some(v) => v,
        None => {
            return Err(StatsError::Overflow);
        },
    };
    Ok(StatisticsSummary {
        command: sig.command.clone(),
        args: clone_strings(&sig.args),
        count: ds.len(),
        min_ns: min_ns(&ds),
        max_ns: max_ns(&ds),
        sum_ns: sum_ns(&ds),
        dev_num,
    })
}

/// Appending a record of a different signature leaves another signature's
/// durations — and with them every statistic derived from `h` — unchanged.
pub proof fn lemma_signature_isolation(h: Seq<RecordView>, r: RecordView, s: SigView)
    requires
        !rec_matches(r, s),
    ensures
        durations_of(h.push(r), s) == durations_of(h, s),
{
    assert(h.push(r).drop_last() =~= h);
}

/// Appending a record of a signature extends exactly that signature's
/// durations by the new duration, at the end.
pub proof fn lemma_signature_extends(h: Seq<RecordView>, r: RecordView, s: SigView)
    requires
        rec_matches(r, s),
    ensures
        durations_of(h.push(r), s) == durations_of(h, s).push(r.duration_ns),
{
    assert(h.push(r).drop_last() =~= h);
}

} // verus!
