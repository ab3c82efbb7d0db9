//! The statistics engine: count, extremes, sum, median and percentiles of a
//! sequence of non-negative integers.
//!
//! Positions are taken in the sequence as it is given. The engine does not
//! sort: a caller that wants the usual meaning of "median" and "percentile"
//! hands in sorted values.
//!
//! A summary holds integers only. The mean of the values is the quotient of
//! its `sum` and its count `n`; what is proved of it is stated without the
//! division, as `n * min <= sum <= n * max`.

use vstd::prelude::*;

verus! {

/// The sum of all values, as a mathematical integer.
pub open spec fn total(s: Seq<usize>) -> int
    decreases s.len(),
{
    if s.len() == 0 {
        0
    } else {
        total(s.drop_last()) + s.last()
    }
}

/// `m` occurs in `s` and no value of `s` is below it.
pub open spec fn is_min_of(s: Seq<usize>, m: int) -> bool {
    &&& exists|i: int| 0 <= i < s.len() && s[i] == m
    &&& forall|i: int| 0 <= i < s.len() ==> m <= s[i]
}

/// `m` occurs in `s` and no value of `s` is above it.
pub open spec fn is_max_of(s: Seq<usize>, m: int) -> bool {
    &&& exists|i: int| 0 <= i < s.len() && s[i] == m
    &&& forall|i: int| 0 <= i < s.len() ==> s[i] <= m
}

/// The median by position: the middle value of an odd number of values, the
/// truncated average of the two middle values of an even number.
pub open spec fn median_of(s: Seq<usize>) -> int
    recommends
        s.len() > 0,
{
    let n = s.len() as int;
    if n % 2 == 1 {
        s[(n + 1) / 2 - 1] as int
    } else {
        (s[n / 2 - 1] + s[n / 2]) / 2
    }
}

/// The weighted mean of two neighbours, `frac` hundredths of the way from
/// `lo` to `hi`, rounded to the nearest integer with halves rounded up.
pub open spec fn interpolate(lo: int, hi: int, frac: int) -> int {
    (lo * (100 - frac) + hi * frac + 50) / 100
}

/// The percentile by position, for a percentage given in whole percent.
///
/// With `n` values the rank is `n * percent / 100`. Its whole part, less one,
/// is the zero-based position `idx`; its fractional part, in hundredths, is
/// the weight of the upper neighbour.
///
/// * `idx < 0`: the first value;
/// * `idx + 1 >= n`: the value at `idx`;
/// * otherwise the interpolation between the values at `idx` and `idx + 1`.
///
/// There is no percentile where the position required does not exist: in an
/// empty sequence, or past the end for a percentage above 100.
pub open spec fn percentile_of(s: Seq<usize>, percent: int) -> Option<int> {
    let n = s.len() as int;
    let idx = (n * percent) / 100 - 1;
    let frac = (n * percent) % 100;
    if idx < 0 {
        if n > 0 {
            Some(s[0] as int)
        } else {
            None
        }
    } else if idx + 1 >= n {
        if idx < n {
            Some(s[idx] as int)
        } else {
            None
        }
    } else {
        Some(interpolate(s[idx] as int, s[idx + 1] as int, frac))
    }
}

/// Every value of `s` lies between `lo` and `hi`.
pub open spec fn within(s: Seq<usize>, lo: int, hi: int) -> bool {
    forall|i: int| 0 <= i < s.len() ==> lo <= #[trigger] s[i] <= hi
}

proof fn lemma_total_prefix(s: Seq<usize>, k: int)
    requires
        0 <= k <= s.len(),
    ensures
        0 <= total(s.take(k)) <= total(s),
    decreases s.len() - k,
{
    lemma_total_nonnegative(s.take(k));
    if k == s.len() {
        assert(s.take(k) =~= s);
    } else {
        lemma_total_prefix(s, k + 1);
        assert(s.take(k + 1).drop_last() =~= s.take(k));
    }
}

proof fn lemma_total_nonnegative(s: Seq<usize>)
    ensures
        0 <= total(s),
    decreases s.len(),
{
    if s.len() > 0 {
        lemma_total_nonnegative(s.drop_last());
    }
}

/// The sum of `n` values that all lie between `lo` and `hi` lies between
/// `n * lo` and `n * hi`.
pub proof fn lemma_total_bounds(s: Seq<usize>, lo: int, hi: int)
    requires
        within(s, lo, hi),
    ensures
        s.len() * lo <= total(s) <= s.len() * hi,
    decreases s.len(),
{
    if s.len() > 0 {
        let t = s.drop_last();
        assert(within(t, lo, hi)) by {
            assert forall|i: int| 0 <= i < t.len() implies lo <= #[trigger] t[i] <= hi by {
                assert(t[i] == s[i]);
            }
        }
        lemma_total_bounds(t, lo, hi);
        assert(lo <= s[s.len() - 1] <= hi);
        assert(s.len() * lo == t.len() * lo + lo) by (nonlinear_arith)
            requires
                s.len() == t.len() + 1,
        ;
        assert(s.len() * hi == t.len() * hi + hi) by (nonlinear_arith)
            requires
                s.len() == t.len() + 1,
        ;
    } else {
        assert(s.len() * lo == 0 && s.len() * hi == 0) by (nonlinear_arith)
            requires
                s.len() == 0,
        ;
    }
}

/// The mean of a non-empty sequence lies between its minimum and its
/// maximum. Stated without division: `n * min <= sum <= n * max`.
pub proof fn lemma_mean_between_min_and_max(s: Seq<usize>, min: int, max: int)
    requires
        s.len() > 0,
        is_min_of(s, min),
        is_max_of(s, max),
    ensures
        s.len() * min <= total(s) <= s.len() * max,
{
    lemma_total_bounds(s, min, max);
}

/// Between two bounds that hold of both neighbours, the interpolation stays
/// within the bounds.
pub proof fn lemma_interpolate_bounds(lo: int, hi: int, frac: int, a: int, b: int)
    requires
        a <= lo <= b,
        a <= hi <= b,
        0 <= frac < 100,
    ensures
        a <= interpolate(lo, hi, frac) <= b,
{
    let w: int = lo * (100 - frac) + hi * frac;
    assert(a * 100 <= w <= b * 100) by (nonlinear_arith)
        requires
            w == lo * (100 - frac) + hi * frac,
            a <= lo <= b,
            a <= hi <= b,
            0 <= frac < 100,
    ;
}

/// With no weight on the upper neighbour the interpolation is the lower
/// neighbour, and between equal neighbours it is their common value.
pub proof fn lemma_interpolate_exact(lo: int, hi: int, frac: int)
    requires
        0 <= frac < 100,
    ensures
        interpolate(lo, hi, 0) == lo,
        interpolate(lo, lo, frac) == lo,
{
    assert(lo * (100 - frac) + lo * frac == lo * 100) by (nonlinear_arith);
}

/// A percentile of at most 100 percent exists in every non-empty sequence
/// and lies between any two bounds that hold of all its values.
pub proof fn lemma_percentile_bounds(s: Seq<usize>, percent: int, lo: int, hi: int)
    requires
        s.len() > 0,
        0 <= percent <= 100,
        within(s, lo, hi),
    ensures
        percentile_of(s, percent) is Some,
        lo <= percentile_of(s, percent)->0 <= hi,
{
    let n: int = s.len() as int;
    assert(0 <= n * percent <= n * 100) by (nonlinear_arith)
        requires
            0 <= percent <= 100,
            n > 0,
    ;
    let idx: int = (n * percent) / 100 - 1;
    let frac: int = (n * percent) % 100;
    if idx < 0 {
        assert(lo <= s[0] <= hi);
    } else if idx + 1 >= n {
        assert(lo <= s[idx] <= hi);
    } else {
        assert(lo <= s[idx] <= hi);
        assert(lo <= s[idx + 1] <= hi);
        lemma_interpolate_bounds(s[idx] as int, s[idx + 1] as int, frac, lo, hi);
    }
}

/// Where the rank `n * percent / 100` is a whole number, the percentile is
/// the value at that rank, counted from one.
pub proof fn lemma_percentile_at_whole_rank(s: Seq<usize>, percent: int)
    requires
        0 <= percent <= 100,
        (s.len() * percent) % 100 == 0,
        s.len() * percent >= 100,
    ensures
        percentile_of(s, percent) == Some(s[(s.len() * percent) / 100 - 1] as int),
{
    let n: int = s.len() as int;
    assert(n * percent <= n * 100) by (nonlinear_arith)
        requires
            0 <= percent <= 100,
            n >= 0,
    ;
    let idx: int = (n * percent) / 100 - 1;
    if idx + 1 < n {
        lemma_interpolate_exact(s[idx] as int, s[idx + 1] as int, 0);
    }
}

/// What can go wrong while summarising.
#[derive(Clone, Copy, Debug, PartialEq, Eq, Structural)]
pub enum StatsError {
    /// The sum of the values does not fit in a `usize`.
    SumOverflow,
}

/// The summary of one non-empty sequence of measurements.
#[derive(Clone, Copy, Debug, PartialEq, Eq, Structural)]
pub struct Stats {
    /// How many values there are.
    pub n: usize,
    /// The least value.
    pub min: usize,
    /// The greatest value.
    pub max: usize,
    /// The sum of the values.
    pub sum: usize,
    /// The median by position.
    pub median: usize,
    /// The 90th percentile by position.
    pub pct90: usize,
    /// The 95th percentile by position.
    pub pct95: usize,
    /// The 99th percentile by position.
    pub pct99: usize,
}

/// The percentile of `values` by position, for a percentage given in whole
/// percent; `None` where the position it asks for does not exist.
///
/// The rank `n * percent / 100` is computed exactly, in hundredths, so the
/// result never depends on rounding of the rank.
pub fn get_nth_percentile(values: &[usize], percent: usize) -> (r: Option<usize>)
    ensures
        match r {
            Some(v) => percentile_of(values@, percent as int) == Some(v as int),
            None => percentile_of(values@, percent as int) is None,
        },
{
    let n: usize = values.len();
    assert((n as u128) * (percent as u128) <= u128::MAX) by (nonlinear_arith)
        requires
            n <= 0xffff_ffff_ffff_ffff,
            percent <= 0xffff_ffff_ffff_ffff,
    ;
    let scaled: u128 = (n as u128) * (percent as u128);
    let rank: u128 = scaled / 100;
    let frac: u128 = scaled % 100;
    if rank == 0 {
        if n > 0 {
            Some(values[0])
        } else {
            None
        }
    } else if rank >= n as u128 {
        if rank - 1 < n as u128 {
            Some(values[(rank - 1) as usize])
        } else {
            None
        }
    } else {
        let idx: usize = (rank - 1) as usize;
        let lo: u128 = values[idx] as u128;
        let hi: u128 = values[idx + 1] as u128;
        proof {
            lemma_interpolate_bounds(lo as int, hi as int, frac as int, 0, usize::MAX as int);
            assert(lo * (100 - frac) <= 0xffff_ffff_ffff_ffff * 100) by (nonlinear_arith)
                requires
                    lo <= 0xffff_ffff_ffff_ffff,
                    0 <= frac < 100,
            ;
            assert(hi * frac <= 0xffff_ffff_ffff_ffff * 100) by (nonlinear_arith)
                requires
                    hi <= 0xffff_ffff_ffff_ffff,
                    0 <= frac < 100,
            ;
        }
        let v: u128 = (lo * (100 - frac) + hi * frac + 50) / 100;
        Some(v as usize)
    }
}

impl Stats {
    /// `self` is the summary of `s`: every field has the value that its
    /// definition gives for `s`.
    pub open spec fn summarizes(&self, s: Seq<usize>) -> bool {
        &&& s.len() > 0
        &&& self.n == s.len()
        &&& is_min_of(s, self.min as int)
        &&& is_max_of(s, self.max as int)
        &&& self.sum == total(s)
        &&& self.median == median_of(s)
        &&& percentile_of(s, 90) == Some(self.pct90 as int)
        &&& percentile_of(s, 95) == Some(self.pct95 as int)
        &&& percentile_of(s, 99) == Some(self.pct99 as int)
    }

    /// Summarises `values`.
    ///
    /// An empty slice has no summary. A slice whose sum does not fit in a
    /// `usize` is refused. Every other slice gets the one summary that
    /// `summarizes` describes; its mean `sum / n` then lies between `min` and
    /// `max`.
    pub fn from_iter(values: &[usize]) -> (r: Result<Option<Stats>, StatsError>)
        ensures
            match r {
                Ok(None) => values@.len() == 0,
                Ok(Some(st)) => {
                    &&& st.summarizes(values@)
                    &&& st.n * st.min <= st.sum <= st.n * st.max
                },
                Err(e) => e == StatsError::SumOverflow && total(values@) > usize::MAX,
            },
            r is Err <==> total(values@) > usize::MAX,
            r == Ok::<Option<Stats>, StatsError>(None) <==> values@.len() == 0,
    {
        let n: usize = values.len();
        if n == 0 {
            return Ok(None);
        }
        let mut min: usize = values[0];
        let mut max: usize = values[0];
        let mut sum: usize = 0;
        let mut i: usize = 0;
        while i < n
            invariant
                n == values@.len(),
                0 <= i <= n,
                sum == total(values@.take(i as int)),
                exists|j: int| 0 <= j < n && #[trigger] values@[j] == min,
                exists|j: int| 0 <= j < n && #[trigger] values@[j] == max,
                forall|j: int| 0 <= j < i ==> min <= #[trigger] values@[j] <= max,
            decreases n - i,
        {
            let v: usize = values[i];
            proof {
                assert(values@.take(i + 1).drop_last() =~= values@.take(i as int));
                lemma_total_prefix(values@, i + 1);
            }
            match sum.checked_add(v) {
                Some(s) => {
                    sum = s;
                },
                None => {
                    return Err(StatsError::SumOverflow);
                },
            }
            if v < min {
                min = v;
            }
            if v > max {
                max = v;
            }
            i += 1;
        }
        proof {
            assert(values@.take(n as int) =~= values@);
            assert(within(values@, min as int, max as int));
            lemma_total_bounds(values@, min as int, max as int);
            lemma_percentile_bounds(values@, 90, min as int, max as int);
            lemma_percentile_bounds(values@, 95, min as int, max as int);
            lemma_percentile_bounds(values@, 99, min as int, max as int);
        }
        let median: usize = if n % 2 == 1 {
            values[n / 2]
        } else {
            let l: u128 = values[n / 2 - 1] as u128;
            let r: u128 = values[n / 2] as u128;
            ((l + r) / 2) as usize
        };
        let pct90: usize = get_nth_percentile(values, 90).unwrap();
        let pct95: usize = get_nth_percentile(values, 95).unwrap();
        let pct99: usize = get_nth_percentile(values, 99).unwrap();
        Ok(Some(Stats { n, min, max, sum, median, pct90, pct95, pct99 }))
    }
}

/// A sequence has at most one summary.
pub proof fn lemma_summary_unique(a: Stats, b: Stats, s: Seq<usize>)
    requires
        a.summarizes(s),
        b.summarizes(s),
    ensures
        a == b,
{
}

/// The summary of a single value: every field but the count is that value.
pub proof fn lemma_summary_of_one(st: Stats, v: usize)
    requires
        st.summarizes(seq![v]),
    ensures
        st.n == 1,
        st.min == v,
        st.max == v,
        st.sum == v,
        st.median == v,
        st.pct90 == v,
        st.pct95 == v,
        st.pct99 == v,
{
    let s: Seq<usize> = seq![v];
    assert(s.drop_last() =~= Seq::<usize>::empty());
    assert(total(Seq::<usize>::empty()) == 0);
    assert(total(s) == v);
}

/// In a summary the median and the three percentiles lie between the minimum
/// and the maximum, and so does the mean: `n * min <= sum <= n * max`.
pub proof fn lemma_summary_ranges(st: Stats, s: Seq<usize>)
    requires
        st.summarizes(s),
    ensures
        st.min <= st.max,
        st.n * st.min <= st.sum <= st.n * st.max,
        st.min <= st.median <= st.max,
        st.min <= st.pct90 <= st.max,
        st.min <= st.pct95 <= st.max,
        st.min <= st.pct99 <= st.max,
{
    assert(within(s, st.min as int, st.max as int));
    lemma_total_bounds(s, st.min as int, st.max as int);
    lemma_percentile_bounds(s, 90, st.min as int, st.max as int);
    lemma_percentile_bounds(s, 95, st.min as int, st.max as int);
    lemma_percentile_bounds(s, 99, st.min as int, st.max as int);
    let n: int = s.len() as int;
    assert(st.min <= s[n / 2] <= st.max);
    if n % 2 == 0 {
        assert(st.min <= s[n / 2 - 1] <= st.max);
    }
}

} // verus!
