use vstd::prelude::*;

verus! {

/// The mathematical content of a statistics record.
pub ghost struct Summary {
    pub count: int,
    pub min: int,
    pub max: int,
    pub sum: int,
}

pub open spec fn min_int(a: int, b: int) -> int {
    if a <= b { a } else { b }
}

pub open spec fn max_int(a: int, b: int) -> int {
    if a >= b { a } else { b }
}

/// Smallest element of a non-empty sequence.
pub open spec fn seq_min(s: Seq<int>) -> int
    decreases s.len(),
{
    if s.len() <= 1 { s[0] } else { min_int(seq_min(s.drop_last()), s.last()) }
}

/// Largest element of a non-empty sequence.
pub open spec fn seq_max(s: Seq<int>) -> int
    decreases s.len(),
{
    if s.len() <= 1 { s[0] } else { max_int(seq_max(s.drop_last()), s.last()) }
}

pub open spec fn seq_sum(s: Seq<int>) -> int
    decreases s.len(),
{
    if s.len() == 0 { 0 } else { seq_sum(s.drop_last()) + s.last() }
}

/// The summary of a non-empty sequence of observations.
pub open spec fn summary_of(s: Seq<int>) -> Summary {
    Summary { count: s.len() as int, min: seq_min(s), max: seq_max(s), sum: seq_sum(s) }
}

/// Merge of two summaries over disjoint observation sets.
pub open spec fn combine(a: Summary, b: Summary) -> Summary {
    Summary {
        count: a.count + b.count,
        min: min_int(a.min, b.min),
        max: max_int(a.max, b.max),
        sum: a.sum + b.sum,
    }
}

/// Merge of two optional summaries: an absent side leaves the other unchanged.
pub open spec fn join(a: Option<Summary>, b: Option<Summary>) -> Option<Summary> {
    match (a, b) {
        (Some(x), Some(y)) => Some(combine(x, y)),
        (Some(x), None) => Some(x),
        (None, y) => y,
    }
}

/// A value in the supported fixed format, in tenths.
pub open spec fn in_format(v: int) -> bool {
    -999 <= v <= 999
}

/// Statistics of one key: count, extremes and running total, in tenths.
#[derive(Clone, Copy, Debug)]
pub struct Record {
    pub count: u64,
    pub min: i64,
    pub max: i64,
    pub sum: i128,
}

impl Record {
    pub open spec fn view(&self) -> Summary {
        Summary { count: self.count as int, min: self.min as int, max: self.max as int, sum: self.sum as int }
    }

    /// At least one observation, `min <= max`, every observation in the fixed
    /// format, and a total that such observations can reach.
    pub open spec fn wf(&self) -> bool {
        &&& self.count >= 1
        &&& in_format(self.min as int)
        &&& in_format(self.max as int)
        &&& self.min <= self.max
        &&& self.min * self.count <= self.sum <= self.max * self.count
    }

    /// The record of a first observation.
    pub fn new(measurement: i64) -> (r: Record)
        requires
            in_format(measurement as int),
        ensures
            r.wf(),
            r@ == summary_of(seq![measurement as int]),
    {
        proof {
            lemma_summary_single(measurement as int);
        }
        Record { count: 1, min: measurement, max: measurement, sum: measurement as i128 }
    }

    /// Folds one more observation into the record.
    pub fn update(&mut self, measurement: i64)
        requires
            old(self).wf(),
            in_format(measurement as int),
            old(self).count < u64::MAX,
        ensures
            final(self).wf(),
            final(self)@ == combine(old(self)@, summary_of(seq![measurement as int])),
    {
        let other = Record::new(measurement);
        self.merge(other);
    }

    /// Folds a record built from other observations of the same key into this one.
    pub fn merge(&mut self, other: Record)
        requires
            old(self).wf(),
            other.wf(),
            old(self).count + other.count <= u64::MAX,
        ensures
            final(self).wf(),
            final(self)@ == combine(old(self)@, other@),
    {
        proof {
            lemma_bounds_add(self.min as int, self.max as int, self.count as int, self.sum as int,
                other.min as int, other.max as int, other.count as int, other.sum as int);
        }
        self.count = self.count + other.count;
        if other.min < self.min {
            self.min = other.min;
        }
        if other.max > self.max {
            self.max = other.max;
        }
        self.sum = self.sum + other.sum;
    }
}

proof fn lemma_summary_single(v: int)
    ensures
        summary_of(seq![v]) == (Summary { count: 1, min: v, max: v, sum: v }),
{
    assert(seq![v].drop_last() =~= Seq::<int>::empty());
    assert(seq_sum(seq![v]) == seq_sum(seq![v].drop_last()) + v);
}

proof fn lemma_bounds_add(lo1: int, hi1: int, c1: int, s1: int, lo2: int, hi2: int, c2: int, s2: int)
    requires
        c1 >= 1, c2 >= 1,
        -999 <= lo1 <= hi1 <= 999,
        -999 <= lo2 <= hi2 <= 999,
        lo1 * c1 <= s1 <= hi1 * c1,
        lo2 * c2 <= s2 <= hi2 * c2,
        c1 + c2 <= u64::MAX,
    ensures
        min_int(lo1, lo2) * (c1 + c2) <= s1 + s2 <= max_int(hi1, hi2) * (c1 + c2),
        -999 * (c1 + c2) <= s1 + s2 <= 999 * (c1 + c2),
{
    let lo = min_int(lo1, lo2);
    let hi = max_int(hi1, hi2);
    assert(lo * c1 <= lo1 * c1) by (nonlinear_arith) requires lo <= lo1, c1 >= 1;
    assert(lo * c2 <= lo2 * c2) by (nonlinear_arith) requires lo <= lo2, c2 >= 1;
    assert(hi1 * c1 <= hi * c1) by (nonlinear_arith) requires hi1 <= hi, c1 >= 1;
    assert(hi2 * c2 <= hi * c2) by (nonlinear_arith) requires hi2 <= hi, c2 >= 1;
    assert(lo * (c1 + c2) == lo * c1 + lo * c2) by (nonlinear_arith);
    assert(hi * (c1 + c2) == hi * c1 + hi * c2) by (nonlinear_arith);
    assert(-999 * (c1 + c2) <= lo * (c1 + c2)) by (nonlinear_arith) requires -999 <= lo, c1 + c2 >= 0;
    assert(hi * (c1 + c2) <= 999 * (c1 + c2)) by (nonlinear_arith) requires hi <= 999, c1 + c2 >= 0;
}

/// Merging is commutative: the order in which two records meet does not matter.
pub proof fn lemma_combine_commutative(a: Summary, b: Summary)
    ensures
        combine(a, b) == combine(b, a),
{
}

/// Merging is associative: how merges are grouped does not matter.
pub proof fn lemma_combine_associative(a: Summary, b: Summary, c: Summary)
    ensures
        combine(combine(a, b), c) == combine(a, combine(b, c)),
{
}

/// Optional merging is commutative and associative too, with "absent" as identity.
pub proof fn lemma_join_laws(a: Option<Summary>, b: Option<Summary>, c: Option<Summary>)
    ensures
        join(a, b) == join(b, a),
        join(join(a, b), c) == join(a, join(b, c)),
        join(a, None) == a,
        join(None, a) == a,
{
}

/// Splitting the observations of a key into two parts and merging the parts'
/// summaries gives the summary of all observations.
pub proof fn lemma_summary_split(a: Seq<int>, b: Seq<int>)
    requires
        a.len() >= 1,
        b.len() >= 1,
    ensures
        summary_of(a + b) == combine(summary_of(a), summary_of(b)),
    decreases b.len(),
{
    let ab = a + b;
    if b.len() == 1 {
        assert(ab.drop_last() =~= a);
        assert(b =~= seq![b[0]]);
        lemma_summary_single(b[0]);
        assert(ab.last() == b[0]);
        assert(seq_min(ab) == min_int(seq_min(a), b[0]));
        assert(seq_max(ab) == max_int(seq_max(a), b[0]));
        assert(seq_sum(ab) == seq_sum(a) + b[0]);
    } else {
        let b2 = b.drop_last();
        lemma_summary_split(a, b2);
        assert(ab.drop_last() =~= a + b2);
        assert(b.last() == ab.last());
        assert(seq_min(ab) == min_int(seq_min(a + b2), b.last()));
        assert(seq_min(b) == min_int(seq_min(b2), b.last()));
        assert(seq_max(ab) == max_int(seq_max(a + b2), b.last()));
        assert(seq_max(b) == max_int(seq_max(b2), b.last()));
        assert(seq_sum(ab) == seq_sum(a + b2) + b.last());
        assert(seq_sum(b) == seq_sum(b2) + b.last());
    }
}

} // verus!
