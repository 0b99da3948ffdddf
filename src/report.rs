use vstd::prelude::*;
use crate::map::StatsMap;
use crate::number::{push_tenths, render_tenths};
use crate::record::{Record, Summary};

verus! {

pub const EQUALS: u8 = 61;
pub const SLASH: u8 = 47;

/// Mean of `count` observations totalling `sum` tenths, in tenths, with halves
/// rounded away from zero (`13.65` gives `13.7`, `-13.65` gives `-13.7`).
pub open spec fn rounded_mean(sum: int, count: int) -> int {
    if sum >= 0 {
        (2 * sum + count) / (2 * count)
    } else {
        -((-2 * sum + count) / (2 * count))
    }
}

/// One report line: `key=min/mean/max` and a newline.
pub open spec fn report_line(key: Seq<u8>, s: Summary) -> Seq<u8> {
    key + seq![EQUALS] + render_tenths(s.min) + seq![SLASH] + render_tenths(rounded_mean(s.sum, s.count))
        + seq![SLASH] + render_tenths(s.max) + seq![crate::scan::NEWLINE]
}

/// The lines of the first `i` entries of the map, in ascending key order.
pub open spec fn report_of(m: &StatsMap, i: int) -> Seq<u8>
    decreases i,
{
    if i <= 0 {
        Seq::empty()
    } else {
        report_of(m, i - 1) + report_line(m.key_spec(i - 1), m.records@[i - 1]@)
    }
}

proof fn lemma_mean_bound(sum: int, count: int)
    requires
        count >= 1,
        -999 * count <= sum <= 999 * count,
    ensures
        -999 <= rounded_mean(sum, count) <= 999,
{
    if sum >= 0 {
        let q = (2 * sum + count) / (2 * count);
        assert(q <= 999) by (nonlinear_arith)
            requires q == (2 * sum + count) / (2 * count), count >= 1, sum <= 999 * count, sum >= 0;
        assert(q >= 0) by (nonlinear_arith)
            requires q == (2 * sum + count) / (2 * count), count >= 1, sum >= 0;
    } else {
        let q = (-2 * sum + count) / (2 * count);
        assert(q <= 999) by (nonlinear_arith)
            requires q == (-2 * sum + count) / (2 * count), count >= 1, -999 * count <= sum, sum < 0;
        assert(q >= 0) by (nonlinear_arith)
            requires q == (-2 * sum + count) / (2 * count), count >= 1, sum < 0;
    }
}

/// Mean of a record in tenths, halves rounded away from zero.
pub fn mean_tenths(r: &Record) -> (m: i64)
    requires
        r.wf(),
    ensures
        m == rounded_mean(r.sum as int, r.count as int),
        -999 <= m <= 999,
{
    proof {
        assert(-999 * r.count <= r.min * r.count) by (nonlinear_arith) requires -999 <= r.min, r.count >= 1;
        assert(r.max * r.count <= 999 * r.count) by (nonlinear_arith) requires r.max <= 999, r.count >= 1;
        lemma_mean_bound(r.sum as int, r.count as int);
    }
    let c = r.count as i128;
    let q: i128 = if r.sum >= 0 {
        (2 * r.sum + c) / (2 * c)
    } else {
        -((-2 * r.sum + c) / (2 * c))
    };
    q as i64
}

/// Appends the line of one key to `out`.
pub fn push_line(out: &mut Vec<u8>, key: &Vec<u8>, r: &Record)
    requires
        r.wf(),
    ensures
        final(out)@ == old(out)@ + report_line(key@, r@),
{
    let ghost start = out@;
    let mut i: usize = 0;
    while i < key.len()
        invariant
            i <= key@.len(),
            out@ == start + key@.subrange(0, i as int),
        decreases key@.len() - i,
    {
        out.push(key[i]);
        assert(key@.subrange(0, i + 1) =~= key@.subrange(0, i as int).push(key@[i as int]));
        i = i + 1;
    }
    assert(key@.subrange(0, key@.len() as int) =~= key@);
    out.push(EQUALS);
    push_tenths(out, r.min);
    out.push(SLASH);
    let m = mean_tenths(r);
    push_tenths(out, m);
    out.push(SLASH);
    push_tenths(out, r.max);
    out.push(crate::scan::NEWLINE);
    assert(out@ =~= start + report_line(key@, r@));
}

impl StatsMap {
    /// The report: one `key=min/mean/max` line per key, in ascending byte
    /// order of the keys, each value with one fractional digit.
    pub fn report(&self) -> (r: Vec<u8>)
        requires
            self.wf(),
        ensures
            r@ == report_of(self, self.len_spec()),
    {
        let mut out: Vec<u8> = Vec::new();
        let n = self.len();
        let mut i: usize = 0;
        while i < n
            invariant
                self.wf(),
                n == self.len_spec(),
                i <= n,
                out@ == report_of(self, i as int),
            decreases n - i,
        {
            let r = self.record_at(i);
            push_line(&mut out, self.key_at(i), &r);
            i = i + 1;
        }
        out
    }
}

} // verus!
