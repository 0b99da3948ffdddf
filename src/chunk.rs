use vstd::prelude::*;
use crate::scan::NEWLINE;

verus! {

/// Bytes looked at before a chunk boundary to find where a line starts.
pub const WINDOW: usize = 64;

/// Nominal size of each chunk: the file size divided by the thread count,
/// but at least one byte.
pub open spec fn chunk_size_spec(file_size: int, threads: int) -> int {
    if file_size / threads >= 1 { file_size / threads } else { 1 }
}

/// Nominal byte range of the chunk that starts at `offset`, and where its read
/// begins: `WINDOW` bytes earlier, or at the start of the file.
pub struct ChunkPlan {
    pub start: usize,
    pub end: usize,
    pub read_start: usize,
}

pub open spec fn min_of(a: int, b: int) -> int {
    if a <= b { a } else { b }
}

/// The plan for `offset`: the last chunk (from offset `(threads - 1) * size`
/// on) runs to the end of the file, and no range reaches past it.
pub open spec fn plan_spec(file_size: int, threads: int, offset: int) -> (int, int, int) {
    let cs = chunk_size_spec(file_size, threads);
    let start = min_of(offset, file_size);
    let end = if offset >= (threads - 1) * cs { file_size } else { min_of(offset + cs, file_size) };
    (start, end, if start >= 64 { start - 64 } else { 0 })
}

impl ChunkPlan {
    pub open spec fn view(&self) -> (int, int, int) {
        (self.start as int, self.end as int, self.read_start as int)
    }
}

pub proof fn lemma_chunk_size_bound(file_size: int, threads: int)
    requires
        file_size >= 0,
        threads >= 1,
    ensures
        (threads - 1) * chunk_size_spec(file_size, threads) <= if file_size >= threads - 1 { file_size } else { threads - 1 },
        chunk_size_spec(file_size, threads) >= 1,
        threads * chunk_size_spec(file_size, threads) <= if file_size >= threads { file_size } else { threads },
{
    let q = file_size / threads;
    assert(threads * q <= file_size) by (nonlinear_arith) requires q == file_size / threads, threads >= 1, file_size >= 0;
    if q < 1 {
        assert(threads * 1 == threads);
    }
    assert((threads - 1) * q <= threads * q) by (nonlinear_arith) requires q >= 0, threads >= 1;
    assert(q >= 0) by (nonlinear_arith) requires q == file_size / threads, threads >= 1, file_size >= 0;
}

/// Nominal chunk size for `threads` workers over `file_size` bytes.
pub fn chunk_size_for(file_size: usize, threads: usize) -> (r: usize)
    requires
        threads >= 1,
    ensures
        r == chunk_size_spec(file_size as int, threads as int),
{
    let q = file_size / threads;
    if q >= 1 { q } else { 1 }
}

/// Where the chunk claimed at `offset` lies and where its read starts.
pub fn plan_chunk(file_size: usize, threads: usize, offset: usize) -> (r: ChunkPlan)
    requires
        threads >= 1,
    ensures
        r@ == plan_spec(file_size as int, threads as int, offset as int),
        r.read_start <= r.start <= r.end <= file_size,
{
    let cs = chunk_size_for(file_size, threads);
    proof {
        lemma_chunk_size_bound(file_size as int, threads as int);
    }
    let last_from: usize = (threads - 1) * cs;
    let start = if offset <= file_size { offset } else { file_size };
    let end = if offset >= last_from {
        file_size
    } else if offset <= file_size && cs <= file_size - offset {
        offset + cs
    } else {
        file_size
    };
    let read_start = if start >= WINDOW { start - WINDOW } else { 0 };
    ChunkPlan { start, end, read_start }
}

/// Hands out chunk offsets: each claim returns the current offset and moves it
/// on by one chunk size.
pub struct OffsetCursor {
    pub next: usize,
}

/// A cursor at offset 0.
pub fn new_offset() -> (r: OffsetCursor)
    ensures
        r.next == 0,
{
    OffsetCursor { next: 0 }
}

impl OffsetCursor {
    /// Claims the chunk at the current offset.
    pub fn fetch_add(&mut self, chunk_size: usize) -> (r: usize)
        requires
            old(self).next + chunk_size <= usize::MAX,
        ensures
            r == old(self).next,
            final(self).next == old(self).next + chunk_size,
    {
        let r = self.next;
        self.next = self.next + chunk_size;
        r
    }
}

/// `p` is where a line starts in `s`: just after a newline, or at 0 when `s`
/// begins the file.
pub open spec fn is_line_start(s: Seq<u8>, at_file_start: bool, p: int) -> bool {
    (p == 0 && at_file_start) || (1 <= p <= s.len() && s[p - 1] == NEWLINE)
}

/// `p` is the last line start at or before `x` and within the window before it.
pub open spec fn is_cut(s: Seq<u8>, at_file_start: bool, x: int, p: int) -> bool {
    &&& x - 63 <= p <= x
    &&& 0 <= p
    &&& is_line_start(s, at_file_start, p)
    &&& forall|q: int| p < q <= x ==> !is_line_start(s, at_file_start, q)
}

/// Where a boundary at `x` is moved to so that no line is split: the last line
/// start at or before `x`, or `None` if no line starts within the window.
pub open spec fn cut_spec(s: Seq<u8>, at_file_start: bool, x: int) -> Option<int> {
    if exists|p: int| is_cut(s, at_file_start, x, p) {
        Some(choose|p: int| is_cut(s, at_file_start, x, p))
    } else {
        None
    }
}

pub proof fn lemma_cut_unique(s: Seq<u8>, fs: bool, x: int, p: int)
    requires
        is_cut(s, fs, x, p),
    ensures
        cut_spec(s, fs, x) == Some(p),
{
    let c = choose|c: int| is_cut(s, fs, x, c);
    if c < p {
        assert(is_line_start(s, fs, p));
    } else if p < c {
        assert(is_line_start(s, fs, c));
    }
}

/// The last line start at or before `x` within the window, as a position in `s`.
pub fn line_start_at_or_before(s: &[u8], at_file_start: bool, x: usize) -> (r: Option<usize>)
    requires
        x <= s@.len(),
    ensures
        r matches Some(p) ==> cut_spec(s@, at_file_start, x as int) == Some(p as int),
        r is None ==> cut_spec(s@, at_file_start, x as int) is None,
{
    let lo: usize = if x >= 63 { x - 63 } else { 0 };
    let mut p = x;
    while p > lo && !(p >= 1 && s[p - 1] == NEWLINE)
        invariant
            lo <= p <= x,
            x <= s@.len(),
            lo == if x >= 63 { x - 63 } else { 0 },
            forall|q: int| p < q <= x ==> !is_line_start(s@, at_file_start, q),
        decreases p,
    {
        p = p - 1;
    }
    if (p >= 1 && s[p - 1] == NEWLINE) || (p == 0 && at_file_start) {
        proof {
            lemma_cut_unique(s@, at_file_start, x as int, p as int);
        }
        Some(p)
    } else {
        proof {
            assert forall|c: int| !is_cut(s@, at_file_start, x as int, c) by {
                if is_cut(s@, at_file_start, x as int, c) && c < p {
                    assert(c >= lo);
                }
            }
        }
        None
    }
}

/// The resolved range of a chunk inside its read buffer: from the last line
/// start at or before the nominal start to the last line start at or before
/// the nominal end.
pub open spec fn resolve_spec(buf: Seq<u8>, plan: (int, int, int)) -> Option<(int, int)> {
    let (start, end, read_start) = plan;
    let fs = read_start == 0;
    match (cut_spec(buf, fs, start - read_start), cut_spec(buf, fs, end - read_start)) {
        (Some(h), Some(t)) => Some((h, t)),
        _ => None,
    }
}

proof fn lemma_cut_monotone(s: Seq<u8>, fs: bool, x: int, y: int, p: int, q: int)
    requires
        x <= y,
        is_cut(s, fs, x, p),
        is_cut(s, fs, y, q),
    ensures
        p <= q,
{
    if p > q {
        assert(is_line_start(s, fs, p));
    }
}

/// Aligns the chunk read into `buf` (bytes `plan.read_start .. plan.end` of the
/// file) to line boundaries; `None` where no line starts within the window
/// before a boundary.
pub fn resolve_chunk(buf: &[u8], plan: &ChunkPlan) -> (r: Option<(usize, usize)>)
    requires
        plan.read_start <= plan.start <= plan.end,
        buf@.len() == plan.end - plan.read_start,
    ensures
        r matches Some((h, t)) ==> resolve_spec(buf@, plan@) == Some((h as int, t as int)) && h <= t <= buf@.len(),
        r is None ==> resolve_spec(buf@, plan@) is None,
{
    let fs = plan.read_start == 0;
    let head = line_start_at_or_before(buf, fs, plan.start - plan.read_start);
    let tail = line_start_at_or_before(buf, fs, plan.end - plan.read_start);
    match (head, tail) {
        (Some(h), Some(t)) => {
            proof {
                let hs = (plan.start - plan.read_start) as int;
                let ts = (plan.end - plan.read_start) as int;
                assert(is_cut(buf@, fs, hs, h as int));
                assert(is_cut(buf@, fs, ts, t as int));
                lemma_cut_monotone(buf@, fs, hs, ts, h as int, t as int);
            }
            Some((h, t))
        },
        _ => None,
    }
}

/// A newline ends the line holding byte `i` within `WINDOW` bytes.
pub open spec fn newline_within(f: Seq<u8>, i: int) -> bool {
    exists|j: int| i <= j < i + 64 && j < f.len() && #[trigger] f[j] == NEWLINE
}

/// Every line of the file, newline included, is at most `WINDOW` bytes long,
/// and the file ends with a newline (or is empty).
pub open spec fn well_formed_lines(f: Seq<u8>) -> bool {
    &&& forall|i: int| 0 <= i < f.len() ==> #[trigger] newline_within(f, i)
    &&& (f.len() == 0 || f.last() == NEWLINE)
}

/// Position in the file where a boundary at `x` is moved to.
pub open spec fn file_cut(f: Seq<u8>, x: int) -> int {
    cut_spec(f, true, x)->Some_0
}

/// The plan of the `k`-th claimed chunk, whose offset is `k` chunk sizes.
pub open spec fn plan_of(file_size: int, threads: int, k: int) -> (int, int, int) {
    plan_spec(file_size, threads, k * chunk_size_spec(file_size, threads))
}

/// The byte range of the file that the `k`-th chunk scans once resolved.
pub open spec fn resolved_range(f: Seq<u8>, threads: int, k: int) -> (int, int) {
    let (start, end, _) = plan_of(f.len() as int, threads, k);
    (file_cut(f, start), file_cut(f, end))
}

proof fn lemma_scan_down(s: Seq<u8>, fs: bool, x: int, w: int, p: int)
    requires
        0 <= w <= p <= x,
        x - 63 <= w,
        is_line_start(s, fs, w),
        forall|q: int| p < q <= x ==> !is_line_start(s, fs, q),
    ensures
        cut_spec(s, fs, x) is Some,
    decreases p - w,
{
    if is_line_start(s, fs, p) {
        lemma_cut_unique(s, fs, x, p);
    } else {
        lemma_scan_down(s, fs, x, w, p - 1);
    }
}

proof fn lemma_file_cut_exists(f: Seq<u8>, x: int)
    requires
        well_formed_lines(f),
        0 <= x <= f.len(),
    ensures
        is_cut(f, true, x, file_cut(f, x)),
{
    if x <= 63 {
        lemma_scan_down(f, true, x, 0, x);
    } else {
        assert(newline_within(f, x - 64));
        let j = choose|j: int| x - 64 <= j < x && j < f.len() && #[trigger] f[j] == NEWLINE;
        lemma_scan_down(f, true, x, j + 1, x);
    }
}

/// The cut found in a buffer read from `rs` is the file's cut, shifted.
proof fn lemma_cut_in_buffer(f: Seq<u8>, rs: int, e: int, x: int)
    requires
        well_formed_lines(f),
        0 <= rs <= x <= e <= f.len(),
        rs == 0 || rs + 1 <= x - 63,
    ensures
        cut_spec(f.subrange(rs, e), rs == 0, x - rs) == Some(file_cut(f, x) - rs),
{
    let s = f.subrange(rs, e);
    let fs = rs == 0;
    lemma_file_cut_exists(f, x);
    let p = file_cut(f, x);
    assert forall|q: int| 1 <= q <= x - rs implies (is_line_start(s, fs, q) <==> is_line_start(f, true, q + rs)) by {
        assert(s[q - 1] == f[q + rs - 1]);
    }
    assert(is_line_start(s, fs, p - rs));
    assert forall|q: int| p - rs < q <= x - rs implies !is_line_start(s, fs, q) by {
        assert(!is_line_start(f, true, q + rs));
    }
    lemma_cut_unique(s, fs, x - rs, p - rs);
}

/// Chunks claimed at offsets `0, size, 2 * size, ...`, one per thread, and
/// resolved to line boundaries tile the file: the first starts at 0, the last
/// ends at the end of the file, each ends where the next starts, and every
/// boundary is a line start, so each line is scanned exactly once. What
/// `resolve_chunk` returns on the bytes read for a chunk is that range.
pub proof fn lemma_partition_complete(f: Seq<u8>, threads: int, k: int)
    requires
        threads >= 1,
        0 <= k < threads,
        well_formed_lines(f),
    ensures
        ({
            let (start, end, rs) = plan_of(f.len() as int, threads, k);
            let (h, t) = resolved_range(f, threads, k);
            &&& 0 <= rs <= start <= end <= f.len()
            &&& resolve_spec(f.subrange(rs, end), plan_of(f.len() as int, threads, k)) == Some((h - rs, t - rs))
            &&& rs <= h <= t <= f.len()
            &&& is_line_start(f, true, h)
            &&& is_line_start(f, true, t)
            &&& (k == 0 ==> h == 0)
            &&& (k == threads - 1 ==> t == f.len())
            &&& (k < threads - 1 ==> t == resolved_range(f, threads, k + 1).0)
        }),
{
    let n = f.len() as int;
    let cs = chunk_size_spec(n, threads);
    lemma_chunk_size_bound(n, threads);
    let (start, end, rs) = plan_of(n, threads, k);
    assert(k * cs >= 0) by (nonlinear_arith) requires k >= 0, cs >= 1;
    lemma_cut_in_buffer(f, rs, end, start);
    lemma_cut_in_buffer(f, rs, end, end);
    lemma_file_cut_exists(f, start);
    lemma_file_cut_exists(f, end);
    let h = file_cut(f, start);
    let t = file_cut(f, end);
    lemma_cut_monotone(f, true, start, end, h, t);
    if k == 0 {
        assert(k * cs == 0) by (nonlinear_arith) requires k == 0;
        assert(is_cut(f, true, 0, 0));
        lemma_cut_unique(f, true, 0, 0);
        assert(h == 0);
    }
    if k == threads - 1 {
        assert(end == n);
        assert(is_cut(f, true, n, n));
        lemma_cut_unique(f, true, n, n);
        assert(t == n);
    }
    if k < threads - 1 {
        assert(k * cs < (threads - 1) * cs) by (nonlinear_arith) requires k < threads - 1, cs >= 1;
        assert((k + 1) * cs == k * cs + cs) by (nonlinear_arith);
        assert(plan_of(n, threads, k + 1).0 == end);
        assert(t == resolved_range(f, threads, k + 1).0);
    }
    assert(0 <= rs <= start <= end <= n);
    assert(resolve_spec(f.subrange(rs, end), plan_of(n, threads, k)) == Some((h - rs, t - rs)));
    assert(rs <= h <= t <= n);
    assert(is_line_start(f, true, h));
    assert(is_line_start(f, true, t));
}

/// A cut found in a buffer read from `rs` is the file's cut at the same place.
pub proof fn lemma_buffer_cut_is_file_cut(f: Seq<u8>, rs: int, e: int, x: int, p: int)
    requires
        0 <= rs <= x <= e <= f.len(),
        rs == 0 || rs + 1 <= x - 63,
        is_cut(f.subrange(rs, e), rs == 0, x - rs, p),
    ensures
        is_cut(f, true, x, p + rs),
{
    let s = f.subrange(rs, e);
    let fs = rs == 0;
    assert forall|q: int| 1 <= q <= x - rs implies (is_line_start(s, fs, q) <==> is_line_start(f, true, q + rs)) by {
        assert(s[q - 1] == f[q + rs - 1]);
    }
    assert forall|q: int| p + rs < q <= x implies !is_line_start(f, true, q) by {
        assert(!is_line_start(s, fs, q - rs));
    }
}

} // verus!
