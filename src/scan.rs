use vstd::prelude::*;
use crate::map::StatsMap;
use crate::number::{parse_float, value_of};
use crate::record::{combine, join, lemma_summary_split, summary_of, Record, Summary};

verus! {

/// Byte that separates a key from its value.
pub const DELIMITER: u8 = 59;

/// Byte that ends a line.
pub const NEWLINE: u8 = 10;

/// `p` is the position of the first `b` in `s`.
pub open spec fn is_first(s: Seq<u8>, b: u8, p: int) -> bool {
    0 <= p < s.len() && s[p] == b && forall|q: int| 0 <= q < p ==> s[q] != b
}

/// Position of the first `b` in `s`, or the length of `s` if there is none.
pub open spec fn first_of(s: Seq<u8>, b: u8) -> int {
    if exists|p: int| is_first(s, b, p) {
        choose|p: int| is_first(s, b, p)
    } else {
        s.len() as int
    }
}

/// One observation: key bytes and value in tenths.
pub type Row = (Seq<u8>, int);

/// A line split at its first delimiter into key and fixed-format value.
pub open spec fn row_of(line: Seq<u8>) -> Option<Row> {
    let p = first_of(line, DELIMITER);
    if p < line.len() {
        match value_of(line.subrange(p + 1, line.len() as int)) {
            Some(v) => Some((line.subrange(0, p), v)),
            None => None,
        }
    } else {
        None
    }
}

/// The rows of newline-separated lines; a final line may lack its newline.
/// `None` if any line is not a row.
pub open spec fn rows_of(s: Seq<u8>) -> Option<Seq<Row>>
    decreases s.len(),
{
    if s.len() == 0 {
        Some(Seq::empty())
    } else {
        let e = first_of(s, NEWLINE);
        if 0 <= e < s.len() {
            match (row_of(s.subrange(0, e)), rows_of(s.subrange(e + 1, s.len() as int))) {
                (Some(r), Some(rs)) => Some(seq![r] + rs),
                _ => None,
            }
        } else {
            match row_of(s) {
                Some(r) => Some(seq![r]),
                None => None,
            }
        }
    }
}

/// The values observed for `k`, in order.
pub open spec fn values_for(rows: Seq<Row>, k: Seq<u8>) -> Seq<int>
    decreases rows.len(),
{
    if rows.len() == 0 {
        Seq::empty()
    } else if rows.last().0 == k {
        values_for(rows.drop_last(), k).push(rows.last().1)
    } else {
        values_for(rows.drop_last(), k)
    }
}

/// Summary of a key's observations; `None` where there are none.
pub open spec fn summary_opt(vals: Seq<int>) -> Option<Summary> {
    if vals.len() == 0 { None } else { Some(summary_of(vals)) }
}

pub proof fn lemma_first_of(s: Seq<u8>, b: u8, p: int)
    requires
        0 <= p <= s.len(),
        forall|q: int| 0 <= q < p ==> s[q] != b,
        p == s.len() || s[p] == b,
    ensures
        first_of(s, b) == p,
{
    if p < s.len() {
        assert(is_first(s, b, p));
        let c = choose|c: int| is_first(s, b, c);
        if c < p {
            assert(s[c] != b);
        } else if p < c {
            assert(s[p] != b);
        }
    } else {
        assert(!exists|c: int| is_first(s, b, c));
    }
}

/// Position of the first `b` at or after `from`, or the length of `s`.
fn find_byte(s: &[u8], b: u8, from: usize) -> (r: usize)
    requires
        from <= s@.len(),
    ensures
        from + first_of(s@.subrange(from as int, s@.len() as int), b) == r,
        r <= s@.len(),
{
    let mut i = from;
    while i < s.len() && s[i] != b
        invariant
            from <= i <= s@.len(),
            forall|q: int| from <= q < i ==> s@[q] != b,
        decreases s@.len() - i,
    {
        i = i + 1;
    }
    proof {
        lemma_first_of(s@.subrange(from as int, s@.len() as int), b, i - from);
    }
    i
}

/// Splits one line at its first delimiter into key bytes and value in tenths.
pub fn parse_row(data: &[u8]) -> (r: Option<(&[u8], i64)>)
    ensures
        r matches Some((k, v)) ==> row_of(data@) == Some((k@, v as int)) && -999 <= v <= 999,
        r is None ==> row_of(data@) is None,
{
    let p = find_byte(data, DELIMITER, 0);
    assert(data@.subrange(0, data@.len() as int) =~= data@);
    if p == data.len() {
        return None;
    }
    let key = vstd::slice::slice_subrange(data, 0, p);
    let value = vstd::slice::slice_subrange(data, p + 1, data.len());
    match parse_float(value) {
        Some(v) => Some((key, v)),
        None => None,
    }
}

pub proof fn lemma_values_for_concat(a: Seq<Row>, b: Seq<Row>, k: Seq<u8>)
    ensures
        values_for(a + b, k) == values_for(a, k) + values_for(b, k),
    decreases b.len(),
{
    if b.len() == 0 {
        assert(a + b =~= a);
        assert(values_for(a, k) + values_for(b, k) =~= values_for(a, k));
    } else {
        lemma_values_for_concat(a, b.drop_last(), k);
        assert((a + b).drop_last() =~= a + b.drop_last());
        if b.last().0 == k {
            assert(values_for(a, k) + values_for(b, k) =~= (values_for(a, k) + values_for(b.drop_last(), k)).push(b.last().1));
        }
    }
}

/// However the rows are split into two runs, summarising each run and merging
/// the two summaries gives, for every key, the summary of all rows.
pub proof fn lemma_split_rows_merge(a: Seq<Row>, b: Seq<Row>, k: Seq<u8>)
    ensures
        join(summary_opt(values_for(a, k)), summary_opt(values_for(b, k))) == summary_opt(values_for(a + b, k)),
{
    lemma_values_for_concat(a, b, k);
    let va = values_for(a, k);
    let vb = values_for(b, k);
    if va.len() == 0 {
        assert(va + vb =~= vb);
    } else if vb.len() == 0 {
        assert(va + vb =~= va);
    } else {
        lemma_summary_split(va, vb);
    }
}

pub proof fn lemma_values_for_len(rows: Seq<Row>, k: Seq<u8>)
    ensures
        values_for(rows, k).len() <= rows.len(),
    decreases rows.len(),
{
    if rows.len() > 0 {
        lemma_values_for_len(rows.drop_last(), k);
    }
}

/// Summarises every line of a chunk per key; `None` if any line is not a
/// `key;value` row.
pub fn parse_chunk(chunk: &[u8]) -> (r: Option<StatsMap>)
    ensures
        r is None <==> rows_of(chunk@) is None,
        r matches Some(m) ==> m.wf() && forall|k: Seq<u8>|
            #[trigger] m.get(k) == summary_opt(values_for(rows_of(chunk@)->Some_0, k)),
{
    let n = chunk.len();
    let mut map = StatsMap::new();
    let mut pos: usize = 0;
    let ghost done: Seq<Row> = Seq::empty();
    assert(chunk@.subrange(0, n as int) =~= chunk@);
    while pos < n
        invariant
            n == chunk@.len(),
            pos <= n,
            map.wf(),
            done.len() <= pos,
            rows_of(chunk@) == (match rows_of(chunk@.subrange(pos as int, n as int)) {
                Some(rs) => Some(done + rs),
                None => None,
            }),
            forall|k: Seq<u8>| #[trigger] map.get(k) == summary_opt(values_for(done, k)),
        decreases n - pos,
    {
        let ghost rest = chunk@.subrange(pos as int, n as int);
        let e = find_byte(chunk, NEWLINE, pos);
        let line = vstd::slice::slice_subrange(chunk, pos, e);
        assert(line@ =~= rest.subrange(0, e - pos));
        let parsed = parse_row(line);
        let ghost tail = if e < n { chunk@.subrange(e + 1, n as int) } else { Seq::<u8>::empty() };
        proof {
            if e < n {
                assert(rest.subrange(e - pos + 1, rest.len() as int) =~= tail);
            } else {
                assert(rest.subrange(0, e - pos) =~= rest);
            }
        }
        match parsed {
            None => {
                return None;
            },
            Some((key, v)) => {
                let ghost row: Row = (key@, v as int);
                proof {
                    lemma_values_for_len(done, key@);
                }
                let ghost before = map;
                map.add(key, Record::new(v));
                proof {
                    let done2 = done.push(row);
                    assert(done2.drop_last() =~= done);
                    assert forall|k: Seq<u8>| #[trigger] map.get(k) == summary_opt(values_for(done2, k)) by {
                        assert(before.get(k) == summary_opt(values_for(done, k)));
                        if k == key@ {
                            let vs = values_for(done, k);
                            if vs.len() > 0 {
                                lemma_summary_split(vs, seq![v as int]);
                                assert(vs + seq![v as int] =~= vs.push(v as int));
                            } else {
                                assert(vs.push(v as int) =~= seq![v as int]);
                            }
                        }
                    }
                    assert(row_of(line@) == Some(row));
                    assert(rows_of(tail) is None ==> rows_of(rest) is None);
                    if rows_of(tail) is Some {
                        assert(rows_of(rest) == Some(seq![row] + rows_of(tail)->Some_0));
                        assert(done + rows_of(rest)->Some_0 =~= done2 + rows_of(tail)->Some_0);
                    }
                    done = done2;
                }
            },
        }
        if e < n {
            pos = e + 1;
        } else {
            pos = n;
            proof {
                assert(chunk@.subrange(n as int, n as int) =~= Seq::<u8>::empty());
            }
        }
    }
    proof {
        assert(chunk@.subrange(n as int, n as int) =~= Seq::<u8>::empty());
        assert(done + Seq::<Row>::empty() =~= done);
    }
    Some(map)
}

/// Ends with a newline, or is empty.
pub open spec fn ends_line(s: Seq<u8>) -> bool {
    s.len() == 0 || s.last() == NEWLINE
}

/// Rows of two runs of whole lines, one after the other.
pub proof fn lemma_rows_concat(a: Seq<u8>, b: Seq<u8>)
    requires
        ends_line(a),
    ensures
        rows_of(a + b) == (match (rows_of(a), rows_of(b)) {
            (Some(x), Some(y)) => Some(x + y),
            _ => None,
        }),
    decreases a.len(),
{
    if a.len() == 0 {
        assert(a + b =~= b);
        if rows_of(b) is Some {
            assert(Seq::<Row>::empty() + rows_of(b)->Some_0 =~= rows_of(b)->Some_0);
        }
    } else {
        let ab = a + b;
        lemma_first_exists(a, NEWLINE, a.len() - 1);
        let c = choose|p: int| is_first(a, NEWLINE, p);
        assert(is_first(ab, NEWLINE, c));
        lemma_first_of(ab, NEWLINE, c);
        lemma_first_of(a, NEWLINE, c);
        let a2 = a.subrange(c + 1, a.len() as int);
        assert(ab.subrange(0, c) =~= a.subrange(0, c));
        assert(ab.subrange(c + 1, ab.len() as int) =~= a2 + b);
        lemma_rows_concat(a2, b);
        if rows_of(a) is Some && rows_of(b) is Some {
            let r = row_of(a.subrange(0, c))->Some_0;
            assert(seq![r] + (rows_of(a2)->Some_0 + rows_of(b)->Some_0)
                =~= (seq![r] + rows_of(a2)->Some_0) + rows_of(b)->Some_0);
        }
    }
}

proof fn lemma_first_exists(s: Seq<u8>, b: u8, p: int)
    requires
        0 <= p < s.len(),
        s[p] == b,
    ensures
        exists|c: int| is_first(s, b, c),
    decreases p,
{
    if exists|q: int| 0 <= q < p && s[q] == b {
        let q = choose|q: int| 0 <= q < p && s[q] == b;
        lemma_first_exists(s, b, q);
    } else {
        assert(is_first(s, b, p));
    }
}

/// There are no more rows than bytes.
pub proof fn lemma_rows_len(s: Seq<u8>)
    requires
        rows_of(s) is Some,
    ensures
        rows_of(s)->Some_0.len() <= s.len(),
    decreases s.len(),
{
    if s.len() > 0 {
        let e = first_of(s, NEWLINE);
        if 0 <= e < s.len() {
            lemma_rows_len(s.subrange(e + 1, s.len() as int));
        }
    }
}

} // verus!
