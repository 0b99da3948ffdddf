use vstd::prelude::*;
use crate::chunk::{
    chunk_size_for, chunk_size_spec, is_cut, is_line_start, lemma_buffer_cut_is_file_cut, lemma_cut_unique,
    lemma_partition_complete, new_offset, plan_chunk, plan_of, resolve_chunk, resolved_range,
    well_formed_lines,
};
use crate::map::StatsMap;
use crate::record::join;
use crate::scan::{
    ends_line, lemma_rows_concat, lemma_rows_len, lemma_split_rows_merge, lemma_values_for_len, parse_chunk,
    rows_of, summary_opt, values_for,
};

verus! {

/// Summarises a whole file as `threads` workers would: each claims the next
/// chunk offset, aligns its chunk to line boundaries, summarises it, and the
/// summaries are merged. Where it succeeds the result is, for every key, the
/// summary of all the file's rows; it succeeds on every file of rows that ends
/// with a newline and whose lines are at most `WINDOW` bytes long.
#[verifier::rlimit(60)]
pub fn summarize(file: &[u8], threads: usize) -> (r: Option<StatsMap>)
    requires
        threads >= 1,
    ensures
        r matches Some(m) ==> rows_of(file@) is Some && m.wf() && forall|k: Seq<u8>|
            #[trigger] m.get(k) == summary_opt(values_for(rows_of(file@)->Some_0, k)),
        well_formed_lines(file@) && rows_of(file@) is Some ==> r is Some,
{
    let ghost f = file@;
    let n = file.len();
    let cs = chunk_size_for(n, threads);
    proof {
        crate::chunk::lemma_chunk_size_bound(n as int, threads as int);
    }
    let mut cursor = new_offset();
    let mut map = StatsMap::new();
    let mut pos: usize = 0;
    let mut k: usize = 0;
    let ghost good = well_formed_lines(f) && rows_of(f) is Some;
    proof {
        assert(f.subrange(0, 0) =~= Seq::<u8>::empty());
    }
    while k < threads
        invariant
            f == file@,
            n == f.len(),
            threads >= 1,
            cs == chunk_size_spec(n as int, threads as int),
            threads * cs <= if n >= threads { n as int } else { threads as int },
            cs >= 1,
            k <= threads,
            cursor.next == k * cs,
            pos <= n,
            k == 0 ==> pos == 0,
            k > 0 ==> is_cut(f, true, plan_of(n as int, threads as int, k - 1).1, pos as int),
            map.wf(),
            rows_of(f.subrange(0, pos as int)) is Some,
            forall|key: Seq<u8>| #[trigger] map.get(key)
                == summary_opt(values_for(rows_of(f.subrange(0, pos as int))->Some_0, key)),
            good == (well_formed_lines(f) && rows_of(f) is Some),
        decreases threads - k,
    {
        proof {
            assert(k * cs + cs == (k + 1) * cs) by (nonlinear_arith);
            assert((k + 1) * cs <= threads * cs) by (nonlinear_arith) requires k + 1 <= threads, cs >= 1;
            if good {
                lemma_partition_complete(f, threads as int, k as int);
            }
        }
        let offset = cursor.fetch_add(cs);
        let plan = plan_chunk(n, threads, offset);
        let ghost start = plan.start as int;
        let ghost end = plan.end as int;
        let ghost rs = plan.read_start as int;
        let buf = vstd::slice::slice_subrange(file, plan.read_start, plan.end);
        let resolved = resolve_chunk(buf, &plan);
        let (h, t) = match resolved {
            Some(ht) => ht,
            None => {
                return None;
            },
        };
        proof {
            lemma_buffer_cut_is_file_cut(f, rs, end, start, h as int);
            lemma_buffer_cut_is_file_cut(f, rs, end, end, t as int);
            if k == 0 {
                assert(k * cs == 0) by (nonlinear_arith) requires k == 0;
                assert(is_cut(f, true, 0, 0));
                lemma_cut_unique(f, true, 0, 0);
                lemma_cut_unique(f, true, 0, h + rs);
            } else {
                assert((k - 1) * cs + cs == k * cs) by (nonlinear_arith);
                assert((k - 1) * cs < (threads - 1) * cs) by (nonlinear_arith) requires k < threads, cs >= 1;
                assert(plan_of(n as int, threads as int, k - 1).1 == start);
                lemma_cut_unique(f, true, start, pos as int);
                lemma_cut_unique(f, true, start, h + rs);
            }
            assert(h + rs == pos);
        }
        let chunk = vstd::slice::slice_subrange(buf, h, t);
        let ghost mid = f.subrange(pos as int, rs + t);
        let ghost upto = f.subrange(0, rs + t);
        proof {
            assert(chunk@ =~= mid);
            assert(upto =~= f.subrange(0, pos as int) + mid);
            assert(ends_line(f.subrange(0, pos as int)));
            lemma_rows_concat(f.subrange(0, pos as int), mid);
            if good {
                assert(is_line_start(f, true, rs + t));
                assert(ends_line(upto));
                assert(f =~= upto + f.subrange(rs + t, n as int));
                lemma_rows_concat(upto, f.subrange(rs + t, n as int));
            }
        }
        let local = match parse_chunk(chunk) {
            Some(m) => m,
            None => {
                return None;
            },
        };
        proof {
            let r1 = rows_of(f.subrange(0, pos as int))->Some_0;
            let r2 = rows_of(mid)->Some_0;
            lemma_rows_len(f.subrange(0, pos as int));
            lemma_rows_len(mid);
            assert forall|key: Seq<u8>| #![trigger map.get(key)] #![trigger local.get(key)]
                (map.get(key) is Some && local.get(key) is Some) implies map.get(key)->Some_0.count
                + local.get(key)->Some_0.count <= u64::MAX by {
                lemma_values_for_len(r1, key);
                lemma_values_for_len(r2, key);
            }
        }
        let ghost before = map;
        map.merge_from(&local);
        proof {
            let r1 = rows_of(f.subrange(0, pos as int))->Some_0;
            let r2 = rows_of(mid)->Some_0;
            assert(rows_of(upto) == Some(r1 + r2));
            assert forall|key: Seq<u8>| #[trigger] map.get(key) == summary_opt(values_for(r1 + r2, key)) by {
                assert(map.get(key) == join(before.get(key), local.get(key)));
                lemma_split_rows_merge(r1, r2, key);
            }
        }
        pos = plan.read_start + t;
        k = k + 1;
    }
    proof {
        if good {
            let last = plan_of(n as int, threads as int, threads - 1);
            assert(last.1 == n);
            assert(is_line_start(f, true, n as int));
            assert(is_cut(f, true, n as int, n as int));
            lemma_cut_unique(f, true, n as int, n as int);
            lemma_cut_unique(f, true, n as int, pos as int);
        }
    }
    if pos != n {
        return None;
    }
    proof {
        assert(f.subrange(0, n as int) =~= f);
    }
    Some(map)
}

} // verus!
