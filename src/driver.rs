//! The whole pass: plan the chunks, fold each one, merge the tables in order.
use vstd::prelude::*;
use vstd::slice::slice_subrange;
use crate::global::SortedTable;
use crate::plan::{PlanError, get_chunks, plan, ranges_view, lemma_plan_partitions};
use crate::scan::{FormatError, process_chunk, scan, scan_from, well_formed, well_formed_from, lemma_chunk_readings};
use crate::plan::{is_partition, NEWLINE};
use crate::stats::Summary;
use crate::table::{fold_readings, merge_maps, table_ok, counts_within, lemma_fold_concat, lemma_merge_associative};

verus! {

/// Why a run produced no table.
#[derive(PartialEq, Eq, Structural, Clone, Copy, Debug)]
pub enum RunError {
    /// The buffer could not be split into line-aligned chunks.
    Plan(PlanError),
    /// Chunk `chunk` holds a malformed record; offsets in `error` are
    /// relative to the chunk's start.
    Format { chunk: usize, error: FormatError },
}

/// The table of the chunks `r` of `data` merged in order, or the error of the
/// first chunk that could not be read.
pub open spec fn merge_chunks(data: Seq<u8>, r: Seq<(int, int)>) -> Result<
    Map<Seq<u8>, Summary>,
    RunError,
>
    decreases r.len(),
{
    if r.len() == 0 {
        Ok(Map::empty())
    } else {
        match merge_chunks(data, r.drop_last()) {
            Err(e) => Err(e),
            Ok(m) => match scan(data.subrange(r.last().0, r.last().1)) {
                Err(e) => Err(RunError::Format { chunk: (r.len() - 1) as usize, error: e }),
                Ok(rs) => Ok(merge_maps(m, fold_readings(rs))),
            },
        }
    }
}

/// The table that `n` workers produce from `data`.
pub open spec fn run(data: Seq<u8>, n: int) -> Result<Map<Seq<u8>, Summary>, RunError> {
    match plan(data, n) {
        Err(e) => Err(RunError::Plan(e)),
        Ok(r) => merge_chunks(data, r),
    }
}

proof fn lemma_first_error_stands(data: Seq<u8>, r: Seq<(int, int)>, j: int)
    requires
        0 <= j <= r.len(),
        merge_chunks(data, r.take(j)) is Err,
    ensures
        merge_chunks(data, r) == merge_chunks(data, r.take(j)),
    decreases r.len() - j,
{
    if j == r.len() {
        assert(r.take(j) =~= r);
    } else {
        assert(r.take(j + 1).drop_last() =~= r.take(j));
        lemma_first_error_stands(data, r, j + 1);
    }
}

proof fn lemma_merged_prefix(data: Seq<u8>, r: Seq<(int, int)>, i: int)
    requires
        well_formed(data),
        is_partition(data, r),
        0 <= i <= r.len(),
    ensures
        ({
            let q = if i == 0 { 0 } else { r[i - 1].1 };
            &&& well_formed_from(data, q)
            &&& scan(data) is Ok
            &&& scan_from(data, q) is Ok
            &&& merge_chunks(data, r.take(i)) is Ok
            &&& merge_maps(merge_chunks(data, r.take(i))->Ok_0, fold_readings(scan_from(data, q)->Ok_0))
                == fold_readings(scan(data)->Ok_0)
        }),
    decreases i,
{
    let len = data.len() as int;
    assert(data[len - 1] == NEWLINE) by {
        assert(r[r.len() - 1].1 == len);
    }
    if i == 0 {
        lemma_chunk_readings(data, 0, len);
        assert(r.take(0) =~= Seq::<(int, int)>::empty());
        assert(scan_from(data, len) == Ok::<Seq<(Seq<u8>, int)>, FormatError>(seq![]));
        assert(seq![] + Seq::<(Seq<u8>, int)>::empty() =~= Seq::<(Seq<u8>, int)>::empty());
        let f = fold_readings(scan(data)->Ok_0);
        assert(merge_maps(Map::empty(), f) =~= f);
    } else {
        lemma_merged_prefix(data, r, i - 1);
        let c0 = r[i - 1].0;
        let c1 = r[i - 1].1;
        assert(c0 == if i - 1 == 0 { 0 } else { r[i - 2].1 });
        lemma_chunk_readings(data, c0, c1);
        assert(r.take(i).drop_last() =~= r.take(i - 1));
        let m = merge_chunks(data, r.take(i - 1))->Ok_0;
        let sr = scan(data.subrange(c0, c1))->Ok_0;
        let tr = scan_from(data, c1)->Ok_0;
        lemma_merge_associative(m, fold_readings(sr), fold_readings(tr));
        lemma_fold_concat(sr, tr);
    }
}

/// On well-formed data, whenever the chunks can be planned, merging the
/// chunk tables gives exactly the table of folding the whole buffer as one
/// chunk: the split into chunks does not show in the result.
pub proof fn lemma_chunking_transparent(data: Seq<u8>, n: int)
    requires
        n >= 1,
        well_formed(data),
        plan(data, n) is Ok,
    ensures
        scan(data) is Ok,
        run(data, n) == Ok::<_, RunError>(fold_readings(scan(data)->Ok_0)),
{
    crate::plan::lemma_plan_partitions(data, n);
    let r = plan(data, n)->Ok_0;
    lemma_merged_prefix(data, r, r.len() as int);
    assert(r.take(r.len() as int) =~= r);
    let m = merge_chunks(data, r)->Ok_0;
    assert(scan_from(data, data.len() as int) == Ok::<Seq<(Seq<u8>, int)>, FormatError>(seq![]));
    assert(merge_maps(m, Map::empty()) =~= m);
}

/// Plans `n_threads` chunks of `data`, folds each into a local table and
/// merges the tables, one chunk after another.
pub fn aggregate(data: &[u8], n_threads: usize) -> (r: Result<SortedTable, RunError>)
    requires
        n_threads >= 1,
    ensures
        match r {
            Ok(t) => t.wf() && run(data@, n_threads as int) == Ok::<_, RunError>(t.view()),
            Err(e) => run(data@, n_threads as int) == Err::<Map<Seq<u8>, Summary>, _>(e),
        },
{
    let chunks = match get_chunks(data, n_threads) {
        Err(e) => {
            return Err(RunError::Plan(e));
        },
        Ok(c) => c,
    };
    let ghost rv = ranges_view(chunks@);
    proof {
        lemma_plan_partitions(data@, n_threads as int);
        assert(rv.take(0) =~= Seq::<(int, int)>::empty());
    }
    let mut acc = SortedTable::new();
    let mut i: usize = 0;
    let mut consumed: usize = 0;
    while i < chunks.len()
        invariant
            rv == ranges_view(chunks@),
            plan(data@, n_threads as int) == Ok::<_, PlanError>(rv),
            crate::plan::is_partition(data@, rv),
            rv.len() == chunks@.len(),
            i <= chunks@.len(),
            i == 0 ==> consumed == 0,
            i > 0 ==> consumed == rv[i - 1].1,
            acc.wf(),
            table_ok(acc.view()),
            counts_within(acc.view(), consumed as int),
            merge_chunks(data@, rv.take(i as int)) == Ok::<_, RunError>(acc.view()),
        decreases chunks@.len() - i,
    {
        let (start, end) = chunks[i];
        assert(rv[i as int] == (start as int, end as int));
        assert(start == consumed);
        let part = slice_subrange(data, start, end);
        assert(rv.take(i + 1).drop_last() =~= rv.take(i as int));
        match process_chunk(part) {
            Err(e) => {
                proof {
                    lemma_first_error_stands(data@, rv, i + 1);
                }
                return Err(RunError::Format { chunk: i, error: e });
            },
            Ok(t) => {
                let ghost a0 = acc.view();
                acc.merge_local(&t);
                proof {
                    crate::table::lemma_merge_ok(a0, t.view(), consumed as int, (end - start) as int);
                }
                consumed = end;
            },
        }
        i = i + 1;
    }
    assert(rv.take(i as int) =~= rv);
    Ok(acc)
}

} // verus!
