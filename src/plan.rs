//! Splitting the buffer into line-aligned ranges, one per worker.
use vstd::prelude::*;

verus! {

pub const NEWLINE: u8 = 10;

/// Why no plan could be made.
#[derive(PartialEq, Eq, Structural, Clone, Copy, Debug)]
pub enum PlanError {
    /// The tentative slice of this worker holds no line terminator.
    NoTerminator { slice: usize },
    /// The buffer does not end with a line terminator.
    UnterminatedTail,
}

/// The offset just past the last terminator in `data[start..end)`, if any.
pub open spec fn snap_end(data: Seq<u8>, start: int, end: int) -> Option<int>
    decreases end - start,
{
    if end <= start {
        None
    } else if data[end - 1] == NEWLINE {
        Some(end)
    } else {
        snap_end(data, start, end - 1)
    }
}

/// Where slice `i` of `n` nominally equal slices of `len` bytes ends; the last
/// slice always ends at `len`.
pub open spec fn tentative_end(len: int, n: int, i: int) -> int {
    if i + 1 >= n {
        len
    } else {
        (i + 1) * (len / n)
    }
}

pub open spec fn prepend<E>(prefix: Seq<(int, int)>, r: Result<Seq<(int, int)>, E>) -> Result<
    Seq<(int, int)>,
    E,
> {
    match r {
        Ok(rest) => Ok(prefix + rest),
        Err(e) => Err(e),
    }
}

/// The ranges of slices `i..n`, the first of them starting at `start`: each one
/// ends just past the last terminator before its tentative end.
pub open spec fn plan_from(data: Seq<u8>, n: int, i: int, start: int) -> Result<
    Seq<(int, int)>,
    PlanError,
>
    decreases n - i,
{
    if i >= n {
        if start == data.len() {
            Ok(seq![])
        } else {
            Err(PlanError::UnterminatedTail)
        }
    } else {
        match snap_end(data, start, tentative_end(data.len() as int, n, i)) {
            None => Err(PlanError::NoTerminator { slice: i as usize }),
            Some(e) => prepend(seq![(start, e)], plan_from(data, n, i + 1, e)),
        }
    }
}

/// The ranges that `n` workers get of `data`.
pub open spec fn plan(data: Seq<u8>, n: int) -> Result<Seq<(int, int)>, PlanError> {
    plan_from(data, n, 0, 0)
}

pub open spec fn ranges_view(v: Seq<(usize, usize)>) -> Seq<(int, int)> {
    v.map_values(|p: (usize, usize)| (p.0 as int, p.1 as int))
}

/// The ranges partition `[0, len)`: they follow each other without gap or
/// overlap from 0 to `len`, and each is non-empty and ends with a terminator.
pub open spec fn is_partition(data: Seq<u8>, r: Seq<(int, int)>) -> bool {
    &&& r.len() > 0
    &&& r[0].0 == 0
    &&& r[r.len() - 1].1 == data.len()
    &&& forall|k: int| 0 <= k < r.len() - 1 ==> #[trigger] r[k].1 == r[k + 1].0
    &&& forall|k: int|
        0 <= k < r.len() ==> r[k].0 < #[trigger] r[k].1 <= data.len() && data[r[k].1 - 1] == NEWLINE
    &&& forall|a: int, b: int| 0 <= a < b < r.len() ==> #[trigger] r[a].1 <= #[trigger] r[b].0
    &&& forall|p: int| 0 <= p < data.len() ==> #[trigger] covered(r, p)
}

/// Some range of `r` holds offset `p`.
pub open spec fn covered(r: Seq<(int, int)>, p: int) -> bool {
    exists|k: int| 0 <= k < r.len() && r[k].0 <= p < #[trigger] r[k].1
}

proof fn lemma_snap_end(data: Seq<u8>, start: int, end: int)
    requires
        end <= data.len(),
        0 <= start,
        snap_end(data, start, end) is Some,
    ensures
        start < snap_end(data, start, end)->0 <= end,
        data[snap_end(data, start, end)->0 - 1] == NEWLINE,
    decreases end - start,
{
    if end > start && data[end - 1] != NEWLINE {
        lemma_snap_end(data, start, end - 1);
    }
}

proof fn lemma_plan_from(data: Seq<u8>, n: int, i: int, start: int)
    requires
        0 <= i <= n,
        0 <= start <= data.len(),
        plan_from(data, n, i, start) is Ok,
    ensures
        ({
            let r = plan_from(data, n, i, start)->Ok_0;
            &&& r.len() == n - i
            &&& r.len() == 0 ==> start == data.len()
            &&& r.len() > 0 ==> r[0].0 == start && r[r.len() - 1].1 == data.len()
            &&& forall|k: int| 0 <= k < r.len() - 1 ==> #[trigger] r[k].1 == r[k + 1].0
            &&& forall|k: int|
                0 <= k < r.len() ==> start <= r[k].0 < #[trigger] r[k].1 <= data.len() && data[r[k].1
                    - 1] == NEWLINE
            &&& forall|a: int, b: int| 0 <= a < b < r.len() ==> #[trigger] r[a].1 <= #[trigger] r[b].0
            &&& forall|p: int| start <= p < data.len() ==> #[trigger] covered(r, p)
        }),
    decreases n - i,
{
    if i < n {
        let t = tentative_end(data.len() as int, n, i);
        assert(t <= data.len()) by {
            if i + 1 < n {
                let len = data.len() as int;
                assert((i + 1) * (len / n) <= len) by (nonlinear_arith)
                    requires
                        i + 1 < n,
                        0 <= len,
                        0 < n,
                ;
            }
        }
        lemma_snap_end(data, start, t);
        let e = snap_end(data, start, t)->0;
        lemma_plan_from(data, n, i + 1, e);
        let rest = plan_from(data, n, i + 1, e)->Ok_0;
        let r = plan_from(data, n, i, start)->Ok_0;
        assert(r == seq![(start, e)] + rest);
        assert forall|p: int| start <= p < data.len() implies #[trigger] covered(r, p) by {
            if p < e {
                assert(r[0].0 <= p < r[0].1);
            } else {
                assert(covered(rest, p));
                let k = choose|k: int| 0 <= k < rest.len() && rest[k].0 <= p < #[trigger] rest[k].1;
                assert(r[k + 1] == rest[k]);
            }
        }
        assert forall|a: int, b: int| 0 <= a < b < r.len() implies #[trigger] r[a].1
            <= #[trigger] r[b].0 by {
            assert(r[b] == rest[b - 1]);
            assert(rest[b - 1].1 <= data.len());
            if a > 0 {
                assert(r[a] == rest[a - 1]);
                assert(rest[a - 1].1 <= rest[b - 1].0);
            }
        }
        assert forall|k: int| 0 <= k < r.len() - 1 implies #[trigger] r[k].1 == r[k + 1].0 by {
            if k > 0 {
                assert(r[k] == rest[k - 1]);
            }
        }
    }
}

/// Whenever a plan for `n >= 1` workers exists, its ranges partition the buffer.
pub proof fn lemma_plan_partitions(data: Seq<u8>, n: int)
    requires
        n >= 1,
        plan(data, n) is Ok,
    ensures
        plan(data, n)->Ok_0.len() == n,
        is_partition(data, plan(data, n)->Ok_0),
{
    lemma_plan_from(data, n, 0, 0);
}

/// The offset just past the last terminator in `data[start..end)`, if any.
fn last_terminator_end(data: &[u8], start: usize, end: usize) -> (r: Option<usize>)
    requires
        end <= data@.len(),
    ensures
        match r {
            Some(e) => snap_end(data@, start as int, end as int) == Some(e as int),
            None => snap_end(data@, start as int, end as int) is None,
        },
{
    if end <= start {
        return None;
    }
    let mut j = end;
    while j > start
        invariant
            start <= j <= end <= data@.len(),
            snap_end(data@, start as int, end as int) == snap_end(data@, start as int, j as int),
        decreases j,
    {
        if data[j - 1] == NEWLINE {
            return Some(j);
        }
        j = j - 1;
    }
    None
}

/// Splits `data` into `n_threads` line-aligned ranges `[start, end)`: slice `i`
/// nominally ends at `(i + 1) * (len / n_threads)` (the last at `len`) and is
/// cut back to just past the last terminator before that point; the next
/// slice starts there.
pub fn get_chunks(data: &[u8], n_threads: usize) -> (r: Result<Vec<(usize, usize)>, PlanError>)
    requires
        n_threads >= 1,
    ensures
        match r {
            Ok(v) => plan(data@, n_threads as int) == Ok::<_, PlanError>(ranges_view(v@)),
            Err(e) => plan(data@, n_threads as int) == Err::<Seq<(int, int)>, _>(e),
        },
{
    let len = data.len();
    let chunk_size = len / n_threads;
    let mut chunks: Vec<(usize, usize)> = Vec::new();
    let mut start: usize = 0;
    let mut i: usize = 0;
    while i < n_threads
        invariant
            i <= n_threads,
            start <= len == data@.len(),
            chunk_size == len / n_threads,
            chunks@.len() == i,
            plan(data@, n_threads as int) == prepend(
                ranges_view(chunks@),
                plan_from(data@, n_threads as int, i as int, start as int),
            ),
        decreases n_threads - i,
    {
        let end: usize;
        if i + 1 >= n_threads {
            end = len;
        } else {
            assert((i + 1) * (len / n_threads) <= len) by (nonlinear_arith)
                requires
                    i + 1 < n_threads,
                    0 < n_threads,
            ;
            end = (i + 1) * chunk_size;
        }
        assert(end == tentative_end(len as int, n_threads as int, i as int));
        match last_terminator_end(data, start, end) {
            None => {
                return Err(PlanError::NoTerminator { slice: i });
            },
            Some(e) => {
                proof {
                    lemma_snap_end(data@, start as int, end as int);
                }
                let ghost old_chunks = chunks@;
                let ghost old_start = start;
                chunks.push((start, e));
                proof {
                    let x = plan_from(data@, n_threads as int, i + 1, e as int);
                    assert(ranges_view(chunks@) =~= ranges_view(old_chunks) + seq![
                        (old_start as int, e as int),
                    ]);
                    if x is Ok {
                        assert(ranges_view(old_chunks) + (seq![(old_start as int, e as int)]
                            + x->Ok_0) =~= ranges_view(chunks@) + x->Ok_0);
                    }
                }
                start = e;
            },
        }
        i = i + 1;
    }
    if start == len {
        assert(ranges_view(chunks@) + Seq::empty() =~= ranges_view(chunks@));
        Ok(chunks)
    } else {
        Err(PlanError::UnterminatedTail)
    }
}

} // verus!
