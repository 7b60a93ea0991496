use vstd::prelude::*;

verus! {

/// The smallest number of rows that the chunked strategy hands to one job.
pub const MIN_CHUNK_SIZE: usize = 16;

/// How the row updates of one elimination round are turned into jobs.
#[derive(Clone, Copy, Debug, PartialEq, Eq, Structural)]
pub enum Strategy {
    /// One job holding every row of the round, run in place.
    Sequential,
    /// One freshly spawned thread per row.
    ThreadPerRow,
    /// One pool job per row.
    PooledPerRow,
    /// One pool job per contiguous chunk of rows.
    PooledChunked,
    /// One cooperative task per row.
    CooperativeTasks,
}

/// The rows `start..end` of the matrix (and the same indices of the
/// constants vector), updated by one job.
#[derive(Clone, Copy, Debug, PartialEq, Eq, Structural)]
pub struct RowRange {
    pub start: usize,
    pub end: usize,
}

/// Whether `row` belongs to `job`.
pub open spec fn in_job(job: RowRange, row: int) -> bool {
    job.start <= row < job.end
}

/// Whether some job of `jobs` holds `row`.
pub open spec fn covered(jobs: Seq<RowRange>, row: int) -> bool {
    exists|i: int| 0 <= i < jobs.len() && in_job(#[trigger] jobs[i], row)
}

/// `max(MIN_CHUNK_SIZE, remaining / total_threads)`.
pub open spec fn spec_chunk_size(remaining: int, total_threads: int) -> int {
    if remaining / total_threads < MIN_CHUNK_SIZE {
        MIN_CHUNK_SIZE as int
    } else {
        remaining / total_threads
    }
}

/// The rows `lo..hi` cut, from `lo` upwards, into ranges of `size` rows; the
/// last range holds what is left.
pub open spec fn spec_chunks(lo: int, hi: int, size: int) -> Seq<RowRange>
    decreases hi - lo,
{
    if lo >= hi || size <= 0 {
        Seq::empty()
    } else {
        let end = if hi - lo > size { lo + size } else { hi };
        seq![RowRange { start: lo as usize, end: end as usize }].add(spec_chunks(end, hi, size))
    }
}

/// How many rows one job of `strategy` takes in round `norm` of an order `n`
/// system.
pub open spec fn spec_job_size(n: int, norm: int, strategy: Strategy, total_threads: int) -> int {
    match strategy {
        Strategy::Sequential => if n - norm - 1 > 0 { n - norm - 1 } else { 1 },
        Strategy::PooledChunked => spec_chunk_size(n - norm, total_threads),
        _ => 1,
    }
}

/// The jobs of round `norm`: the rows `norm + 1..n` cut into ranges of the
/// strategy's job size.
pub open spec fn spec_round_jobs(n: int, norm: int, strategy: Strategy, total_threads: int) -> Seq<
    RowRange,
> {
    spec_chunks(norm + 1, n, spec_job_size(n, norm, strategy, total_threads))
}

/// `max(MIN_CHUNK_SIZE, remaining / total_threads)`: the rows per job of the
/// chunked strategy when `remaining` rows are left.
pub fn chunk_size(remaining: usize, total_threads: usize) -> (r: usize)
    requires
        total_threads >= 1,
    ensures
        r == spec_chunk_size(remaining as int, total_threads as int),
{
    let even = remaining / total_threads;
    if even < MIN_CHUNK_SIZE {
        MIN_CHUNK_SIZE
    } else {
        even
    }
}

/// Cuts the rows `lo..hi` into ranges of `size` rows.
fn chunks(lo: usize, hi: usize, size: usize) -> (r: Vec<RowRange>)
    requires
        size >= 1,
    ensures
        r@ == spec_chunks(lo as int, hi as int, size as int),
{
    let mut jobs: Vec<RowRange> = Vec::new();
    let mut start: usize = lo;
    while start < hi
        invariant
            size >= 1,
            lo <= start || hi <= lo,
            start < hi ==> lo <= start,
            jobs@.add(spec_chunks(start as int, hi as int, size as int)) == spec_chunks(
                lo as int,
                hi as int,
                size as int,
            ),
        decreases hi - start,
    {
        let end: usize = if hi - start > size {
            start + size
        } else {
            hi
        };
        let ghost before = jobs@;
        jobs.push(RowRange { start, end });
        proof {
            assert(spec_chunks(start as int, hi as int, size as int) == seq![
                RowRange { start, end },
            ].add(spec_chunks(end as int, hi as int, size as int)));
            assert(jobs@.add(spec_chunks(end as int, hi as int, size as int)) =~= before.add(
                spec_chunks(start as int, hi as int, size as int),
            ));
        }
        start = end;
    }
    proof {
        assert(jobs@.add(spec_chunks(start as int, hi as int, size as int)) =~= jobs@);
    }
    jobs
}

/// The jobs of round `norm` of an order `n` system under `strategy`, with
/// `total_threads` workers: the rows `norm + 1..n`, in ascending order, cut
/// into ranges of the strategy's job size.
pub fn round_jobs(n: usize, norm: usize, strategy: Strategy, total_threads: usize) -> (r: Vec<
    RowRange,
>)
    requires
        norm < n,
        total_threads >= 1,
    ensures
        r@ == spec_round_jobs(n as int, norm as int, strategy, total_threads as int),
        ascending_below(r@, norm as int, n as int),
{
    proof {
        lemma_round_jobs_partition(n, norm, strategy, total_threads);
        let jobs = spec_round_jobs(n as int, norm as int, strategy, total_threads as int);
        assert forall|i: int, j: int| 0 <= i < j < jobs.len() implies #[trigger] jobs[i].end
            <= #[trigger] jobs[j].start by {}
        assert forall|i: int| 0 <= i < jobs.len() implies norm < #[trigger] jobs[i].start
            <= jobs[i].end <= n by {}
    }
    let size: usize = match strategy {
        Strategy::Sequential => if n - norm - 1 > 0 {
            n - norm - 1
        } else {
            1
        },
        Strategy::PooledChunked => chunk_size(n - norm, total_threads),
        _ => 1,
    };
    chunks(norm + 1, n, size)
}

/// The ranges of `spec_chunks(lo, hi, size)` are non-empty, lie inside
/// `lo..hi`, ascend without overlap, and together hold every row of `lo..hi`.
proof fn lemma_chunks_tile(lo: int, hi: int, size: int)
    requires
        0 <= lo,
        hi <= usize::MAX,
        size >= 1,
    ensures
        forall|i: int|
            0 <= i < spec_chunks(lo, hi, size).len() ==> {
                &&& lo <= spec_chunks(lo, hi, size)[i].start
                &&& spec_chunks(lo, hi, size)[i].start < spec_chunks(lo, hi, size)[i].end
                &&& spec_chunks(lo, hi, size)[i].end <= hi
            },
        forall|i: int, j: int|
            0 <= i < j < spec_chunks(lo, hi, size).len() ==> spec_chunks(lo, hi, size)[i].end
                <= spec_chunks(lo, hi, size)[j].start,
        forall|row: int| lo <= row < hi <==> #[trigger] covered(spec_chunks(lo, hi, size), row),
    decreases hi - lo,
{
    if lo < hi {
        let end = if hi - lo > size { lo + size } else { hi };
        let rest = spec_chunks(end, hi, size);
        let all = spec_chunks(lo, hi, size);
        lemma_chunks_tile(end, hi, size);
        assert(all == seq![RowRange { start: lo as usize, end: end as usize }].add(rest));
        assert forall|i: int| 0 < i < all.len() implies all[i] == rest[i - 1] by {}
        assert forall|row: int| lo <= row < hi implies covered(all, row) by {
            if row < end {
                assert(in_job(all[0], row));
            } else {
                assert(covered(rest, row));
                let k = choose|k: int| 0 <= k < rest.len() && in_job(#[trigger] rest[k], row);
                assert(all[k + 1] == rest[k]);
            }
        }
        assert forall|row: int| covered(all, row) implies lo <= row < hi by {
            let i = choose|i: int| 0 <= i < all.len() && in_job(#[trigger] all[i], row);
            if i > 0 {
                assert(all[i] == rest[i - 1]);
            }
        }
    }
}

/// Every range of `spec_chunks(lo, hi, size)` but the last is full, and each
/// holds at least one row.
proof fn lemma_chunks_len(lo: int, hi: int, size: int)
    requires
        0 <= lo <= hi,
        hi <= usize::MAX,
        size >= 1,
    ensures
        spec_chunks(lo, hi, size).len() <= hi - lo,
        size == 1 ==> spec_chunks(lo, hi, size).len() == hi - lo,
        lo < hi ==> (spec_chunks(lo, hi, size).len() - 1) * size < hi - lo,
    decreases hi - lo,
{
    if lo < hi {
        let end = if hi - lo > size { lo + size } else { hi };
        let len = spec_chunks(lo, hi, size).len();
        lemma_chunks_len(end, hi, size);
        assert(len == 1 + spec_chunks(end, hi, size).len());
        if end < hi {
            assert((len - 1) * size == (len - 2) * size + size) by (nonlinear_arith);
        } else {
            assert(spec_chunks(end, hi, size).len() == 0);
            assert((len - 1) * size == 0) by (nonlinear_arith)
                requires
                    len == 1,
            ;
        }
    }
}

/// The jobs of every round tile the rows below the pivot: for any order `n`,
/// round `norm`, strategy and worker count, the jobs are non-empty, pairwise
/// disjoint, in ascending order, and their union is exactly `norm + 1..n`.
pub proof fn lemma_round_jobs_partition(n: usize, norm: usize, strategy: Strategy, total_threads: usize)
    requires
        norm < n,
        total_threads >= 1,
    ensures
        forall|i: int|
            0 <= i < spec_round_jobs(n as int, norm as int, strategy, total_threads as int).len()
                ==> {
                &&& norm < spec_round_jobs(n as int, norm as int, strategy, total_threads as int)[i].start
                &&& spec_round_jobs(n as int, norm as int, strategy, total_threads as int)[i].start
                    < spec_round_jobs(n as int, norm as int, strategy, total_threads as int)[i].end
                &&& spec_round_jobs(n as int, norm as int, strategy, total_threads as int)[i].end <= n
            },
        forall|i: int, j: int|
            0 <= i < j < spec_round_jobs(n as int, norm as int, strategy, total_threads as int).len()
                ==> spec_round_jobs(n as int, norm as int, strategy, total_threads as int)[i].end
                <= spec_round_jobs(n as int, norm as int, strategy, total_threads as int)[j].start,
        forall|row: int|
            norm < row < n <==> #[trigger] covered(
                spec_round_jobs(n as int, norm as int, strategy, total_threads as int),
                row,
            ),
{
    let size = spec_job_size(n as int, norm as int, strategy, total_threads as int);
    assert(size >= 1);
    lemma_chunks_tile(norm + 1, n as int, size);
}

/// No two jobs of a round touch the same row of the matrix or the same entry
/// of the constants vector, and no job writes the pivot row, which every job
/// reads.
pub proof fn lemma_row_isolation(n: usize, norm: usize, strategy: Strategy, total_threads: usize)
    requires
        norm < n,
        total_threads >= 1,
    ensures
        forall|i: int, j: int, row: int|
            0 <= i < spec_round_jobs(n as int, norm as int, strategy, total_threads as int).len()
                && 0 <= j < spec_round_jobs(n as int, norm as int, strategy, total_threads as int).len()
                && i != j
                && in_job(spec_round_jobs(n as int, norm as int, strategy, total_threads as int)[i], row)
                ==> !in_job(spec_round_jobs(n as int, norm as int, strategy, total_threads as int)[j], row),
        forall|i: int|
            0 <= i < spec_round_jobs(n as int, norm as int, strategy, total_threads as int).len()
                ==> !in_job(
                spec_round_jobs(n as int, norm as int, strategy, total_threads as int)[i],
                norm as int,
            ),
{
    lemma_round_jobs_partition(n, norm, strategy, total_threads);
    let jobs = spec_round_jobs(n as int, norm as int, strategy, total_threads as int);
    assert forall|i: int, j: int, row: int|
        0 <= i < jobs.len() && 0 <= j < jobs.len() && i != j && in_job(jobs[i], row) implies !in_job(
        jobs[j],
        row,
    ) by {
        if i < j {
            assert(jobs[i].end <= jobs[j].start);
        } else {
            assert(jobs[j].end <= jobs[i].start);
        }
    }
}

/// Job counts per round: a per-row strategy issues one job for each of the
/// `n - norm - 1` rows below the pivot, the chunked strategy issues at most
/// `2 * total_threads` jobs, and the sequential strategy at most one.
pub proof fn lemma_job_count(n: usize, norm: usize, strategy: Strategy, total_threads: usize)
    requires
        norm < n,
        total_threads >= 1,
    ensures
        (strategy == Strategy::ThreadPerRow || strategy == Strategy::PooledPerRow || strategy
            == Strategy::CooperativeTasks) ==> spec_round_jobs(
            n as int,
            norm as int,
            strategy,
            total_threads as int,
        ).len() == n - norm - 1,
        strategy == Strategy::PooledChunked ==> spec_round_jobs(
            n as int,
            norm as int,
            strategy,
            total_threads as int,
        ).len() <= 2 * total_threads,
        strategy == Strategy::Sequential ==> spec_round_jobs(
            n as int,
            norm as int,
            strategy,
            total_threads as int,
        ).len() <= 1,
{
    let lo = norm + 1;
    let hi = n as int;
    let size = spec_job_size(n as int, norm as int, strategy, total_threads as int);
    let len = spec_round_jobs(n as int, norm as int, strategy, total_threads as int).len();
    lemma_chunks_len(lo, hi, size);
    if strategy == Strategy::PooledChunked && lo < hi {
        let rem = n - norm;
        let t = total_threads as int;
        let q = rem / t;
        assert(rem == t * q + rem % t && 0 <= rem % t < t) by (nonlinear_arith)
            requires
                t >= 1,
                q == rem / t,
        ;
        if len > 2 * t {
            assert((len - 1) * size >= 2 * t * size) by (nonlinear_arith)
                requires
                    len > 2 * t,
                    size >= 1,
            ;
            assert((len - 1) * size < rem - 1);
            if q < MIN_CHUNK_SIZE {
                assert(size == 16);
                assert(rem < 16 * t) by (nonlinear_arith)
                    requires
                        rem == t * q + rem % t,
                        rem % t < t,
                        q < 16,
                ;
                assert(2 * t * size == 32 * t) by (nonlinear_arith)
                    requires
                        size == 16,
                ;
            } else {
                assert(size == q);
                assert(rem <= 2 * t * q) by (nonlinear_arith)
                    requires
                        rem == t * q + rem % t,
                        rem % t < t,
                        q >= 16,
                ;
            }
        }
    }
    if strategy == Strategy::Sequential && lo < hi {
        assert((len - 1) * size < hi - lo);
        assert(size == hi - lo);
        assert(len <= 1) by (nonlinear_arith)
            requires
                (len - 1) * size < size,
                size >= 1,
        ;
    }
}

/// Hands out the rounds of forward elimination for an order `n` system, one
/// at a time: round `norm` runs for `norm` in `0..n - 1`, and the caller
/// waits for all jobs of a round before asking for the next.
pub struct RoundPlanner {
    n: usize,
    next_norm: usize,
    strategy: Strategy,
    total_threads: usize,
}

impl RoundPlanner {
    /// The order of the system.
    pub closed spec fn spec_order(&self) -> nat {
        self.n as nat
    }

    /// The round handed out next.
    pub closed spec fn spec_next_norm(&self) -> nat {
        self.next_norm as nat
    }

    /// The strategy the rounds are cut by.
    pub closed spec fn spec_strategy(&self) -> Strategy {
        self.strategy
    }

    /// The number of workers the chunked strategy divides among.
    pub closed spec fn spec_total_threads(&self) -> nat {
        self.total_threads as nat
    }

    /// At least one worker, and the rounds handed out so far lie within
    /// the system.
    pub open spec fn wf(&self) -> bool {
        &&& self.spec_total_threads() >= 1
        &&& self.spec_next_norm() <= self.spec_order() || self.spec_next_norm() == 0
    }

    /// Whether every round has been handed out.
    pub open spec fn spec_done(&self) -> bool {
        self.spec_next_norm() + 1 >= self.spec_order()
    }

    /// A planner that starts at round 0.
    pub fn new(n: usize, strategy: Strategy, total_threads: usize) -> (r: Self)
        requires
            total_threads >= 1,
        ensures
            r.wf(),
            r.spec_order() == n,
            r.spec_next_norm() == 0,
            r.spec_strategy() == strategy,
            r.spec_total_threads() == total_threads,
    {
        RoundPlanner { n, next_norm: 0, strategy, total_threads }
    }

    /// The next round and its jobs, or `None` once the last round (`n - 2`)
    /// has been handed out.
    pub fn next_round(&mut self) -> (r: Option<(usize, Vec<RowRange>)>)
        requires
            old(self).wf(),
        ensures
            final(self).wf(),
            final(self).spec_order() == old(self).spec_order(),
            final(self).spec_strategy() == old(self).spec_strategy(),
            final(self).spec_total_threads() == old(self).spec_total_threads(),
            old(self).spec_done() ==> r.is_none() && final(self).spec_next_norm() == old(
                self,
            ).spec_next_norm(),
            !old(self).spec_done() ==> r.is_some() && r.unwrap().0 == old(self).spec_next_norm()
                && r.unwrap().1@ == spec_round_jobs(
                old(self).spec_order() as int,
                old(self).spec_next_norm() as int,
                old(self).spec_strategy(),
                old(self).spec_total_threads() as int,
            ) && ascending_below(
                r.unwrap().1@,
                old(self).spec_next_norm() as int,
                old(self).spec_order() as int,
            ) && final(self).spec_next_norm() == old(self).spec_next_norm() + 1,
    {
        if self.n == 0 || self.next_norm >= self.n - 1 {
            None
        } else {
            let norm = self.next_norm;
            let jobs = round_jobs(self.n, norm, self.strategy, self.total_threads);
            self.next_norm = norm + 1;
            Some((norm, jobs))
        }
    }
}

/// The jobs lie below the pivot `norm` and inside `0..len`, each as a
/// (possibly empty) range, in ascending order without overlap.
pub open spec fn ascending_below(jobs: Seq<RowRange>, norm: int, len: int) -> bool {
    &&& forall|i: int|
        0 <= i < jobs.len() ==> norm < #[trigger] jobs[i].start <= jobs[i].end <= len
    &&& forall|i: int, j: int| 0 <= i < j < jobs.len() ==> #[trigger] jobs[i].end <= #[trigger] jobs[j].start
}

/// Runs the jobs of round `norm` one after another on the row units `rows`:
/// each row that a job holds is replaced by `update(norm, pivot, row)`,
/// computed from the unchanged pivot unit and its own old value; every other
/// row is kept.
pub fn run_round<R, F: Fn(usize, &R, &R) -> R>(
    rows: &mut Vec<R>,
    norm: usize,
    jobs: &Vec<RowRange>,
    update: &F,
)
    requires
        norm < old(rows)@.len(),
        ascending_below(jobs@, norm as int, old(rows)@.len() as int),
        forall|i: usize, p: &R, r: &R| #[trigger] update.requires((i, p, r)),
    ensures
        final(rows)@.len() == old(rows)@.len(),
        forall|row: int|
            0 <= row < old(rows)@.len() && #[trigger] covered(jobs@, row) ==> update.ensures(
                (norm, &old(rows)@[norm as int], &old(rows)@[row]),
                final(rows)@[row],
            ),
        forall|row: int|
            0 <= row < old(rows)@.len() && !#[trigger] covered(jobs@, row) ==> final(rows)@[row]
                == old(rows)@[row],
{
    let ghost start = rows@;
    let ghost len = rows@.len() as int;
    let mut k: usize = 0;
    while k < jobs.len()
        invariant
            norm < len,
            rows@.len() == len,
            start.len() == len,
            ascending_below(jobs@, norm as int, len),
            forall|i: usize, p: &R, r: &R| #[trigger] update.requires((i, p, r)),
            k <= jobs@.len(),
            forall|row: int|
                0 <= row < len && #[trigger] covered(jobs@.take(k as int), row) ==> update.ensures(
                    (norm, &start[norm as int], &start[row]),
                    rows@[row],
                ),
            forall|row: int|
                0 <= row < len && !#[trigger] covered(jobs@.take(k as int), row) ==> rows@[row]
                    == start[row],
        decreases jobs@.len() - k,
    {
        let job = jobs[k];
        let ghost before = rows@;
        proof {
            let done = jobs@.take(k as int);
            assert forall|row: int| covered(done, row) implies !in_job(job, row) && row != norm by {
                let i = choose|i: int| 0 <= i < done.len() && in_job(#[trigger] done[i], row);
                assert(jobs@[i].end <= jobs@[k as int].start);
            }
            assert(!covered(done, norm as int));
        }
        let mut r: usize = job.start;
        while r < job.end
            invariant
                norm < len,
                rows@.len() == len,
                start.len() == len,
                ascending_below(jobs@, norm as int, len),
                forall|i: usize, p: &R, r: &R| #[trigger] update.requires((i, p, r)),
                k < jobs@.len(),
                job == jobs@[k as int],
                job.start <= r <= job.end,
                before.len() == len,
                before[norm as int] == start[norm as int],
                forall|row: int| in_job(job, row) ==> #[trigger] before[row] == start[row],
                forall|row: int|
                    0 <= row < len && !(job.start <= row < r) ==> #[trigger] rows@[row]
                        == before[row],
                forall|row: int|
                    job.start <= row < r ==> update.ensures(
                        (norm, &start[norm as int], &start[row]),
                        #[trigger] rows@[row],
                    ),
            decreases job.end - r,
        {
            let value = update(norm, &rows[norm], &rows[r]);
            rows.set(r, value);
            r = r + 1;
            proof {
                assert forall|row: int| job.start <= row < r implies update.ensures(
                    (norm, &start[norm as int], &start[row]),
                    #[trigger] rows@[row],
                ) by {}
            }
        }
        proof {
            let done = jobs@.take(k as int);
            let next = jobs@.take(k + 1);
            assert forall|row: int| covered(next, row) <==> covered(done, row) || in_job(job, row) by {
                if covered(next, row) {
                    let i = choose|i: int| 0 <= i < next.len() && in_job(#[trigger] next[i], row);
                    if i < k {
                        assert(done[i] == next[i]);
                    }
                }
                if covered(done, row) {
                    let i = choose|i: int| 0 <= i < done.len() && in_job(#[trigger] done[i], row);
                    assert(next[i] == done[i]);
                }
                if in_job(job, row) {
                    assert(next[k as int] == job);
                }
            }
            assert forall|row: int| covered(done, row) implies !in_job(job, row) by {
                let i = choose|i: int| 0 <= i < done.len() && in_job(#[trigger] done[i], row);
                assert(jobs@[i].end <= jobs@[k as int].start);
            }
        }
        k = k + 1;
    }
    proof {
        assert(jobs@.take(k as int) =~= jobs@);
    }
}

/// One job of round `norm` applied to the system `m`, seen as a sequence of
/// row units (a row of the matrix with its entry of the constants vector):
/// each row unit of the job becomes `f(norm, m[norm], m[row])`, computed from
/// the pivot unit and its own value alone; the others are kept.
pub open spec fn apply_job<R>(m: Seq<R>, norm: int, job: RowRange, f: spec_fn(int, R, R) -> R) -> Seq<
    R,
> {
    Seq::new(m.len(), |row: int| if in_job(job, row) { f(norm, m[norm], m[row]) } else { m[row] })
}

/// The jobs of round `norm` applied one after another, in the order given.
pub open spec fn apply_jobs<R>(m: Seq<R>, norm: int, jobs: Seq<RowRange>, f: spec_fn(int, R, R) -> R) -> Seq<
    R,
>
    decreases jobs.len(),
{
    if jobs.len() == 0 {
        m
    } else {
        apply_jobs(apply_job(m, norm, jobs[0], f), norm, jobs.drop_first(), f)
    }
}

/// Round `norm` as the sequential kernel runs it: every row unit below the
/// pivot is updated against the pivot unit.
pub open spec fn round_result<R>(m: Seq<R>, norm: int, f: spec_fn(int, R, R) -> R) -> Seq<R> {
    Seq::new(m.len(), |row: int| if norm < row { f(norm, m[norm], m[row]) } else { m[row] })
}

/// The first `k` rounds of forward elimination as the sequential kernel runs
/// them.
pub open spec fn eliminate<R>(m: Seq<R>, k: nat, f: spec_fn(int, R, R) -> R) -> Seq<R>
    decreases k,
{
    if k == 0 {
        m
    } else {
        round_result(eliminate(m, (k - 1) as nat, f), k - 1, f)
    }
}

/// The first `k` rounds of forward elimination, each run as the jobs that
/// `strategy` makes of it.
pub open spec fn eliminate_with<R>(
    m: Seq<R>,
    k: nat,
    strategy: Strategy,
    total_threads: int,
    f: spec_fn(int, R, R) -> R,
) -> Seq<R>
    decreases k,
{
    if k == 0 {
        m
    } else {
        let prev = eliminate_with(m, (k - 1) as nat, strategy, total_threads, f);
        apply_jobs(
            prev,
            k - 1,
            spec_round_jobs(m.len() as int, k - 1, strategy, total_threads),
            f,
        )
    }
}

/// Jobs that share no row and leave the pivot alone update exactly the rows
/// that they cover, each once, against the unchanged pivot unit.
proof fn lemma_apply_disjoint<R>(m: Seq<R>, norm: int, jobs: Seq<RowRange>, f: spec_fn(int, R, R) -> R)
    requires
        0 <= norm < m.len(),
        !covered(jobs, norm),
        forall|i: int, j: int, row: int|
            0 <= i < jobs.len() && 0 <= j < jobs.len() && i != j && in_job(jobs[i], row) ==> !in_job(
                jobs[j],
                row,
            ),
    ensures
        apply_jobs(m, norm, jobs, f) == Seq::new(
            m.len(),
            |row: int| if covered(jobs, row) { f(norm, m[norm], m[row]) } else { m[row] },
        ),
    decreases jobs.len(),
{
    let target = Seq::new(
        m.len(),
        |row: int| if covered(jobs, row) { f(norm, m[norm], m[row]) } else { m[row] },
    );
    if jobs.len() == 0 {
        assert(apply_jobs(m, norm, jobs, f) =~= target);
    } else {
        let m1 = apply_job(m, norm, jobs[0], f);
        let rest = jobs.drop_first();
        assert forall|i: int| 0 <= i < rest.len() implies rest[i] == jobs[i + 1] by {}
        assert(!covered(rest, norm)) by {
            if covered(rest, norm) {
                let k = choose|k: int| 0 <= k < rest.len() && in_job(#[trigger] rest[k], norm);
                assert(in_job(jobs[k + 1], norm));
            }
        }
        assert(!in_job(jobs[0], norm));
        lemma_apply_disjoint(m1, norm, rest, f);
        let got = apply_jobs(m, norm, jobs, f);
        assert forall|row: int| 0 <= row < m.len() implies got[row] == target[row] by {
            if in_job(jobs[0], row) {
                assert(covered(jobs, row));
                if covered(rest, row) {
                    let k = choose|k: int| 0 <= k < rest.len() && in_job(#[trigger] rest[k], row);
                    assert(in_job(jobs[k + 1], row));
                }
            } else if covered(rest, row) {
                let k = choose|k: int| 0 <= k < rest.len() && in_job(#[trigger] rest[k], row);
                assert(in_job(jobs[k + 1], row));
                assert(covered(jobs, row));
            } else {
                if covered(jobs, row) {
                    let k = choose|k: int| 0 <= k < jobs.len() && in_job(#[trigger] jobs[k], row);
                    if k > 0 {
                        assert(in_job(rest[k - 1], row));
                    }
                }
            }
        }
        assert(got =~= target);
    }
}

/// A round may be cut into any jobs that share no row and together hold
/// exactly the rows below the pivot: run one after another in any order, they
/// leave the system as the sequential round does.
pub proof fn lemma_round_any_partition<R>(
    m: Seq<R>,
    norm: int,
    jobs: Seq<RowRange>,
    f: spec_fn(int, R, R) -> R,
)
    requires
        0 <= norm < m.len(),
        forall|row: int| norm < row < m.len() <==> #[trigger] covered(jobs, row),
        forall|i: int, j: int, row: int|
            0 <= i < jobs.len() && 0 <= j < jobs.len() && i != j && in_job(jobs[i], row) ==> !in_job(
                jobs[j],
                row,
            ),
    ensures
        apply_jobs(m, norm, jobs, f) == round_result(m, norm, f),
{
    assert(!covered(jobs, norm));
    lemma_apply_disjoint(m, norm, jobs, f);
    assert(apply_jobs(m, norm, jobs, f) =~= round_result(m, norm, f));
}

/// Every strategy, with any number of workers, leaves the system exactly as
/// the sequential kernel does after any number of rounds up to the last, so
/// all strategies agree with one another and the back substitution that
/// follows yields the same solution.
pub proof fn lemma_strategies_agree<R>(
    m: Seq<R>,
    k: nat,
    strategy: Strategy,
    other: Strategy,
    total_threads: usize,
    f: spec_fn(int, R, R) -> R,
)
    requires
        m.len() <= usize::MAX,
        k < m.len(),
        total_threads >= 1,
    ensures
        eliminate_with(m, k, strategy, total_threads as int, f) == eliminate(m, k, f),
        eliminate_with(m, k, strategy, total_threads as int, f) == eliminate_with(
            m,
            k,
            other,
            total_threads as int,
            f,
        ),
        eliminate(m, k, f).len() == m.len(),
    decreases k,
{
    if k > 0 {
        let j = (k - 1) as nat;
        lemma_strategies_agree(m, j, strategy, other, total_threads, f);
        lemma_strategies_agree(m, j, other, strategy, total_threads, f);
        let n = m.len() as usize;
        let norm = j as usize;
        let prev = eliminate(m, j, f);
        lemma_round_jobs_partition(n, norm, strategy, total_threads);
        lemma_row_isolation(n, norm, strategy, total_threads);
        lemma_round_any_partition(prev, j as int, spec_round_jobs(n as int, j as int, strategy, total_threads as int), f);
        lemma_round_jobs_partition(n, norm, other, total_threads);
        lemma_row_isolation(n, norm, other, total_threads);
        lemma_round_any_partition(prev, j as int, spec_round_jobs(n as int, j as int, other, total_threads as int), f);
    }
}

} // verus!
