use vstd::prelude::*;

verus! {

/// Hard cap on the number of worker threads.
pub const MAX_THREADS: usize = 20;

/// Minimum number of bodies handed to one worker thread.
pub const OBJECTS_PER_THREAD: usize = 2000;

/// Above this many bodies the Barnes-Hut evaluator is used instead of the direct one.
pub const BARNES_HUT_CUTOFF: usize = 1000;

/// `ceil(a / b)` over the naturals.
pub open spec fn ceil_div(a: nat, b: nat) -> nat
    recommends
        b > 0,
{
    if a % b == 0 {
        a / b
    } else {
        a / b + 1
    }
}

pub open spec fn min_nat(a: nat, b: nat) -> nat {
    if a <= b {
        a
    } else {
        b
    }
}

/// `ceil(a / b)` for machine integers.
pub fn div_ceil(a: usize, b: usize) -> (r: usize)
    requires
        b > 0,
    ensures
        r == ceil_div(a as nat, b as nat),
{
    proof {
        lemma_ceil_div_facts(a as nat, b as nat);
    }
    if a % b == 0 {
        a / b
    } else {
        a / b + 1
    }
}

proof fn lemma_ceil_div_facts(a: nat, b: nat)
    requires
        b > 0,
    ensures
        ceil_div(a, b) * b >= a,
        ceil_div(a, b) * b < a + b,
        a > 0 ==> ceil_div(a, b) > 0,
        ceil_div(a, b) <= a,
{
    let q = a / b;
    let r = a % b;
    assert(a == q * b + r) by (nonlinear_arith)
        requires
            b > 0,
            q == a / b,
            r == a % b,
    ;
    assert(0 <= r < b);
    if r == 0 {
        assert(ceil_div(a, b) == q);
        assert(q <= a) by (nonlinear_arith)
            requires
                a == q * b,
                b > 0,
                q >= 0,
        ;
        assert(a > 0 ==> q > 0) by (nonlinear_arith)
            requires
                a == q * b,
                q >= 0,
        ;
    } else {
        assert(ceil_div(a, b) == q + 1);
        assert((q + 1) * b == q * b + b) by (nonlinear_arith);
        assert(q + 1 <= a) by (nonlinear_arith)
            requires
                a == q * b + r,
                b >= 1,
                r >= 1,
                q >= 0,
        ;
    }
}

/// The knobs of the parallel solver: thread bounds, the per-thread body
/// count, and the body count above which Barnes-Hut replaces direct summation.
#[derive(Debug, Clone, Copy, PartialEq, Eq, Structural)]
pub struct SolverConfig {
    pub max_threads: usize,
    pub objects_per_thread: usize,
    pub barnes_hut_cutoff: usize,
}

impl SolverConfig {
    pub open spec fn valid(&self) -> bool {
        self.max_threads > 0 && self.objects_per_thread > 0
    }

    pub open spec fn target_threads_spec(&self, n_objects: nat) -> nat {
        min_nat(ceil_div(n_objects, self.objects_per_thread as nat), self.max_threads as nat)
    }

    /// The built-in configuration.
    pub fn standard() -> (c: SolverConfig)
        ensures
            c.valid(),
            c.max_threads == MAX_THREADS,
            c.objects_per_thread == OBJECTS_PER_THREAD,
            c.barnes_hut_cutoff == BARNES_HUT_CUTOFF,
    {
        SolverConfig {
            max_threads: MAX_THREADS,
            objects_per_thread: OBJECTS_PER_THREAD,
            barnes_hut_cutoff: BARNES_HUT_CUTOFF,
        }
    }

    /// Number of worker threads for `n_objects` bodies:
    /// `min(max_threads, ceil(n_objects / objects_per_thread))`.
    pub fn target_threads(&self, n_objects: usize) -> (t: usize)
        requires
            self.valid(),
            n_objects > 0,
        ensures
            t == self.target_threads_spec(n_objects as nat),
            1 <= t <= self.max_threads,
            t <= n_objects,
    {
        proof {
            lemma_ceil_div_facts(n_objects as nat, self.objects_per_thread as nat);
        }
        let c = div_ceil(n_objects, self.objects_per_thread);
        if c <= self.max_threads {
            c
        } else {
            self.max_threads
        }
    }

    /// Whether `n_objects` bodies are handed to the Barnes-Hut evaluator.
    pub fn use_barnes_hut(&self, n_objects: usize) -> (r: bool)
        ensures
            r == (n_objects > self.barnes_hut_cutoff),
    {
        n_objects > self.barnes_hut_cutoff
    }
}

/// Thread count under the built-in limits.
pub fn compute_target_threads(n_objects: usize) -> (t: usize)
    requires
        n_objects > 0,
    ensures
        t == min_nat(ceil_div(n_objects as nat, OBJECTS_PER_THREAD as nat), MAX_THREADS as nat),
        1 <= t <= MAX_THREADS,
{
    SolverConfig::standard().target_threads(n_objects)
}

/// A split of the index range `0..len` into contiguous chunks of
/// `per_thread` indices (the last one possibly shorter), one per task.
#[derive(Debug, Clone, Copy, PartialEq, Eq, Structural)]
pub struct WorkPlan {
    pub len: usize,
    pub per_thread: usize,
}

impl WorkPlan {
    pub open spec fn wf(&self) -> bool {
        self.len > 0 && self.per_thread > 0
    }

    pub open spec fn num_chunks_spec(&self) -> nat {
        ceil_div(self.len as nat, self.per_thread as nat)
    }

    pub open spec fn chunk_start(&self, k: int) -> int {
        k * self.per_thread
    }

    pub open spec fn chunk_end(&self, k: int) -> int {
        if (k + 1) * self.per_thread <= self.len {
            (k + 1) * self.per_thread
        } else {
            self.len as int
        }
    }

    /// Index `i` falls in chunk `k`.
    pub open spec fn in_chunk(&self, k: int, i: int) -> bool {
        self.chunk_start(k) <= i < self.chunk_end(k)
    }

    /// Splits `len` indices for `n_threads` workers, `ceil(len / n_threads)` per chunk.
    pub fn new(len: usize, n_threads: usize) -> (p: WorkPlan)
        requires
            len > 0,
            n_threads > 0,
        ensures
            p.wf(),
            p.len == len,
            p.per_thread == ceil_div(len as nat, n_threads as nat),
            p.num_chunks_spec() <= n_threads,
    {
        proof {
            lemma_ceil_div_facts(len as nat, n_threads as nat);
        }
        let per_thread = div_ceil(len, n_threads);
        let p = WorkPlan { len, per_thread };
        proof {
            lemma_ceil_div_facts(len as nat, per_thread as nat);
            let c = p.num_chunks_spec();
            let t = n_threads as nat;
            let pt = per_thread as nat;
            let l = len as nat;
            // c * pt < l + pt <= t * pt + pt, hence c < t + 1.
            assert(c <= t) by (nonlinear_arith)
                requires
                    c * pt < l + pt,
                    pt * t >= l,
                    pt > 0,
            ;
        }
        p
    }

    /// Number of chunks, `ceil(len / per_thread)`.
    pub fn num_chunks(&self) -> (c: usize)
        requires
            self.wf(),
        ensures
            c == self.num_chunks_spec(),
            c >= 1,
    {
        proof {
            lemma_ceil_div_facts(self.len as nat, self.per_thread as nat);
        }
        div_ceil(self.len, self.per_thread)
    }

    /// Bounds `(start, end)` of chunk `k`.
    pub fn chunk(&self, k: usize) -> (r: (usize, usize))
        requires
            self.wf(),
            k < self.num_chunks_spec(),
        ensures
            r.0 == self.chunk_start(k as int),
            r.1 == self.chunk_end(k as int),
            r.0 < r.1 <= self.len,
    {
        proof {
            self.lemma_chunk_bounds(k as int);
        }
        let start = k * self.per_thread;
        let end = if self.len - start >= self.per_thread {
            start + self.per_thread
        } else {
            self.len
        };
        (start, end)
    }

    proof fn lemma_chunk_bounds(&self, k: int)
        requires
            self.wf(),
            0 <= k < self.num_chunks_spec(),
        ensures
            0 <= self.chunk_start(k) < self.len,
            self.chunk_start(k) < self.chunk_end(k) <= self.len,
            (k + 1) * self.per_thread == self.chunk_start(k) + self.per_thread,
    {
        lemma_ceil_div_facts(self.len as nat, self.per_thread as nat);
        let p = self.per_thread as int;
        let l = self.len as int;
        let c = self.num_chunks_spec() as int;
        assert((k + 1) * p == k * p + p) by (nonlinear_arith);
        assert(c * p <= l + p - 1);
        assert((k + 1) * p <= c * p) by (nonlinear_arith)
            requires
                k + 1 <= c,
                p > 0,
        ;
        assert(k * p < l) by (nonlinear_arith)
            requires
                0 <= k < c,
                c * p < l + p,
                p > 0,
                k + 1 <= c,
                (k + 1) * p == k * p + p,
        ;
        assert(0 <= k * p) by (nonlinear_arith)
            requires
                0 <= k,
                p > 0,
        ;
        assert((k + 1) * p == k * p + p) by (nonlinear_arith);
    }

    /// Every index of `0..len` lies in exactly one chunk, namely chunk `i / per_thread`.
    pub proof fn lemma_chunks_partition(&self, i: int)
        requires
            self.wf(),
            0 <= i < self.len,
        ensures
            0 <= i / (self.per_thread as int) < self.num_chunks_spec(),
            self.in_chunk(i / (self.per_thread as int), i),
            forall|k: int|
                0 <= k < self.num_chunks_spec() && #[trigger] self.in_chunk(k, i) ==> k == i
                    / (self.per_thread as int),
    {
        lemma_ceil_div_facts(self.len as nat, self.per_thread as nat);
        let p = self.per_thread as int;
        let q = i / p;
        let l = self.len as int;
        let c = self.num_chunks_spec() as int;
        assert(q * p <= i < q * p + p) by (nonlinear_arith)
            requires
                p > 0,
                q == i / p,
                i >= 0,
        ;
        assert(0 <= q) by (nonlinear_arith)
            requires
                p > 0,
                q == i / p,
                i >= 0,
        ;
        assert(q < c) by (nonlinear_arith)
            requires
                q * p <= i,
                i < l,
                c * p >= l,
                p > 0,
        ;
        assert((q + 1) * p == q * p + p) by (nonlinear_arith);
        assert forall|k: int|
            0 <= k < self.num_chunks_spec() && #[trigger] self.in_chunk(k, i) implies k == q by {
            assert((k + 1) * p == k * p + p) by (nonlinear_arith);
            assert(k * p <= i < k * p + p);
            if k < q {
                assert(k * p + p <= q * p) by (nonlinear_arith)
                    requires
                        k + 1 <= q,
                        p > 0,
                ;
            }
            if k > q {
                assert(q * p + p <= k * p) by (nonlinear_arith)
                    requires
                        q + 1 <= k,
                        p > 0,
                ;
            }
        }
    }

    /// The chunks follow one another without gap: the first starts at `0`,
    /// each ends where the next starts, and the last ends at `len`.
    pub proof fn lemma_chunks_contiguous(&self)
        requires
            self.wf(),
        ensures
            self.chunk_start(0) == 0,
            forall|k: int|
                0 <= k < self.num_chunks_spec() - 1 ==> #[trigger] self.chunk_end(k)
                    == self.chunk_start(k + 1),
            self.chunk_end(self.num_chunks_spec() - 1) == self.len,
    {
        lemma_ceil_div_facts(self.len as nat, self.per_thread as nat);
        let p = self.per_thread as int;
        let l = self.len as int;
        let c = self.num_chunks_spec() as int;
        assert forall|k: int| 0 <= k < c - 1 implies #[trigger] self.chunk_end(k)
            == self.chunk_start(k + 1) by {
            assert((k + 2) * p == (k + 1) * p + p) by (nonlinear_arith);
            self.lemma_chunk_bounds(k + 1);
        }
        assert((c - 1) * p < l) by {
            self.lemma_chunk_bounds(c - 1);
        }
        assert(c * p >= l);
    }

    /// All chunk bounds, in order.
    pub fn chunks(&self) -> (r: Vec<(usize, usize)>)
        requires
            self.wf(),
        ensures
            r@.len() == self.num_chunks_spec(),
            forall|k: int|
                0 <= k < r@.len() ==> #[trigger] r@[k] == (
                    self.chunk_start(k) as usize,
                    self.chunk_end(k) as usize,
                ),
    {
        let n = self.num_chunks();
        let mut r: Vec<(usize, usize)> = Vec::new();
        let mut k: usize = 0;
        while k < n
            invariant
                self.wf(),
                n == self.num_chunks_spec(),
                k <= n,
                r@.len() == k,
                forall|j: int|
                    0 <= j < k ==> #[trigger] r@[j] == (
                        self.chunk_start(j) as usize,
                        self.chunk_end(j) as usize,
                    ),
            decreases n - k,
        {
            let c = self.chunk(k);
            r.push(c);
            k = k + 1;
        }
        r
    }

    /// Split point of the chunk range `lo..hi` for a balanced binary fan-out:
    /// both halves are non-empty and differ in size by at most one.
    pub fn midpoint(lo: usize, hi: usize) -> (m: usize)
        requires
            lo + 1 < hi,
        ensures
            lo < m < hi,
            m == lo + (hi - lo) / 2,
    {
        lo + (hi - lo) / 2
    }
}

} // verus!
