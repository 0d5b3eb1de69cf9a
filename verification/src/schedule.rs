use vstd::prelude::*;

use crate::kind::BenchKind;

verus! {

/// One step of a benchmark.
#[derive(Debug, Clone, Copy, PartialEq, Eq, Structural)]
pub enum BenchStep {
    /// An untimed iteration, run with whatever the page cache holds.
    Warmup,
    /// Evict the input file from the page cache.
    DropCache,
    /// A timed iteration.
    Measure,
}

/// The steps of `n` timed iterations, each preceded by a cache drop when `cold`.
pub open spec fn measured_steps(n: nat, cold: bool) -> Seq<BenchStep>
    decreases n,
{
    if n == 0 {
        Seq::empty()
    } else {
        measured_steps((n - 1) as nat, cold) + if cold {
            seq![BenchStep::DropCache, BenchStep::Measure]
        } else {
            seq![BenchStep::Measure]
        }
    }
}

/// The steps of a benchmark: `w` warmups, then `n` timed iterations.
pub open spec fn bench_steps(w: nat, n: nat, cold: bool) -> Seq<BenchStep> {
    Seq::new(w, |_i: int| BenchStep::Warmup) + measured_steps(n, cold)
}

/// Number of steps that one timed iteration takes.
pub open spec fn steps_per_measure(cold: bool) -> int {
    if cold {
        2
    } else {
        1
    }
}

/// The steps of a benchmark: `warmup` untimed iterations, then `iterations`
/// timed ones, each preceded by a page-cache drop when `cold_cache` is set.
pub fn bench_schedule(warmup: usize, iterations: usize, cold_cache: bool) -> (r: Vec<BenchStep>)
    requires
        warmup + 2 * iterations <= usize::MAX,
    ensures
        r@ == bench_steps(warmup as nat, iterations as nat, cold_cache),
{
    let mut r: Vec<BenchStep> = Vec::new();
    let mut i: usize = 0;
    while i < warmup
        invariant
            i <= warmup,
            r@ == Seq::new(i as nat, |_i: int| BenchStep::Warmup),
        decreases warmup - i,
    {
        r.push(BenchStep::Warmup);
        i = i + 1;
        assert(r@ =~= Seq::new(i as nat, |_i: int| BenchStep::Warmup));
    }
    let ghost head = r@;
    let mut j: usize = 0;
    while j < iterations
        invariant
            j <= iterations,
            head == Seq::new(warmup as nat, |_i: int| BenchStep::Warmup),
            r@ == head + measured_steps(j as nat, cold_cache),
        decreases iterations - j,
    {
        if cold_cache {
            r.push(BenchStep::DropCache);
        }
        r.push(BenchStep::Measure);
        j = j + 1;
        assert(r@ =~= head + measured_steps(j as nat, cold_cache));
    }
    r
}

proof fn lemma_measured_steps(n: nat, cold: bool)
    ensures
        measured_steps(n, cold).len() == n * steps_per_measure(cold),
        forall|k: int|
            0 <= k < measured_steps(n, cold).len() ==> #[trigger] measured_steps(n, cold)[k] == if cold
                && k % 2 == 0 {
                BenchStep::DropCache
            } else {
                BenchStep::Measure
            },
    decreases n,
{
    if n > 0 {
        let prev = measured_steps((n - 1) as nat, cold);
        lemma_measured_steps((n - 1) as nat, cold);
        assert(n * steps_per_measure(cold) == (n - 1) * steps_per_measure(cold) + steps_per_measure(
            cold,
        )) by (nonlinear_arith);
        let s = measured_steps(n, cold);
        assert forall|k: int| 0 <= k < s.len() implies #[trigger] s[k] == if cold && k % 2 == 0 {
            BenchStep::DropCache
        } else {
            BenchStep::Measure
        } by {
            if k >= prev.len() && cold {
                assert(prev.len() % 2 == 0) by {
                    assert(prev.len() == (n - 1) * 2);
                }
            }
        }
    }
}

/// Warmups run warm: a benchmark first runs all its warmups, with no cache
/// drop among them; then, when the cache is to be cold, every timed iteration
/// directly follows a cache drop; otherwise only timed iterations follow.
pub proof fn lemma_bench_steps_shape(w: nat, n: nat, cold: bool)
    ensures
        ({
            let s = bench_steps(w, n, cold);
            &&& s.len() == w + n * steps_per_measure(cold)
            &&& forall|k: int| 0 <= k < s.len() ==> (#[trigger] s[k] == BenchStep::Warmup <==> k < w)
            &&& forall|k: int|
                w <= k < s.len() ==> #[trigger] s[k] == if cold && (k - w) % 2 == 0 {
                    BenchStep::DropCache
                } else {
                    BenchStep::Measure
                }
        }),
{
    lemma_measured_steps(n, cold);
    let s = bench_steps(w, n, cold);
    let m = measured_steps(n, cold);
    assert forall|k: int| w <= k < s.len() implies #[trigger] s[k] == if cold && (k - w) % 2 == 0 {
        BenchStep::DropCache
    } else {
        BenchStep::Measure
    } by {
        assert(s[k] == m[k - w]);
    }
    assert forall|k: int| 0 <= k < s.len() implies (#[trigger] s[k] == BenchStep::Warmup <==> k < w) by {
        if k >= w {
            assert(s[k] == m[k - w]);
        }
    }
}

/// Whether a benchmark of `kind` drops the page cache: only reads do, and only
/// when a cold cache is asked for.
pub open spec fn drops_cache(kind: BenchKind, cold_cache: bool) -> bool {
    cold_cache && (kind == BenchKind::Read || kind == BenchKind::StreamedRead)
}

/// The steps of a benchmark of `kind`: reads drop the page cache before each
/// timed iteration when `cold_cache` is set; writes never do.
pub fn kind_schedule(kind: BenchKind, warmup: usize, iterations: usize, cold_cache: bool) -> (r: Vec<
    BenchStep,
>)
    requires
        warmup + 2 * iterations <= usize::MAX,
    ensures
        r@ == bench_steps(warmup as nat, iterations as nat, drops_cache(kind, cold_cache)),
        r@.contains(BenchStep::DropCache) <==> (cold_cache && iterations > 0 && (kind
            == BenchKind::Read || kind == BenchKind::StreamedRead)),
{
    let cold = cold_cache && (kind == BenchKind::Read || kind == BenchKind::StreamedRead);
    proof {
        lemma_cache_drops(kind, warmup as nat, iterations as nat, cold_cache);
    }
    bench_schedule(warmup, iterations, cold)
}

/// When the page cache is dropped: a benchmark's steps hold a cache drop
/// exactly when a cold cache is asked for, the benchmark reads (in bulk or
/// streamed) and it has timed iterations. Without a cold cache no benchmark
/// drops it, and writes never do.
pub proof fn lemma_cache_drops(kind: BenchKind, w: nat, n: nat, cold_cache: bool)
    ensures
        bench_steps(w, n, drops_cache(kind, cold_cache)).contains(BenchStep::DropCache) <==> (
        cold_cache && n > 0 && (kind == BenchKind::Read || kind == BenchKind::StreamedRead)),
{
    let cold = drops_cache(kind, cold_cache);
    let s = bench_steps(w, n, cold);
    lemma_bench_steps_shape(w, n, cold);
    if cold && n > 0 {
        assert(s[w as int] == BenchStep::DropCache);
    }
    if s.contains(BenchStep::DropCache) {
        let k = choose|k: int| 0 <= k < s.len() && s[k] == BenchStep::DropCache;
        assert(s[k] == BenchStep::DropCache);
    }
}

/// Write benchmarks never drop the page cache, whatever is asked for.
pub proof fn lemma_writes_stay_warm(kind: BenchKind, w: nat, n: nat, cold_cache: bool)
    requires
        kind == BenchKind::Write || kind == BenchKind::StreamedWrite,
    ensures
        forall|k: int|
            0 <= k < bench_steps(w, n, drops_cache(kind, cold_cache)).len() ==> #[trigger] bench_steps(
                w,
                n,
                drops_cache(kind, cold_cache),
            )[k] != BenchStep::DropCache,
{
    lemma_bench_steps_shape(w, n, drops_cache(kind, cold_cache));
}

} // verus!
