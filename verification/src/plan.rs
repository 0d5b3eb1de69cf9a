use vstd::prelude::*;

use crate::kind::BenchKind;
use vstd::arithmetic::div_mod::lemma_fundamental_div_mod_converse;

verus! {

/// Settings of one benchmark: one library, one operation, one sample type and
/// channel count.
#[derive(Debug, Clone)]
pub struct BenchConfig {
    pub iterations: usize,
    pub warmup_iterations: usize,
    /// Length of the test signal, in whole seconds.
    pub signal_duration_secs: u64,
    pub signal_dtype: String,
    pub chunk_size: usize,
    pub channels: u32,
    /// Drop the page cache before each measured read iteration (Linux only).
    pub cold_cache: bool,
}

/// Number of benchmarks run per sample type and channel count for a kind: the
/// two libraries, and for reads also the memory-mapped baseline.
pub open spec fn runs_per_pair(kind: BenchKind) -> int {
    if kind == BenchKind::Read {
        3
    } else {
        2
    }
}

/// Number of benchmarks run for the first `g` kinds, with `pairs` sample-type
/// and channel combinations each.
pub open spec fn steps_before(kinds: Seq<BenchKind>, g: int, pairs: int) -> int
    decreases g,
{
    if g <= 0 {
        0
    } else {
        steps_before(kinds, g - 1, pairs) + pairs * runs_per_pair(kinds[g - 1])
    }
}

/// The total that progress lines announce: two benchmarks per kind and
/// combination, plus one baseline per combination when reads are measured.
pub open spec fn announced_total(kinds: Seq<BenchKind>, pairs: int) -> int {
    kinds.len() * pairs * 2 + if kinds.contains(BenchKind::Read) {
        pairs
    } else {
        0
    }
}

/// The planned benchmarks of one sample type and channel count.
#[derive(Debug)]
pub struct PairPlan {
    pub config: BenchConfig,
    /// Progress number of the benchmark of the first library.
    pub hound_step: usize,
    /// Progress number of the benchmark of the second library.
    pub aus_step: usize,
    /// Progress number of the memory-mapped baseline, planned for reads only.
    pub mmap_step: Option<usize>,
}

/// The planned benchmarks of one kind.
#[derive(Debug)]
pub struct GroupPlan {
    pub kind: BenchKind,
    pub pairs: Vec<PairPlan>,
}

/// The planned benchmarks of a whole run, and the total that progress lines announce.
#[derive(Debug)]
pub struct SuitePlan {
    pub groups: Vec<GroupPlan>,
    pub total: usize,
}

/// `p` plans the benchmarks of `kind` for `dtype` and `ch`, numbered from `first`.
pub open spec fn pair_planned(
    p: PairPlan,
    kind: BenchKind,
    first: int,
    dtype: Seq<char>,
    ch: u32,
    iterations: usize,
    warmup: usize,
    duration_secs: u64,
    chunk_size: usize,
    cold_cache: bool,
) -> bool {
    &&& p.config.iterations == iterations
    &&& p.config.warmup_iterations == warmup
    &&& p.config.signal_duration_secs == duration_secs
    &&& p.config.signal_dtype@ == dtype
    &&& p.config.chunk_size == chunk_size
    &&& p.config.channels == ch
    &&& p.config.cold_cache == cold_cache
    &&& p.hound_step == first
    &&& p.aus_step == first + 1
    &&& p.mmap_step == if kind == BenchKind::Read {
        Some((first + 2) as usize)
    } else {
        None
    }
}

/// Every planned benchmark runs with the run's own settings, whatever its
/// kind: the cold-cache flag, the iteration and warmup counts, the signal
/// length and the chunk size are those given for the run, and the sample type
/// and channel count are those of its combination.
pub proof fn lemma_planned_settings(
    p: PairPlan,
    kind: BenchKind,
    first: int,
    dtype: Seq<char>,
    ch: u32,
    iterations: usize,
    warmup: usize,
    duration_secs: u64,
    chunk_size: usize,
    cold_cache: bool,
)
    requires
        pair_planned(
            p,
            kind,
            first,
            dtype,
            ch,
            iterations,
            warmup,
            duration_secs,
            chunk_size,
            cold_cache,
        ),
    ensures
        p.config.cold_cache == cold_cache,
        p.config.iterations == iterations,
        p.config.warmup_iterations == warmup,
        p.config.signal_duration_secs == duration_secs,
        p.config.chunk_size == chunk_size,
        p.config.signal_dtype@ == dtype,
        p.config.channels == ch,
        p.aus_step == p.hound_step + 1,
        kind == BenchKind::Read <==> p.mmap_step == Some((p.hound_step + 2) as usize),
        kind != BenchKind::Read <==> p.mmap_step is None,
{
}

proof fn lemma_steps_before_bounds(kinds: Seq<BenchKind>, g: int, h: int, pairs: int)
    requires
        0 <= g <= h,
        pairs >= 0,
    ensures
        2 * g * pairs <= steps_before(kinds, g, pairs) <= 3 * g * pairs,
        steps_before(kinds, g, pairs) <= steps_before(kinds, h, pairs),
    decreases h,
{
    if h > g {
        lemma_steps_before_bounds(kinds, g, h - 1, pairs);
    } else if g > 0 {
        lemma_steps_before_bounds(kinds, g - 1, g - 1, pairs);
        assert(2 * g * pairs == 2 * (g - 1) * pairs + 2 * pairs) by (nonlinear_arith);
        assert(3 * g * pairs == 3 * (g - 1) * pairs + 3 * pairs) by (nonlinear_arith);
    }
}

/// Whether `kinds` lists reads.
fn lists_read(kinds: &[BenchKind]) -> (r: bool)
    ensures
        r == kinds@.contains(BenchKind::Read),
{
    let mut i: usize = 0;
    while i < kinds.len()
        invariant
            i <= kinds@.len(),
            forall|k: int| 0 <= k < i ==> kinds@[k] != BenchKind::Read,
        decreases kinds@.len() - i,
    {
        if kinds[i] == BenchKind::Read {
            assert(kinds@[i as int] == BenchKind::Read);
            return true;
        }
        i = i + 1;
    }
    false
}

/// Lays out a run: for each kind in order, one group; in it, for each sample
/// type and then each channel count, the benchmarks of both libraries and, for
/// reads, the memory-mapped baseline, numbered one after another from 1. The
/// announced total counts reads once, whatever number of times they are listed.
pub fn plan_suite(
    dtypes: &[String],
    channels: &[u32],
    kinds: &[BenchKind],
    iterations: usize,
    warmup: usize,
    duration_secs: u64,
    chunk_size: usize,
    cold_cache: bool,
) -> (plan: SuitePlan)
    requires
        kinds@.len() * (dtypes@.len() * channels@.len()) * 3 <= usize::MAX,
    ensures
        plan.total == announced_total(kinds@, (dtypes@.len() * channels@.len()) as int),
        plan.groups@.len() == kinds@.len(),
        forall|g: int|
            0 <= g < kinds@.len() ==> {
                &&& (#[trigger] plan.groups@[g]).kind == kinds@[g]
                &&& plan.groups@[g].pairs@.len() == dtypes@.len() * channels@.len()
                &&& forall|q: int|
                    0 <= q < dtypes@.len() * channels@.len() ==> pair_planned(
                        #[trigger] plan.groups@[g].pairs@[q],
                        kinds@[g],
                        steps_before(kinds@, g, (dtypes@.len() * channels@.len()) as int) + q
                            * runs_per_pair(kinds@[g]) + 1,
                        dtypes@[q / channels@.len() as int]@,
                        channels@[q % channels@.len() as int],
                        iterations,
                        warmup,
                        duration_secs,
                        chunk_size,
                        cold_cache,
                    )
            },
        forall|g: int, q: int|
            0 <= g < kinds@.len() && 0 <= q < dtypes@.len() * channels@.len() ==> {
                let c = (#[trigger] plan.groups@[g].pairs@[q]).config;
                &&& c.cold_cache == cold_cache
                &&& c.iterations == iterations
                &&& c.warmup_iterations == warmup
                &&& c.signal_duration_secs == duration_secs
                &&& c.chunk_size == chunk_size
            },
{
    let dn = dtypes.len();
    let cn = channels.len();
    let ghost kn = kinds@.len() as int;
    proof {
        assert(dn * cn <= kinds@.len() * (dn * cn) * 3 || kn == 0) by (nonlinear_arith)
            requires
                kn == kinds@.len(),
        ;
        if kn == 0 {
            assert(kinds@.len() * (dn * cn) * 3 == 0);
        }
        assert(kinds@.len() * (dn * cn) * 2 <= kinds@.len() * (dn * cn) * 3) by (nonlinear_arith);
    }
    let has_read = lists_read(kinds);
    let total: usize = if kinds.len() == 0 {
        0
    } else {
        let pn = dn * cn;
        let mmap_count: usize = if has_read {
            pn
        } else {
            0
        };
        proof {
            assert(kinds@.len() * pn * 2 + mmap_count <= kinds@.len() * pn * 3) by (nonlinear_arith)
                requires
                    mmap_count <= pn,
                    kinds@.len() >= 1,
            ;
        }
        kinds.len() * pn * 2 + mmap_count
    };
    let ghost pairs: int = dn * cn;
    let mut groups: Vec<GroupPlan> = Vec::new();
    let mut current: usize = 0;
    let mut g: usize = 0;
    while g < kinds.len()
        invariant
            dn == dtypes@.len(),
            cn == channels@.len(),
            pairs == dn * cn,
            g <= kinds@.len(),
            kinds@.len() * pairs * 3 <= usize::MAX,
            current == steps_before(kinds@, g as int, pairs),
            groups@.len() == g,
            forall|h: int|
                0 <= h < g ==> {
                    &&& (#[trigger] groups@[h]).kind == kinds@[h]
                    &&& groups@[h].pairs@.len() == pairs
                    &&& forall|q: int|
                        0 <= q < pairs ==> pair_planned(
                            #[trigger] groups@[h].pairs@[q],
                            kinds@[h],
                            steps_before(kinds@, h, pairs) + q * runs_per_pair(kinds@[h]) + 1,
                            dtypes@[q / cn as int]@,
                            channels@[q % cn as int],
                            iterations,
                            warmup,
                            duration_secs,
                            chunk_size,
                            cold_cache,
                        )
                },
        decreases kinds@.len() - g,
    {
        let kind = kinds[g];
        let ghost per = runs_per_pair(kind);
        let ghost base = steps_before(kinds@, g as int, pairs);
        proof {
            lemma_steps_before_bounds(kinds@, g as int + 1, kinds@.len() as int, pairs);
            lemma_steps_before_bounds(kinds@, kinds@.len() as int, kinds@.len() as int, pairs);
            assert(steps_before(kinds@, g as int + 1, pairs) == base + pairs * per);
            assert(3 * kinds@.len() * pairs == kinds@.len() * pairs * 3) by (nonlinear_arith);
        }
        let mut pairs_v: Vec<PairPlan> = Vec::new();
        let mut d: usize = 0;
        while d < dn
            invariant
                dn == dtypes@.len(),
                cn == channels@.len(),
                pairs == dn * cn,
                g < kinds@.len(),
                kind == kinds@[g as int],
                per == runs_per_pair(kind),
                base == steps_before(kinds@, g as int, pairs),
                base + pairs * per <= usize::MAX,
                d <= dn,
                current == base + d * cn * per,
                pairs_v@.len() == d * cn,
                forall|q: int|
                    0 <= q < d * cn ==> pair_planned(
                        #[trigger] pairs_v@[q],
                        kind,
                        base + q * per + 1,
                        dtypes@[q / cn as int]@,
                        channels@[q % cn as int],
                        iterations,
                        warmup,
                        duration_secs,
                        chunk_size,
                        cold_cache,
                    ),
            decreases dn - d,
        {
            let mut c: usize = 0;
            while c < cn
                invariant
                    dn == dtypes@.len(),
                    cn == channels@.len(),
                    pairs == dn * cn,
                    kind == kinds@[g as int],
                    g < kinds@.len(),
                    per == runs_per_pair(kind),
                    base + pairs * per <= usize::MAX,
                    d < dn,
                    c <= cn,
                    current == base + (d * cn + c) * per,
                    pairs_v@.len() == d * cn + c,
                    forall|q: int|
                        0 <= q < d * cn + c ==> pair_planned(
                            #[trigger] pairs_v@[q],
                            kind,
                            base + q * per + 1,
                            dtypes@[q / cn as int]@,
                            channels@[q % cn as int],
                            iterations,
                            warmup,
                            duration_secs,
                            chunk_size,
                            cold_cache,
                        ),
                decreases cn - c,
            {
                proof {
                    assert((d * cn + c + 1) * per <= pairs * per) by (nonlinear_arith)
                        requires
                            d < dn,
                            c < cn,
                            pairs == dn * cn,
                            per >= 0,
                    ;
                    assert((d * cn + c + 1) * per == (d * cn + c) * per + per) by (nonlinear_arith);
                    lemma_fundamental_div_mod_converse((d * cn + c) as int, cn as int, d as int, c as int);
                }
                let config = BenchConfig {
                    iterations,
                    warmup_iterations: warmup,
                    signal_duration_secs: duration_secs,
                    signal_dtype: dtypes[d].clone(),
                    chunk_size,
                    channels: channels[c],
                    cold_cache,
                };
                current = current + 1;
                let hound_step = current;
                current = current + 1;
                let aus_step = current;
                let mmap_step = if kind == BenchKind::Read {
                    current = current + 1;
                    Some(current)
                } else {
                    None
                };
                pairs_v.push(PairPlan { config, hound_step, aus_step, mmap_step });
                c = c + 1;
            }
            proof {
                assert((d + 1) * cn * per == (d * cn + cn) * per) by (nonlinear_arith);
            }
            d = d + 1;
        }
        proof {
            assert(dn * cn * per == pairs * per);
        }
        groups.push(GroupPlan { kind, pairs: pairs_v });
        g = g + 1;
    }
    SuitePlan { groups, total }
}

/// How many times `kinds` lists reads.
pub open spec fn read_listings(kinds: Seq<BenchKind>) -> int
    decreases kinds.len(),
{
    if kinds.len() == 0 {
        0
    } else {
        read_listings(kinds.drop_last()) + if kinds.last() == BenchKind::Read {
            1int
        } else {
            0
        }
    }
}

proof fn lemma_steps_count(kinds: Seq<BenchKind>, pairs: int)
    ensures
        steps_before(kinds, kinds.len() as int, pairs) == 2 * kinds.len() * pairs + read_listings(
            kinds,
        ) * pairs,
        read_listings(kinds) > 0 <==> kinds.contains(BenchKind::Read),
        read_listings(kinds) >= 0,
    decreases kinds.len(),
{
    if kinds.len() > 0 {
        let prev = kinds.drop_last();
        lemma_steps_count(prev, pairs);
        assert forall|g: int| 0 <= g <= prev.len() implies steps_before(prev, g, pairs)
            == steps_before(kinds, g, pairs) by {
            lemma_steps_prefix(prev, kinds, g, pairs);
        }
        assert(2 * kinds.len() * pairs == 2 * prev.len() * pairs + 2 * pairs) by (nonlinear_arith)
            requires
                kinds.len() == prev.len() + 1,
        ;
        let per = runs_per_pair(kinds.last());
        let dr = read_listings(kinds) - read_listings(prev);
        assert(per == 2 + dr);
        assert(steps_before(kinds, kinds.len() as int, pairs) == steps_before(
            prev,
            prev.len() as int,
            pairs,
        ) + pairs * per);
        assert(pairs * per == 2 * pairs + dr * pairs) by (nonlinear_arith)
            requires
                per == 2 + dr,
        ;
        assert(read_listings(kinds) * pairs == read_listings(prev) * pairs + dr * pairs)
            by (nonlinear_arith)
            requires
                dr == read_listings(kinds) - read_listings(prev),
        ;
        if kinds.contains(BenchKind::Read) {
            let i = choose|i: int| 0 <= i < kinds.len() && kinds[i] == BenchKind::Read;
            if i < prev.len() {
                assert(prev[i] == BenchKind::Read);
            }
        }
        if prev.contains(BenchKind::Read) {
            let i = choose|i: int| 0 <= i < prev.len() && prev[i] == BenchKind::Read;
            assert(kinds[i] == BenchKind::Read);
        }
        if kinds.last() == BenchKind::Read {
            assert(kinds[kinds.len() - 1] == BenchKind::Read);
        }
    }
}

proof fn lemma_steps_prefix(prev: Seq<BenchKind>, kinds: Seq<BenchKind>, g: int, pairs: int)
    requires
        kinds.len() > 0,
        prev == kinds.drop_last(),
        0 <= g <= prev.len(),
    ensures
        steps_before(prev, g, pairs) == steps_before(kinds, g, pairs),
    decreases g,
{
    if g > 0 {
        lemma_steps_prefix(prev, kinds, g - 1, pairs);
        assert(prev[g - 1] == kinds[g - 1]);
    }
}

/// Progress numbering. Numbered one after another, the benchmarks of a run
/// come to the announced total plus one combination's worth for each listing
/// of reads beyond the first; so when reads are listed at most once, the last
/// progress number is exactly the announced total.
pub proof fn lemma_progress_total(kinds: Seq<BenchKind>, pairs: int)
    requires
        pairs >= 0,
    ensures
        read_listings(kinds) >= 1 ==> steps_before(kinds, kinds.len() as int, pairs)
            == announced_total(kinds, pairs) + (read_listings(kinds) - 1) * pairs,
        read_listings(kinds) <= 1 ==> steps_before(kinds, kinds.len() as int, pairs)
            == announced_total(kinds, pairs),
{
    lemma_steps_count(kinds, pairs);
    assert(kinds.len() * pairs * 2 == 2 * kinds.len() * pairs) by (nonlinear_arith);
    if read_listings(kinds) >= 1 {
        assert(read_listings(kinds) * pairs == pairs + (read_listings(kinds) - 1) * pairs)
            by (nonlinear_arith);
    }
}

} // verus!
