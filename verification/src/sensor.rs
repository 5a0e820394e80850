//! The code-coverage sensor, modeled over a counters buffer: each
//! function of the instrumented binary owns a run of counter slots, and
//! the sensor turns nonzero counters into features. The parsing of the
//! binary's coverage sections happens outside; the sensor receives the
//! parsed records and the live counter values as plain data.

use vstd::prelude::*;

verus! {

use crate::grammar::sat_add;

/// A coverage feature: a dense counter index paired with the hit count
/// observed there.
#[derive(Clone, Copy, Debug, PartialEq, Eq, Structural, Hash)]
pub struct Feature {
    pub index: usize,
    pub counter: u64,
}

impl Feature {
    pub fn new(index: usize, counter: u64) -> (r: Feature)
        ensures
            r == (Feature { index, counter }),
    {
        Feature { index, counter }
    }
}

/// A source region covered by one counter.
#[derive(Clone, Copy, Debug, PartialEq, Eq)]
pub struct Region {
    pub lines: (usize, usize),
    pub cols: (usize, usize),
}

/// A counter computed from other counters: the sum of the `add` slots
/// minus the sum of the `sub` slots, clamped at zero.
pub struct ExpressionCounter {
    pub add: Vec<usize>,
    pub sub: Vec<usize>,
}

/// What the coverage parser knows about one instrumented function.
pub struct FunctionRecord {
    pub name_function: String,
    pub file: String,
    pub counter_regions: Vec<Vec<Region>>,
}

/// One instrumented function's counters: the direct counter slots, the
/// expression counters over them, and the span of the function's slots
/// inside the shared counters buffer.
pub struct Coverage {
    pub function_record: FunctionRecord,
    pub single_counters: Vec<usize>,
    pub expression_counters: Vec<ExpressionCounter>,
    pub start_counters: usize,
    pub counters_len: usize,
}

impl Coverage {
    /// How many features this function can emit.
    pub open spec fn counters_count(self) -> int {
        self.single_counters@.len() + self.expression_counters@.len() as int
    }

    /// A counter slot lies inside this function's own span of the
    /// buffer.
    pub open spec fn owns_slot(self, slot: int) -> bool {
        self.start_counters <= slot < self.start_counters + self.counters_len
    }

    /// Every slot the function reads lies inside the function's own
    /// span, and the span lies inside a buffer of `len` counters — so
    /// zeroing the span silences every feature the function can emit.
    pub open spec fn wf_for(self, len: int) -> bool {
        &&& self.single_counters@.len() > 0
        &&& forall|i: int|
            0 <= i < self.single_counters@.len() ==> self.owns_slot(
                #[trigger] self.single_counters@[i] as int,
            )
        &&& forall|i: int, j: int|
            0 <= i < self.expression_counters@.len() && 0 <= j
                < self.expression_counters@[i].add@.len() ==> self.owns_slot(
                #[trigger] self.expression_counters@[i].add@[j] as int,
            )
        &&& forall|i: int, j: int|
            0 <= i < self.expression_counters@.len() && 0 <= j
                < self.expression_counters@[i].sub@.len() ==> self.owns_slot(
                #[trigger] self.expression_counters@[i].sub@[j] as int,
            )
        &&& self.start_counters + self.counters_len <= len
    }
}

/// The records whose counters can tell behaviors apart: more than one
/// counter in all.
pub open spec fn retained(s: Seq<Coverage>) -> Seq<Coverage>
    decreases s.len(),
{
    if s.len() == 0 {
        Seq::empty()
    } else {
        retained(s.drop_last()) + if s.last().counters_count() > 1 {
            seq![s.last()]
        } else {
            Seq::empty()
        }
    }
}

/// The total number of counters of the retained records.
pub open spec fn retained_counts(s: Seq<Coverage>) -> int
    decreases s.len(),
{
    if s.len() == 0 {
        0int
    } else {
        retained_counts(s.drop_last()) + if s.last().counters_count() > 1 {
            s.last().counters_count()
        } else {
            0int
        }
    }
}

/// Every retained record can tell behaviors apart: it has more than
/// one counter.
pub proof fn lemma_retained_discriminating(s: Seq<Coverage>)
    ensures
        forall|k: int|
            0 <= k < retained(s).len() ==> (#[trigger] retained(s)[k]).counters_count() > 1,
    decreases s.len(),
{
    if s.len() > 0 {
        lemma_retained_discriminating(s.drop_last());
        let pre = retained(s.drop_last());
        assert forall|k: int| 0 <= k < retained(s).len() implies (
        #[trigger] retained(s)[k]).counters_count() > 1 by {
            if k < pre.len() {
                assert(retained(s)[k] == pre[k]);
            } else {
                assert(retained(s)[k] == s.last());
            }
        }
    }
}

/// The total number of counters of a list of records.
pub open spec fn counts_sum(s: Seq<Coverage>) -> int
    decreases s.len(),
{
    if s.len() == 0 {
        0int
    } else {
        counts_sum(s.drop_last()) + s.last().counters_count()
    }
}

/// The total number of counters of the first `k` records.
pub open spec fn prefix_counts(s: Seq<Coverage>, k: int) -> int {
    counts_sum(s.subrange(0, k))
}

/// The saturating sum of the counter values at the given slots.
pub open spec fn slots_sum(counters: Seq<u64>, slots: Seq<usize>) -> u64
    decreases slots.len(),
{
    if slots.len() == 0 {
        0u64
    } else {
        sat_add(counters[slots[0] as int], slots_sum(counters, slots.drop_first()))
    }
}

/// The value of an expression counter: additions minus subtractions,
/// clamped at zero.
pub open spec fn expression_value(counters: Seq<u64>, e: ExpressionCounter) -> u64 {
    if slots_sum(counters, e.add@) >= slots_sum(counters, e.sub@) {
        (slots_sum(counters, e.add@) - slots_sum(counters, e.sub@)) as u64
    } else {
        0u64
    }
}

/// The features of the single counters `[0, n)`, dense indices starting
/// at `base`: one feature per nonzero counter, in index order.
pub open spec fn single_features(counters: Seq<u64>, singles: Seq<usize>, base: int, n: int) -> Seq<
    Feature,
>
    decreases n,
{
    if n <= 0 {
        Seq::empty()
    } else {
        single_features(counters, singles, base, n - 1) + (if counters[singles[n - 1] as int]
            != 0 {
            seq![
                Feature {
                    index: (base + n - 1) as usize,
                    counter: counters[singles[n - 1] as int],
                },
            ]
        } else {
            Seq::empty()
        })
    }
}

/// The features of the expression counters `[0, n)`, dense indices
/// starting at `base`: one feature per nonzero computed value.
pub open spec fn expression_features(
    counters: Seq<u64>,
    exprs: Seq<ExpressionCounter>,
    base: int,
    n: int,
) -> Seq<Feature>
    decreases n,
{
    if n <= 0 {
        Seq::empty()
    } else {
        expression_features(counters, exprs, base, n - 1) + (if expression_value(
            counters,
            exprs[n - 1],
        ) != 0 {
            seq![
                Feature {
                    index: (base + n - 1) as usize,
                    counter: expression_value(counters, exprs[n - 1]),
                },
            ]
        } else {
            Seq::empty()
        })
    }
}

/// Every feature one function emits for the given counter values:
/// nothing at all when its first counter is zero (the function was
/// never entered), otherwise its single-counter features followed by
/// its expression-counter features.
pub open spec fn collected_features(counters: Seq<u64>, cov: Coverage, base: int) -> Seq<Feature> {
    if counters[cov.single_counters@[0] as int] == 0 {
        Seq::empty()
    } else {
        single_features(counters, cov.single_counters@, base, cov.single_counters@.len() as int)
            + expression_features(
            counters,
            cov.expression_counters@,
            base + cov.single_counters@.len(),
            cov.expression_counters@.len() as int,
        )
    }
}

/// After its span is cleared, a function emits no features at all: its
/// first counter is zero, which is the sensor's fast path.
pub proof fn lemma_cleared_silent(counters: Seq<u64>, cov: Coverage, base: int)
    requires
        cov.wf_for(counters.len() as int),
        forall|i: int| cov.owns_slot(i) ==> counters[i] == 0,
    ensures
        collected_features(counters, cov, base) == Seq::<Feature>::empty(),
{
    assert(cov.owns_slot(cov.single_counters@[0] as int));
}

/// Records the code coverage of the program and converts it into
/// features that the pool can understand.
pub struct CodeCoverageSensor {
    pub coverage: Vec<Coverage>,
    pub index_ranges: Vec<(usize, usize)>,
}

impl CodeCoverageSensor {
    /// Per-function index ranges are contiguous, start at zero, and
    /// count exactly the function's counters; every slot lies inside a
    /// buffer of `len` counters.
    pub open spec fn wf_for(self, len: int) -> bool {
        &&& self.coverage@.len() == self.index_ranges@.len()
        &&& forall|k: int| 0 <= k < self.coverage@.len() ==> (#[trigger] self.coverage@[k]).wf_for(len)
        &&& forall|k: int|
            0 <= k < self.coverage@.len() ==> (#[trigger] self.index_ranges@[k]).1
                - self.index_ranges@[k].0 == self.coverage@[k].counters_count()
        &&& forall|k: int|
            0 < k < self.coverage@.len() ==> (#[trigger] self.index_ranges@[k]).0
                == self.index_ranges@[k - 1].1
        &&& (self.coverage@.len() > 0 ==> self.index_ranges@[0].0 == 0)
    }

    /// Assemble a sensor from parsed coverage records over a buffer of
    /// `counters_len` counters: records with at most one counter are
    /// dropped, the survivors are kept in order, and each gets the
    /// contiguous dense index range its counters occupy. Fails exactly
    /// when a surviving record's slots do not fit the buffer or the
    /// dense index would overflow.
    pub fn new(coverage: Vec<Coverage>, counters_len: usize) -> (r: Option<CodeCoverageSensor>)
        ensures
            r is Some <==> (forall|t: int|
                0 <= t < retained(coverage@).len() ==> (#[trigger] retained(coverage@)[t]).wf_for(
                    counters_len as int,
                )) && retained_counts(coverage@) <= usize::MAX,
            match r {
                Some(s) => {
                    &&& s.wf_for(counters_len as int)
                    &&& s.coverage@ == retained(coverage@)
                    &&& forall|t: int|
                        0 <= t < s.coverage@.len() ==> (#[trigger] s.index_ranges@[t]).0
                            == prefix_counts(s.coverage@, t) && s.index_ranges@[t].1
                            == prefix_counts(s.coverage@, t + 1)
                },
                None => true,
            },
    {
        let mut kept: Vec<Coverage> = Vec::new();
        let mut index_ranges: Vec<(usize, usize)> = Vec::new();
        let mut index: usize = 0;
        let mut it = coverage;
        let ghost orig = it@;
        let n = it.len();
        let mut k: usize = 0;
        proof {
            assert(orig.subrange(0, 0) =~= Seq::<Coverage>::empty());
        }
        #[verifier::loop_isolation(false)]
        while k < n
            invariant
                orig.len() == n,
                it@ =~= orig.subrange(k as int, n as int),
                k <= n,
                kept@ == retained(orig.subrange(0, k as int)),
                index == retained_counts(orig.subrange(0, k as int)),
                index == counts_sum(kept@),
                forall|t: int|
                    0 <= t < retained(orig.subrange(0, k as int)).len() ==> (#[trigger] retained(
                        orig.subrange(0, k as int),
                    )[t]).wf_for(counters_len as int),
                kept@.len() == index_ranges@.len(),
                forall|t: int|
                    0 <= t < kept@.len() ==> (#[trigger] index_ranges@[t]).0 == prefix_counts(
                        kept@,
                        t,
                    ) && index_ranges@[t].1 == prefix_counts(kept@, t + 1),
            decreases n - k,
        {
            let c = it.remove(0);
            proof {
                assert(c == orig[k as int]);
                assert(it@ =~= orig.subrange(k as int + 1, n as int));
                lemma_retained_snoc(orig, k as int);
            }
            let sc = c.single_counters.len();
            let ec = c.expression_counters.len();
            if sc > usize::MAX - ec {
                proof {
                    lemma_retained_counts_mono(orig, k as int + 1);
                    assert(retained_counts(orig.subrange(0, k as int + 1)) > usize::MAX);
                    assert(retained_counts(orig) > usize::MAX);
                }
                return None;
            }
            let count = sc + ec;
            if count > 1 {
                if !check_coverage_wf(&c, counters_len) {
                    proof {
                        let rk = retained(orig.subrange(0, k as int)).len() as int;
                        lemma_retained_prefix(orig, k as int);
                        assert(retained(orig)[rk] == c);
                        assert(!(retained(orig)[rk]).wf_for(counters_len as int));
                    }
                    return None;
                }
                if index > usize::MAX - count {
                    proof {
                        lemma_retained_counts_mono(orig, k as int + 1);
                        assert(retained_counts(orig.subrange(0, k as int + 1)) > usize::MAX);
                        assert(retained_counts(orig) > usize::MAX);
                    }
                    return None;
                }
                let next = index + count;
                let ghost kept_pre = kept@;
                kept.push(c);
                index_ranges.push((index, next));
                index = next;
                proof {
                    assert(kept@.drop_last() =~= kept_pre);
                    assert(counts_sum(kept@) == counts_sum(kept_pre) + c.counters_count());
                    assert forall|t: int| 0 <= t < kept@.len() implies (
                    #[trigger] index_ranges@[t]).0 == prefix_counts(kept@, t)
                        && index_ranges@[t].1 == prefix_counts(kept@, t + 1) by {
                        assert(kept@.subrange(0, t) =~= kept_pre.subrange(0, t));
                        if t < kept@.len() - 1 {
                            assert(kept@.subrange(0, t + 1) =~= kept_pre.subrange(0, t + 1));
                        } else {
                            assert(kept@.subrange(0, t + 1) =~= kept@);
                            assert(kept@.subrange(0, t) =~= kept_pre);
                            assert(kept_pre.subrange(0, t) =~= kept_pre);
                            assert(prefix_counts(kept@, t) == counts_sum(kept_pre));
                        }
                    }
                }
            }
            k = k + 1;
        }
        proof {
            assert(orig.subrange(0, n as int) =~= orig);
            let s = CodeCoverageSensor { coverage: kept, index_ranges };
            assert forall|t: int| 0 <= t < s.coverage@.len() implies (
            #[trigger] s.index_ranges@[t]).1 - s.index_ranges@[t].0 == s.coverage@[t].counters_count() by {
                lemma_prefix_counts_step(s.coverage@, t);
            }
            assert forall|t: int| 0 < t < s.coverage@.len() implies (
            #[trigger] s.index_ranges@[t]).0 == s.index_ranges@[t - 1].1 by {}
            if s.coverage@.len() > 0 {
                assert(s.coverage@.subrange(0, 0) =~= Seq::<Coverage>::empty());
            }
        }
        Some(CodeCoverageSensor { coverage: kept, index_ranges })
    }

    /// Recording needs no setup: the instrumentation's counters are
    /// always live. Ordering is the caller's business: clear the
    /// counters before each execution, then read the features after it.
    pub fn start_recording(&self) {
    }

    /// The counterpart of [`Self::start_recording`]; equally a no-op.
    pub fn stop_recording(&self) {
    }

    /// The features one function emitted, read from the counter values:
    /// single counters first, then expression counters, each at its
    /// dense index, skipping zeros — and nothing at all when the
    /// function's first counter is zero.
    pub fn iterate_over_collected_features(&self, coverage_index: usize, counters: &Vec<u64>) -> (r:
        Vec<Feature>)
        requires
            self.wf_for(counters@.len() as int),
            coverage_index < self.coverage@.len(),
        ensures
            r@ == collected_features(
                counters@,
                self.coverage@[coverage_index as int],
                self.index_ranges@[coverage_index as int].0 as int,
            ),
    {
        let cov = &self.coverage[coverage_index];
        let base = self.index_ranges[coverage_index].0;
        proof {
            assert(self.coverage@[coverage_index as int].wf_for(counters@.len() as int));
        }
        let mut out: Vec<Feature> = Vec::new();
        let first = counters[cov.single_counters[0]];
        if first == 0 {
            proof {
                assert(out@ =~= collected_features(
                    counters@,
                    self.coverage@[coverage_index as int],
                    base as int,
                ));
            }
            return out;
        }
        proof {
            assert(base + cov.single_counters@.len() + cov.expression_counters@.len()
                <= usize::MAX) by {
                assert(self.index_ranges@[coverage_index as int].1 <= usize::MAX);
            }
        }
        let mut i: usize = 0;
        while i < cov.single_counters.len()
            invariant
                self.coverage@[coverage_index as int] == *cov,
                cov.wf_for(counters@.len() as int),
                i <= cov.single_counters@.len(),
                base + cov.single_counters@.len() + cov.expression_counters@.len() <= usize::MAX,
                out@ == single_features(counters@, cov.single_counters@, base as int, i as int),
            decreases cov.single_counters@.len() - i,
        {
            let slot = cov.single_counters[i];
            let v = counters[slot];
            if v != 0 {
                out.push(Feature { index: base + i, counter: v });
            }
            proof {
                assert(out@ =~= single_features(
                    counters@,
                    cov.single_counters@,
                    base as int,
                    i as int + 1,
                ));
            }
            i = i + 1;
        }
        let ebase = base + cov.single_counters.len();
        let mut j: usize = 0;
        while j < cov.expression_counters.len()
            invariant
                self.coverage@[coverage_index as int] == *cov,
                cov.wf_for(counters@.len() as int),
                j <= cov.expression_counters@.len(),
                base + cov.single_counters@.len() + cov.expression_counters@.len() <= usize::MAX,
                ebase == base + cov.single_counters@.len(),
                out@ == single_features(
                    counters@,
                    cov.single_counters@,
                    base as int,
                    cov.single_counters@.len() as int,
                ) + expression_features(
                    counters@,
                    cov.expression_counters@,
                    ebase as int,
                    j as int,
                ),
            decreases cov.expression_counters@.len() - j,
        {
            let v = compute_expression(&cov.expression_counters[j], counters);
            if v != 0 {
                out.push(Feature { index: ebase + j, counter: v });
            }
            proof {
                assert(out@ =~= single_features(
                    counters@,
                    cov.single_counters@,
                    base as int,
                    cov.single_counters@.len() as int,
                ) + expression_features(
                    counters@,
                    cov.expression_counters@,
                    ebase as int,
                    j as int + 1,
                ));
            }
            j = j + 1;
        }
        out
    }

    /// Zero every counter slot owned by any of the sensor's functions;
    /// slots outside every function's span keep their values.
    pub fn clear(&self, counters: &mut Vec<u64>)
        requires
            self.wf_for(old(counters)@.len() as int),
        ensures
            final(counters)@.len() == old(counters)@.len(),
            forall|i: int|
                0 <= i < old(counters)@.len() ==> final(counters)@[i] == (
                if self.spec_owns(i) {
                    0u64
                } else {
                    old(counters)@[i]
                }),
    {
        let total = counters.len();
        let mut k: usize = 0;
        while k < self.coverage.len()
            invariant
                self.wf_for(old(counters)@.len() as int),
                k <= self.coverage@.len(),
                total == old(counters)@.len(),
                counters@.len() == old(counters)@.len(),
                forall|i: int|
                    0 <= i < old(counters)@.len() ==> counters@[i] == (
                    if exists|t: int|
                        0 <= t < k && (#[trigger] self.coverage@[t]).start_counters <= i
                            < self.coverage@[t].start_counters + self.coverage@[t].counters_len {
                        0u64
                    } else {
                        old(counters)@[i]
                    }),
            decreases self.coverage@.len() - k,
        {
            let cov = &self.coverage[k];
            let start = cov.start_counters;
            let len = cov.counters_len;
            let mut i: usize = 0;
            proof {
                assert(self.coverage@[k as int].wf_for(old(counters)@.len() as int));
            }
            while i < len
                invariant
                    self.wf_for(old(counters)@.len() as int),
                    k < self.coverage@.len(),
                    self.coverage@[k as int] == *cov,
                    start == cov.start_counters,
                    len == cov.counters_len,
                    total == old(counters)@.len(),
                    start + len <= total,
                    i <= len,
                    counters@.len() == old(counters)@.len(),
                    forall|t: int|
                        0 <= t < old(counters)@.len() ==> counters@[t] == (
                        if start <= t < start + i {
                            0u64
                        } else {
                            if exists|u: int|
                                0 <= u < k && (#[trigger] self.coverage@[u]).start_counters <= t
                                    < self.coverage@[u].start_counters
                                    + self.coverage@[u].counters_len {
                                0u64
                            } else {
                                old(counters)@[t]
                            }
                        }),
                decreases len - i,
            {
                counters[start + i] = 0;
                i = i + 1;
            }
            proof {
                assert forall|t: int| 0 <= t < old(counters)@.len() implies counters@[t] == (
                    if exists|u: int|
                        0 <= u < k + 1 && (#[trigger] self.coverage@[u]).start_counters <= t
                            < self.coverage@[u].start_counters + self.coverage@[u].counters_len {
                        0u64
                    } else {
                        old(counters)@[t]
                    }) by {
                    if exists|u: int|
                        0 <= u < k + 1 && (#[trigger] self.coverage@[u]).start_counters <= t
                            < self.coverage@[u].start_counters + self.coverage@[u].counters_len {
                        let u = choose|u: int|
                            0 <= u < k + 1 && (#[trigger] self.coverage@[u]).start_counters <= t
                                < self.coverage@[u].start_counters
                                + self.coverage@[u].counters_len;
                        if u == k {
                            assert(counters@[t] == 0);
                        }
                    }
                }
            }
            k = k + 1;
        }
    }

    /// Some function of the sensor owns counter slot `i`.
    pub open spec fn spec_owns(self, i: int) -> bool {
        exists|t: int|
            0 <= t < self.coverage@.len() && (#[trigger] self.coverage@[t]).start_counters <= i
                < self.coverage@[t].start_counters + self.coverage@[t].counters_len
    }
}

/// The serialized form of a sensor's coverage: per function, its name,
/// its file, and one entry per counter with the counter's dense index
/// and its source regions.
pub struct CoverageMap {
    pub functions: Vec<Function>,
}

pub struct Function {
    pub name: String,
    pub file: String,
    pub counters: Vec<Counter>,
}

pub struct Counter {
    pub id: usize,
    pub regions: Vec<Region>,
}

impl CodeCoverageSensor {
    /// The index bookkeeping of the sensor holds, whatever counter
    /// buffer it is used with.
    pub open spec fn wf_indices(self) -> bool {
        &&& self.coverage@.len() == self.index_ranges@.len()
        &&& forall|k: int|
            0 <= k < self.coverage@.len() ==> (#[trigger] self.index_ranges@[k]).1
                - self.index_ranges@[k].0 == self.coverage@[k].counters_count()
        &&& forall|k: int|
            0 < k < self.coverage@.len() ==> (#[trigger] self.index_ranges@[k]).0
                == self.index_ranges@[k - 1].1
        &&& (self.coverage@.len() > 0 ==> self.index_ranges@[0].0 == 0)
    }

    /// Serialize the sensor's coverage: one record per function, one
    /// counter entry per dense index, ids exactly the function's index
    /// range, regions copied from the parsed record.
    pub fn coverage_map(&self) -> (r: CoverageMap)
        requires
            self.wf_indices(),
            forall|k: int|
                0 <= k < self.coverage@.len() ==> (
                #[trigger] self.coverage@[k]).function_record.counter_regions@.len()
                    == self.coverage@[k].counters_count(),
        ensures
            r.functions@.len() == self.coverage@.len(),
            forall|k: int|
                0 <= k < self.coverage@.len() ==> {
                    let f = #[trigger] r.functions@[k];
                    let c = self.coverage@[k];
                    &&& f.name@ == c.function_record.name_function@
                    &&& f.file@ == c.function_record.file@
                    &&& f.counters@.len() == c.counters_count()
                    &&& forall|j: int|
                        0 <= j < f.counters@.len() ==> (#[trigger] f.counters@[j]).id
                            == self.index_ranges@[k].0 + j && f.counters@[j].regions@
                            == c.function_record.counter_regions@[j]@
                },
    {
        let mut functions: Vec<Function> = Vec::new();
        let mut k: usize = 0;
        while k < self.coverage.len()
            invariant
                self.wf_indices(),
                forall|t: int|
                    0 <= t < self.coverage@.len() ==> (
                    #[trigger] self.coverage@[t]).function_record.counter_regions@.len()
                        == self.coverage@[t].counters_count(),
                k <= self.coverage@.len(),
                functions@.len() == k,
                forall|t: int|
                    0 <= t < k ==> {
                        let f = #[trigger] functions@[t];
                        let c = self.coverage@[t];
                        &&& f.name@ == c.function_record.name_function@
                        &&& f.file@ == c.function_record.file@
                        &&& f.counters@.len() == c.counters_count()
                        &&& forall|j: int|
                            0 <= j < f.counters@.len() ==> (#[trigger] f.counters@[j]).id
                                == self.index_ranges@[t].0 + j && f.counters@[j].regions@
                                == c.function_record.counter_regions@[j]@
                    },
            decreases self.coverage@.len() - k,
        {
            let cov = &self.coverage[k];
            let start = self.index_ranges[k].0;
            let rec = &cov.function_record;
            let count = rec.counter_regions.len();
            proof {
                assert(self.index_ranges@[k as int].1 - self.index_ranges@[k as int].0 == count);
                assert(self.index_ranges@[k as int].1 <= usize::MAX);
            }
            let mut counters: Vec<Counter> = Vec::new();
            let mut j: usize = 0;
            while j < count
                invariant
                    k < self.coverage@.len(),
                    self.coverage@[k as int] == *cov,
                    cov.function_record == *rec,
                    count == rec.counter_regions@.len(),
                    start + count <= usize::MAX,
                    j <= count,
                    counters@.len() == j,
                    forall|t: int|
                        0 <= t < j ==> (#[trigger] counters@[t]).id == start + t
                            && counters@[t].regions@ == rec.counter_regions@[t]@,
                decreases count - j,
            {
                let src = &rec.counter_regions[j];
                let mut regions: Vec<Region> = Vec::new();
                let mut t: usize = 0;
                while t < src.len()
                    invariant
                        t <= src@.len(),
                        regions@.len() == t,
                        forall|u: int| 0 <= u < t ==> regions@[u] == src@[u],
                    decreases src@.len() - t,
                {
                    regions.push(src[t]);
                    t = t + 1;
                }
                proof {
                    assert(regions@ =~= src@);
                }
                counters.push(Counter { id: start + j, regions });
                j = j + 1;
            }
            functions.push(
                Function { name: rec.name_function.clone(), file: rec.file.clone(), counters },
            );
            k = k + 1;
        }
        CoverageMap { functions }
    }
}

/// What the digest of a byte string is; the digest depends on the
/// bytes alone.
pub uninterp spec fn md5_of(bytes: Seq<u8>) -> Seq<u8>;

/// Relies on `md5::compute`: the digest has sixteen bytes and depends
/// on the input alone.
#[verifier::external_body]
fn md5_digest(bytes: &[u8]) -> (r: Vec<u8>)
    ensures
        r@ == md5_of(bytes@),
        r@.len() == 16,
{
    let digest = md5::compute(bytes);
    digest.0.to_vec()
}

/// The value of the first eight bytes, least significant first.
pub open spec fn le_bytes_64(s: Seq<u8>) -> int {
    s[0] + s[1] * 0x100 + s[2] * 0x1_0000 + s[3] * 0x100_0000 + s[4] * 0x1_0000_0000 + s[5]
        * 0x100_0000_0000 + s[6] * 0x1_0000_0000_0000 + s[7] * 0x100_0000_0000_0000
}

/// The key a function name is looked up by: the first eight digest
/// bytes of its bytes, read least significant first.
pub open spec fn name_key_of(bytes: Seq<u8>) -> int {
    le_bytes_64(md5_of(bytes))
}

/// Compute the lookup key of one function name.
pub fn name_key(name: &[u8]) -> (r: u64)
    ensures
        r == name_key_of(name@),
{
    let d = md5_digest(name);
    let r = (d[0] as u64) + (d[1] as u64) * 0x100 + (d[2] as u64) * 0x1_0000 + (d[3] as u64)
        * 0x100_0000 + (d[4] as u64) * 0x1_0000_0000 + (d[5] as u64) * 0x100_0000_0000 + (
    d[6] as u64) * 0x1_0000_0000_0000 + (d[7] as u64) * 0x100_0000_0000_0000;
    r
}

/// Taking one more record extends the retained list and the count by
/// exactly that record's contribution.
proof fn lemma_retained_snoc(s: Seq<Coverage>, k: int)
    requires
        0 <= k < s.len(),
    ensures
        retained(s.subrange(0, k + 1)) == retained(s.subrange(0, k)) + (if s[k].counters_count()
            > 1 {
            seq![s[k]]
        } else {
            Seq::<Coverage>::empty()
        }),
        retained_counts(s.subrange(0, k + 1)) == retained_counts(s.subrange(0, k)) + (if s[
            k
        ].counters_count() > 1 {
            s[k].counters_count()
        } else {
            0int
        }),
{
    let a = s.subrange(0, k + 1);
    assert(a.drop_last() =~= s.subrange(0, k));
    assert(a.last() == s[k]);
    if s[k].counters_count() > 1 {
        assert(retained(a) =~= retained(s.subrange(0, k)) + seq![s[k]]);
    } else {
        assert(retained(a) =~= retained(s.subrange(0, k)) + Seq::<Coverage>::empty());
    }
}

/// The retained count of a prefix never exceeds that of the whole.
proof fn lemma_retained_counts_mono(s: Seq<Coverage>, k: int)
    requires
        0 <= k <= s.len(),
    ensures
        retained_counts(s) >= retained_counts(s.subrange(0, k)),
    decreases s.len() - k,
{
    if k < s.len() {
        lemma_retained_snoc(s, k);
        lemma_retained_counts_mono(s, k + 1);
    } else {
        assert(s.subrange(0, k) =~= s);
    }
}

/// A record retained from a prefix stands at the same place in the
/// whole retained list.
proof fn lemma_retained_prefix(s: Seq<Coverage>, k: int)
    requires
        0 <= k < s.len(),
        s[k].counters_count() > 1,
    ensures
        retained(s).len() > retained(s.subrange(0, k)).len(),
        retained(s)[retained(s.subrange(0, k)).len() as int] == s[k],
    decreases s.len() - k,
{
    lemma_retained_snoc(s, k);
    if k + 1 == s.len() {
        assert(s.subrange(0, k + 1) =~= s);
    } else {
        lemma_retained_is_prefix(s, k + 1);
    }
}

/// The retained list of a prefix is a prefix of the whole retained list.
proof fn lemma_retained_is_prefix(s: Seq<Coverage>, k: int)
    requires
        0 <= k <= s.len(),
    ensures
        retained(s).len() >= retained(s.subrange(0, k)).len(),
        forall|t: int|
            0 <= t < retained(s.subrange(0, k)).len() ==> #[trigger] retained(s)[t] == retained(
                s.subrange(0, k),
            )[t],
    decreases s.len() - k,
{
    if k < s.len() {
        lemma_retained_snoc(s, k);
        lemma_retained_is_prefix(s, k + 1);
    } else {
        assert(s.subrange(0, k) =~= s);
    }
}

/// One step of a prefix count.
proof fn lemma_prefix_counts_step(s: Seq<Coverage>, t: int)
    requires
        0 <= t < s.len(),
    ensures
        prefix_counts(s, t + 1) == prefix_counts(s, t) + s[t].counters_count(),
{
    let a = s.subrange(0, t + 1);
    assert(a.drop_last() =~= s.subrange(0, t));
    assert(a.last() == s[t]);
}

/// The records whose file passes the caller's filter: entry `t` of the
/// listing survives exactly when `keep[t]` says so. The caller decides
/// the flags from the records' paths.
pub open spec fn filtered(s: Seq<Coverage>, keep: Seq<bool>) -> Seq<Coverage>
    decreases s.len(),
{
    if s.len() == 0 || keep.len() < s.len() {
        Seq::empty()
    } else {
        filtered(s.drop_last(), keep) + if keep[s.len() - 1] {
            seq![s.last()]
        } else {
            Seq::empty()
        }
    }
}

/// Keep exactly the records whose flag is set: the caller computes one
/// flag per record from its source path.
pub fn filter_records(records: Vec<Coverage>, keep: &Vec<bool>) -> (r: Vec<Coverage>)
    requires
        keep@.len() == records@.len(),
    ensures
        r@ == filtered(records@, keep@),
{
    let mut out: Vec<Coverage> = Vec::new();
    let mut it = records;
    let ghost orig = it@;
    let n = it.len();
    let mut k: usize = 0;
    proof {
        assert(orig.subrange(0, 0) =~= Seq::<Coverage>::empty());
        assert(filtered(orig.subrange(0, 0), keep@) == Seq::<Coverage>::empty());
    }
    while k < n
        invariant
            orig.len() == n,
            keep@.len() == n,
            it@ =~= orig.subrange(k as int, n as int),
            k <= n,
            out@ == filtered(orig.subrange(0, k as int), keep@),
        decreases n - k,
    {
        let c = it.remove(0);
        proof {
            assert(c == orig[k as int]);
            assert(it@ =~= orig.subrange(k as int + 1, n as int));
            let a = orig.subrange(0, k as int + 1);
            assert(a.drop_last() =~= orig.subrange(0, k as int));
            assert(a.last() == orig[k as int]);
        }
        if keep[k] {
            out.push(c);
        }
        k = k + 1;
    }
    proof {
        assert(orig.subrange(0, n as int) =~= orig);
    }
    out
}

/// Every slot of one record lies in the record's own span, which fits
/// the buffer.
fn check_coverage_wf(c: &Coverage, len: usize) -> (r: bool)
    ensures
        r == c.wf_for(len as int),
{
    if c.single_counters.len() == 0 {
        return false;
    }
    if c.start_counters > len || len - c.start_counters < c.counters_len {
        return false;
    }
    let lo = c.start_counters;
    let hi = c.start_counters + c.counters_len;
    let mut i: usize = 0;
    while i < c.single_counters.len()
        invariant
            lo == c.start_counters,
            hi == c.start_counters + c.counters_len,
            i <= c.single_counters@.len(),
            forall|t: int| 0 <= t < i ==> c.owns_slot(#[trigger] c.single_counters@[t] as int),
        decreases c.single_counters@.len() - i,
    {
        if c.single_counters[i] < lo || c.single_counters[i] >= hi {
            return false;
        }
        i = i + 1;
    }
    let mut e: usize = 0;
    while e < c.expression_counters.len()
        invariant
            lo == c.start_counters,
            hi == c.start_counters + c.counters_len,
            e <= c.expression_counters@.len(),
            forall|t: int|
                0 <= t < c.single_counters@.len() ==> c.owns_slot(
                    #[trigger] c.single_counters@[t] as int,
                ),
            forall|t: int, j: int|
                0 <= t < e && 0 <= j < c.expression_counters@[t].add@.len() ==> c.owns_slot(
                    #[trigger] c.expression_counters@[t].add@[j] as int,
                ),
            forall|t: int, j: int|
                0 <= t < e && 0 <= j < c.expression_counters@[t].sub@.len() ==> c.owns_slot(
                    #[trigger] c.expression_counters@[t].sub@[j] as int,
                ),
        decreases c.expression_counters@.len() - e,
    {
        let ex = &c.expression_counters[e];
        let mut j: usize = 0;
        while j < ex.add.len()
            invariant
                lo == c.start_counters,
                hi == c.start_counters + c.counters_len,
                c.expression_counters@[e as int] == *ex,
                e < c.expression_counters@.len(),
                j <= ex.add@.len(),
                forall|t: int| 0 <= t < j ==> c.owns_slot(#[trigger] ex.add@[t] as int),
            decreases ex.add@.len() - j,
        {
            if ex.add[j] < lo || ex.add[j] >= hi {
                return false;
            }
            j = j + 1;
        }
        let mut j2: usize = 0;
        while j2 < ex.sub.len()
            invariant
                lo == c.start_counters,
                hi == c.start_counters + c.counters_len,
                c.expression_counters@[e as int] == *ex,
                e < c.expression_counters@.len(),
                j2 <= ex.sub@.len(),
                forall|t: int| 0 <= t < j2 ==> c.owns_slot(#[trigger] ex.sub@[t] as int),
            decreases ex.sub@.len() - j2,
        {
            if ex.sub[j2] < lo || ex.sub[j2] >= hi {
                return false;
            }
            j2 = j2 + 1;
        }
        e = e + 1;
    }
    true
}

/// The saturating sum of the counter values at the given slots.
fn sum_slots(slots: &Vec<usize>, counters: &Vec<u64>) -> (r: u64)
    requires
        forall|i: int| 0 <= i < slots@.len() ==> (#[trigger] slots@[i]) < counters@.len(),
    ensures
        r == slots_sum(counters@, slots@),
{
    let mut acc: u64 = 0;
    let mut i: usize = slots.len();
    proof {
        assert(slots@.subrange(slots@.len() as int, slots@.len() as int) =~= Seq::<usize>::empty());
    }
    while i > 0
        invariant
            i <= slots@.len(),
            forall|t: int| 0 <= t < slots@.len() ==> (#[trigger] slots@[t]) < counters@.len(),
            acc == slots_sum(counters@, slots@.subrange(i as int, slots@.len() as int)),
        decreases i,
    {
        i = i - 1;
        let v = counters[slots[i]];
        acc = crate::grammar::sat_add_exec(v, acc);
        proof {
            let sub = slots@.subrange(i as int, slots@.len() as int);
            assert(sub[0] == slots@[i as int]);
            assert(sub.drop_first() =~= slots@.subrange(i as int + 1, slots@.len() as int));
        }
    }
    proof {
        assert(slots@.subrange(0, slots@.len() as int) =~= slots@);
    }
    acc
}

/// The value of one expression counter.
fn compute_expression(e: &ExpressionCounter, counters: &Vec<u64>) -> (r: u64)
    requires
        forall|i: int| 0 <= i < e.add@.len() ==> (#[trigger] e.add@[i]) < counters@.len(),
        forall|i: int| 0 <= i < e.sub@.len() ==> (#[trigger] e.sub@[i]) < counters@.len(),
    ensures
        r == expression_value(counters@, *e),
{
    let a = sum_slots(&e.add, counters);
    let b = sum_slots(&e.sub, counters);
    if a >= b {
        a - b
    } else {
        0
    }
}

} // verus!
