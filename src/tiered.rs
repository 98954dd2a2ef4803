use vstd::prelude::*;

verus! {

/// A tier as the planner sees it: its id and the ids of its tables.
pub open spec fn tier_view(t: (usize, Vec<usize>)) -> (usize, Seq<usize>) {
    (t.0, t.1@)
}

pub open spec fn tiers_view(v: Seq<(usize, Vec<usize>)>) -> Seq<(usize, Seq<usize>)> {
    v.map_values(|t: (usize, Vec<usize>)| tier_view(t))
}

/// The part of the level manifest that tiered compaction reads and rewrites.
pub struct LsmStorageState {
    /// Tiers, newest first: (tier id, table ids).
    pub levels: Vec<(usize, Vec<usize>)>,
}

impl LsmStorageState {
    pub open spec fn view(&self) -> Seq<(usize, Seq<usize>)> {
        tiers_view(self.levels@)
    }
}

pub struct TieredCompactionTask {
    pub tiers: Vec<(usize, Vec<usize>)>,
    pub bottom_tier_included: bool,
}

impl TieredCompactionTask {
    pub open spec fn view(&self) -> (Seq<(usize, Seq<usize>)>, bool) {
        (tiers_view(self.tiers@), self.bottom_tier_included)
    }
}

#[derive(Clone, Copy)]
pub struct TieredCompactionOptions {
    pub num_tiers: usize,
    pub max_size_amplification_percent: usize,
    pub size_ratio: usize,
    pub min_merge_width: usize,
}

pub struct TieredCompactionController {
    options: TieredCompactionOptions,
}

/// Number of tables in the first `n` tiers.
pub open spec fn sum_sizes(levels: Seq<(usize, Seq<usize>)>, n: int) -> int
    decreases n,
{
    if n <= 0 || n > levels.len() {
        0
    } else {
        sum_sizes(levels, n - 1) + levels[n - 1].1.len()
    }
}

/// `upper / bottom * 100 >= percent`, with an empty bottom tier never triggering.
pub open spec fn space_amp_triggers(upper: int, bottom: int, percent: int) -> bool {
    bottom > 0 && upper * 100 >= percent * bottom
}

/// `upper / tier >= (100 + size_ratio) / 100`, read as a ratio of sizes
/// (an empty `upper` never triggers).
pub open spec fn ratio_triggers(upper: int, tier: int, size_ratio: int) -> bool {
    upper > 0 && upper * 100 >= (100 + size_ratio) * tier
}

/// The width chosen by the size-ratio rule, walking from tier `i` on.
pub open spec fn ratio_width_from(
    levels: Seq<(usize, Seq<usize>)>,
    o: TieredCompactionOptions,
    i: int,
) -> Option<int>
    decreases levels.len() - i,
{
    if i < 0 || i + 1 >= levels.len() {
        None
    } else if ratio_triggers(sum_sizes(levels, i + 1), levels[i + 1].1.len() as int, o.size_ratio as int)
        && i + 2 >= o.min_merge_width {
        Some(i + 2)
    } else {
        ratio_width_from(levels, o, i + 1)
    }
}

/// How many of the newest tiers the planner merges, if any.
pub open spec fn planned_width(o: TieredCompactionOptions, levels: Seq<(usize, Seq<usize>)>) -> Option<int> {
    let len = levels.len() as int;
    if len == 0 || len < o.num_tiers {
        None
    } else if space_amp_triggers(
        sum_sizes(levels, len - 1),
        levels[len - 1].1.len() as int,
        o.max_size_amplification_percent as int,
    ) {
        Some(len)
    } else {
        match ratio_width_from(levels, o, 0) {
            Some(w) => Some(w),
            None => Some(if o.num_tiers >= 2 { len - o.num_tiers + 2 } else { len }),
        }
    }
}


/// Whether the task names a tier with id `id`.
pub open spec fn task_names(task: Seq<(usize, Seq<usize>)>, id: usize) -> bool {
    exists|j: int| 0 <= j < task.len() && #[trigger] task[j].0 == id
}

/// Applying a finished compaction to the first `n` tiers: the tiers kept, the
/// table ids to delete, and whether the new tier has been placed.
pub open spec fn applied(
    levels: Seq<(usize, Seq<usize>)>,
    task: Seq<(usize, Seq<usize>)>,
    output: Seq<usize>,
    n: int,
) -> (Seq<(usize, Seq<usize>)>, Seq<usize>, bool)
    decreases n,
{
    if n <= 0 || n > levels.len() {
        (Seq::empty(), Seq::empty(), false)
    } else {
        let prev = applied(levels, task, output, n - 1);
        let t = levels[n - 1];
        if task_names(task, t.0) {
            (
                if prev.2 {
                    prev.0
                } else {
                    prev.0.push((output[0], output))
                },
                prev.1 + t.1,
                true,
            )
        } else {
            (prev.0.push(t), prev.1, prev.2)
        }
    }
}

/// Tier ids are pairwise distinct.
pub open spec fn distinct_tier_ids(levels: Seq<(usize, Seq<usize>)>) -> bool {
    forall|i: int, j: int|
        0 <= i < levels.len() && 0 <= j < levels.len() && i != j ==> #[trigger] levels[i].0
            != #[trigger] levels[j].0
}

proof fn lemma_applied_prefix(
    levels: Seq<(usize, Seq<usize>)>,
    task: Seq<(usize, Seq<usize>)>,
    output: Seq<usize>,
    n: int,
)
    requires
        output.len() > 0,
        0 < task.len() <= levels.len(),
        task == levels.take(task.len() as int),
        distinct_tier_ids(levels),
        1 <= n <= levels.len(),
    ensures
        applied(levels, task, output, n).2,
        n <= task.len() ==> applied(levels, task, output, n).0 == seq![(output[0], output)],
        n >= task.len() ==> applied(levels, task, output, n).0 == seq![(output[0], output)]
            + levels.subrange(task.len() as int, n),
    decreases n,
{
    let k = task.len() as int;
    let t = levels[n - 1];
    if n - 1 < k {
        assert(task[n - 1].0 == t.0);
    } else {
        assert forall|j: int| 0 <= j < task.len() implies #[trigger] task[j].0 != t.0 by {
            assert(task[j] == levels[j]);
        }
    }
    if n > 1 {
        lemma_applied_prefix(levels, task, output, n - 1);
        if n - 1 >= k {
            assert(levels.subrange(k, n) == levels.subrange(k, n - 1).push(t));
            assert(seq![(output[0], output)] + levels.subrange(k, n) == (seq![(output[0], output)]
                + levels.subrange(k, n - 1)).push(t));
        }
    } else {
        assert(applied(levels, task, output, 0).0 == Seq::<(usize, Seq<usize>)>::empty());
        assert(Seq::<(usize, Seq<usize>)>::empty().push((output[0], output)) == seq![(output[0], output)]);
        if n >= k {
            assert(levels.subrange(k, n) == Seq::<(usize, Seq<usize>)>::empty());
            assert(seq![(output[0], output)] + levels.subrange(k, n) == seq![(output[0], output)]);
        }
    }
}

/// Merging the newest `k` tiers of a manifest with distinct tier ids into a
/// tier with a fresh id leaves `k - 1` fewer tiers, none of the merged tier
/// ids, and the fresh id exactly once, at the front.
pub proof fn lemma_apply_compaction_counts(
    levels: Seq<(usize, Seq<usize>)>,
    task: Seq<(usize, Seq<usize>)>,
    output: Seq<usize>,
)
    requires
        output.len() > 0,
        0 < task.len() <= levels.len(),
        task == levels.take(task.len() as int),
        distinct_tier_ids(levels),
        forall|i: int| 0 <= i < levels.len() ==> #[trigger] levels[i].0 != output[0],
    ensures
        applied(levels, task, output, levels.len() as int).0.len() == levels.len() - task.len() + 1,
        forall|i: int|
            0 <= i < applied(levels, task, output, levels.len() as int).0.len() ==> !task_names(
                task,
                #[trigger] applied(levels, task, output, levels.len() as int).0[i].0,
            ),
        applied(levels, task, output, levels.len() as int).0[0].0 == output[0],
        forall|i: int|
            1 <= i < applied(levels, task, output, levels.len() as int).0.len() ==> #[trigger] applied(
                levels,
                task,
                output,
                levels.len() as int,
            ).0[i].0 != output[0],
{
    let k = task.len() as int;
    let len = levels.len() as int;
    lemma_applied_prefix(levels, task, output, len);
    let r = applied(levels, task, output, len).0;
    assert forall|i: int| 0 <= i < r.len() implies !task_names(task, #[trigger] r[i].0) by {
        if i == 0 {
            assert forall|j: int| 0 <= j < task.len() implies #[trigger] task[j].0 != r[i].0 by {
                assert(task[j] == levels[j]);
            }
        } else {
            assert(r[i] == levels[k + i - 1]);
            assert forall|j: int| 0 <= j < task.len() implies #[trigger] task[j].0 != r[i].0 by {
                assert(task[j] == levels[j]);
            }
        }
    }
    assert forall|i: int| 1 <= i < r.len() implies #[trigger] r[i].0 != output[0] by {
        assert(r[i] == levels[k + i - 1]);
    }
}

proof fn lemma_ratio_width_bounds(levels: Seq<(usize, Seq<usize>)>, o: TieredCompactionOptions, i: int)
    requires
        0 <= i,
    ensures
        ratio_width_from(levels, o, i) matches Some(w) ==> 2 <= w <= levels.len(),
    decreases levels.len() - i,
{
    if i + 1 < levels.len() {
        lemma_ratio_width_bounds(levels, o, i + 1);
    }
}

/// A planned merge takes between one tier and all of them, and a merge that
/// takes in the bottom tier ends with it.
pub proof fn lemma_bottom_tier_in_task(o: TieredCompactionOptions, levels: Seq<(usize, Seq<usize>)>)
    ensures
        planned_width(o, levels) matches Some(w) ==> 1 <= w <= levels.len() && (w == levels.len()
            ==> levels.take(w).last() == levels.last()),
{
    lemma_ratio_width_bounds(levels, o, 0);
}

proof fn lemma_sum_sizes_mono(levels: Seq<(usize, Seq<usize>)>, i: int, j: int)
    requires
        0 <= i <= j <= levels.len(),
    ensures
        0 <= sum_sizes(levels, i) <= sum_sizes(levels, j),
    decreases j - i,
{
    if i < j {
        lemma_sum_sizes_mono(levels, i, j - 1);
    } else {
        lemma_sum_sizes_nonneg(levels, i);
    }
}

proof fn lemma_sum_sizes_nonneg(levels: Seq<(usize, Seq<usize>)>, i: int)
    ensures
        0 <= sum_sizes(levels, i),
    decreases i,
{
    if i > 0 && i <= levels.len() {
        lemma_sum_sizes_nonneg(levels, i - 1);
    }
}

/// The exact product of two machine words.
fn mul_u128(a: usize, b: usize) -> (r: u128)
    ensures
        r == a * b,
        r <= 0x1_0000_0000_0000_0000 * 0x1_0000_0000_0000_0000 - 0x2_0000_0000_0000_0000 + 1,
{
    let x = a as u128;
    let y = b as u128;
    proof {
        assert(x * y <= 0xFFFF_FFFF_FFFF_FFFFu128 * 0xFFFF_FFFF_FFFF_FFFFu128) by (nonlinear_arith)
            requires
                x <= 0xFFFF_FFFF_FFFF_FFFFu128,
                y <= 0xFFFF_FFFF_FFFF_FFFFu128,
        ;
    }
    x * y
}

/// Copies a slice of table ids.
fn copy_slice_ids(v: &[usize]) -> (r: Vec<usize>)
    ensures
        r@ == v@,
{
    let mut out: Vec<usize> = Vec::new();
    let mut i: usize = 0;
    while i < v.len()
        invariant
            i <= v.len(),
            out@ == v@.subrange(0, i as int),
        decreases v.len() - i,
    {
        out.push(v[i]);
        assert(v@.subrange(0, i + 1) == v@.subrange(0, i as int).push(v@[i as int]));
        i = i + 1;
    }
    assert(v@.subrange(0, v.len() as int) == v@);
    out
}

/// Copies the first `n` tiers.
fn copy_tiers(levels: &Vec<(usize, Vec<usize>)>, n: usize) -> (r: Vec<(usize, Vec<usize>)>)
    requires
        n <= levels.len(),
    ensures
        tiers_view(r@) == tiers_view(levels@).take(n as int),
{
    let mut out: Vec<(usize, Vec<usize>)> = Vec::new();
    let mut i: usize = 0;
    while i < n
        invariant
            i <= n <= levels.len(),
            out@.len() == i,
            tiers_view(out@) == tiers_view(levels@).take(i as int),
        decreases n - i,
    {
        let ids = copy_slice_ids(levels[i].1.as_slice());
        let ghost prev = out@;
        out.push((levels[i].0, ids));
        assert forall|j: int| 0 <= j <= i implies #[trigger] tiers_view(out@)[j] == tiers_view(
            levels@,
        )[j] by {
            if j < i {
                assert(out@[j] == prev[j]);
                assert(tiers_view(prev)[j] == tiers_view(levels@).take(i as int)[j]);
            }
        }
        assert(tiers_view(out@) =~= tiers_view(levels@).take(i + 1));
        i = i + 1;
    }
    out
}

impl TieredCompactionController {
    pub fn new(options: TieredCompactionOptions) -> (r: Self)
        ensures
            r.options() == options,
    {
        Self { options }
    }

    pub closed spec fn options(&self) -> TieredCompactionOptions {
        self.options
    }

    /// Replaces the merged tiers with one new tier made of `output`, placed where
    /// the first merged tier stood; returns the new state and the ids to delete.
    pub fn apply_compaction_result(
        &self,
        snapshot: &LsmStorageState,
        task: &TieredCompactionTask,
        output: &[usize],
    ) -> (r: (LsmStorageState, Vec<usize>))
        requires
            output.len() > 0,
        ensures
            r.0@ == applied(snapshot@, task@.0, output@, snapshot@.len() as int).0,
            r.1@ == applied(snapshot@, task@.0, output@, snapshot@.len() as int).1,
    {
        let ghost lv = snapshot@;
        let ghost tv = task@.0;
        let mut levels: Vec<(usize, Vec<usize>)> = Vec::new();
        let mut removed: Vec<usize> = Vec::new();
        let mut placed = false;
        let mut i: usize = 0;
        while i < snapshot.levels.len()
            invariant
                lv == snapshot@,
                tv == task@.0,
                output.len() > 0,
                i <= snapshot.levels.len(),
                tiers_view(levels@) == applied(lv, tv, output@, i as int).0,
                removed@ == applied(lv, tv, output@, i as int).1,
                placed == applied(lv, tv, output@, i as int).2,
            decreases snapshot.levels.len() - i,
        {
            let id = snapshot.levels[i].0;
            let mut named = false;
            let mut j: usize = 0;
            while j < task.tiers.len()
                invariant
                    tv == task@.0,
                    j <= task.tiers.len(),
                    named == exists|k: int| 0 <= k < j && #[trigger] tv[k].0 == id,
                decreases task.tiers.len() - j,
            {
                assert(tv[j as int] == tier_view(task.tiers@[j as int]));
                if task.tiers[j].0 == id {
                    named = true;
                    assert(tv[j as int].0 == id);
                }
                assert(named == exists|k: int| 0 <= k < j + 1 && #[trigger] tv[k].0 == id) by {
                    if exists|k: int| 0 <= k < j + 1 && #[trigger] tv[k].0 == id {
                        let k = choose|k: int| 0 <= k < j + 1 && #[trigger] tv[k].0 == id;
                        if k < j {
                            assert(exists|k: int| 0 <= k < j && #[trigger] tv[k].0 == id);
                        }
                    }
                }
                j = j + 1;
            }
            assert(named == task_names(tv, id));
            let ghost prev = levels@;
            if named {
                let tier = &snapshot.levels[i].1;
                let mut k: usize = 0;
                let ghost before = removed@;
                while k < tier.len()
                    invariant
                        k <= tier.len(),
                        removed@ == before + tier@.subrange(0, k as int),
                    decreases tier.len() - k,
                {
                    removed.push(tier[k]);
                    assert(tier@.subrange(0, k + 1) == tier@.subrange(0, k as int).push(tier@[k as int]));
                    k = k + 1;
                }
                assert(tier@.subrange(0, tier.len() as int) == tier@);
                if !placed {
                    let ids = copy_slice_ids(output);
                    levels.push((output[0], ids));
                    assert(tiers_view(levels@) =~= tiers_view(prev).push((output[0], output@)));
                    placed = true;
                }
            } else {
                let ids = copy_slice_ids(snapshot.levels[i].1.as_slice());
                levels.push((id, ids));
                assert(tiers_view(levels@) =~= tiers_view(prev).push(lv[i as int]));
            }
            i = i + 1;
        }
        (LsmStorageState { levels }, removed)
    }

    /// Chooses the newest tiers to merge, or `None` when nothing is due.
    pub fn generate_compaction_task(&self, snapshot: &LsmStorageState) -> (r: Option<
        TieredCompactionTask,
    >)
        requires
            sum_sizes(snapshot@, snapshot@.len() as int) <= usize::MAX,
        ensures
            match planned_width(self.options(), snapshot@) {
                None => r.is_none(),
                Some(w) => r.is_some() && r.unwrap()@ == (
                snapshot@.take(w), w == snapshot@.len()),
            },
    {
        let o = self.options;
        let levels = &snapshot.levels;
        let len = levels.len();
        let ghost lv = snapshot@;
        if len == 0 || len < o.num_tiers {
            return None;
        }
        let mut size: usize = 0;
        let mut i: usize = 0;
        while i < len - 1
            invariant
                lv == tiers_view(levels@),
                len == levels.len() == lv.len(),
                0 < len,
                i <= len - 1,
                size == sum_sizes(lv, i as int),
                sum_sizes(lv, len as int) <= usize::MAX,
            decreases len - 1 - i,
        {
            proof {
                lemma_sum_sizes_mono(lv, i + 1, len as int);
            }
            size = size + levels[i].1.len();
            i = i + 1;
        }
        let bottom = levels[len - 1].1.len();
        if bottom > 0 && mul_u128(size, 100) >= mul_u128(o.max_size_amplification_percent, bottom) {
            let tiers = copy_tiers(levels, len);
            assert(lv.take(len as int) == lv);
            return Some(TieredCompactionTask { tiers, bottom_tier_included: true });
        }
        size = 0;
        i = 0;
        while i < len - 1
            invariant
                lv == tiers_view(levels@),
                len == levels.len() == lv.len(),
                0 < len,
                i <= len - 1,
                size == sum_sizes(lv, i as int),
                sum_sizes(lv, len as int) <= usize::MAX,
                ratio_width_from(lv, o, 0) == ratio_width_from(lv, o, i as int),
                o == self.options(),
                lv == snapshot@,
                len >= o.num_tiers,
                !space_amp_triggers(
                    sum_sizes(lv, len - 1),
                    lv[len - 1].1.len() as int,
                    o.max_size_amplification_percent as int,
                ),
            decreases len - 1 - i,
        {
            proof {
                lemma_sum_sizes_mono(lv, i + 1, len as int);
            }
            size = size + levels[i].1.len();
            let this_tier = levels[i + 1].1.len();
            let scaled = mul_u128(size, 100);
            let by_ratio = mul_u128(o.size_ratio, this_tier);
            let by_hundred = mul_u128(100, this_tier);
            proof {
                assert((100 + o.size_ratio) * this_tier == o.size_ratio * this_tier + 100 * this_tier)
                    by (nonlinear_arith);
            }
            if size > 0 && scaled >= by_hundred && scaled - by_hundred >= by_ratio && i + 2 >= o.min_merge_width {
                assert(ratio_width_from(lv, o, i as int) == Some(i + 2));
                let tiers = copy_tiers(levels, i + 2);
                return Some(TieredCompactionTask { tiers, bottom_tier_included: i + 2 == len });
            }
            assert(ratio_width_from(lv, o, i as int) == ratio_width_from(lv, o, i + 1));
            i = i + 1;
        }
        let take = if o.num_tiers >= 2 {
            len - (o.num_tiers - 2)
        } else {
            len
        };
        let tiers = copy_tiers(levels, take);
        Some(TieredCompactionTask { tiers, bottom_tier_included: take == len })
    }
}

} // verus!
